use cdgcd::check::{describe_decision, describe_finding, survey_for_check};
use cdgcd::config::{Config, NamedRule, Rule};
use cdgcd::dump::{CoredumpFile, ParseError};
use cdgcd::duration::TimeSpan;
use cdgcd::journal::JournalContext;
use cdgcd::policy::{Policy, Users};
use cdgcd::quota::{
    compute_keep_count_excess, decide, Classified, Decision, KeepReason, RemoveReason,
};
use cdgcd::scan::{
    asks_journal, classify, judge, survey, Candidate, Entry, Finding, ScanReport, Scanner,
};

const BOOT: &str = "0123456789abcdef0123456789abcdef";

fn named(name: &str, process_name: &str, keep_count: Option<u32>, group_by: &[&str]) -> NamedRule {
    let mut rule = Rule::default();
    if process_name != "" {
        rule.process_name = vec![process_name.to_string()];
    }
    rule.keep_count = keep_count;
    rule.group_by = group_by.iter().map(|s| s.to_string()).collect();
    NamedRule { name: name.to_string(), rule }
}

fn config_with(rules: Vec<NamedRule>, dry_run: bool) -> Config {
    Config {
        coredump_directory: "/dumps".to_string(),
        idle_interval: TimeSpan::from_secs(300),
        minimum_age: TimeSpan::from_secs(30),
        dry_run,
        rules,
    }
}

fn policy_of(config: &Config) -> Policy {
    Policy::from_config(config, &Users { entries: Vec::new() }).unwrap()
}

fn name(comm: &str, uid: u32, timestamp: u64) -> String {
    format!("core.{}.{}.{}.1.{}.zst", comm, uid, BOOT, timestamp)
}

fn dump(comm: &str, uid: u32, timestamp: u64) -> CoredumpFile {
    CoredumpFile::from_path(format!("/dumps/{}", name(comm, uid, timestamp)).as_bytes()).unwrap()
}

fn entry_of(name: &str, age: Result<Option<TimeSpan>, String>) -> Result<Entry, String> {
    Ok(Entry { path: format!("/dumps/{}", name).into_bytes(), age })
}

fn entry(name: &str, age_in_seconds: u64) -> Result<Entry, String> {
    entry_of(name, Ok(Some(TimeSpan::from_secs(age_in_seconds))))
}

/// How many entries a report has, all lists together.
fn listed(report: &ScanReport) -> usize {
    report.kept.len()
        + report.removed.len()
        + report.would_remove.len()
        + report.too_young.len()
        + report.unparseable.len()
        + report.errors.len()
}

fn classified(policy: &Policy, dumps: Vec<CoredumpFile>) -> Vec<Classified> {
    dumps
        .into_iter()
        .map(|d| classify(policy, d, false, JournalContext::default()))
        .collect()
}

fn candidate(dump: CoredumpFile, retained: bool) -> Candidate {
    Candidate { dump, retained, context: JournalContext::default() }
}

#[test]
fn newest_per_group_stay() {
    let config = config_with(vec![named("app", "app", Some(2), &["user_id"])], false);
    let policy = policy_of(&config);
    let dumps = classified(
        &policy,
        vec![
            dump("app", 1, 10),
            dump("app", 1, 30),
            dump("app", 2, 5),
            dump("app", 1, 20),
            dump("app", 1, 40),
            dump("other", 1, 99),
        ],
    );
    assert_eq!(compute_keep_count_excess(&policy, &dumps), vec![0, 3]);
    let decided = decide(&policy, dumps);
    let kept: Vec<bool> = decided.iter().map(|d| matches!(d.1, Decision::Keep(_))).collect();
    assert_eq!(kept, vec![false, true, true, false, true, false]);
    assert_eq!(
        decided[0].1,
        Decision::Remove(RemoveReason::KeepCountExceeded {
            rule: "app".to_string(),
            keep_count: 2
        })
    );
    assert_eq!(decided[1].1, Decision::Keep(KeepReason::Rule("app".to_string())));
    assert_eq!(decided[5].1, Decision::Remove(RemoveReason::NoRuleMatched));
}

#[test]
fn without_grouping_the_limit_is_per_rule() {
    let config = config_with(
        vec![named("a", "a", Some(1), &[]), named("rest", "", Some(1), &[])],
        false,
    );
    let policy = policy_of(&config);
    let dumps = classified(
        &policy,
        vec![dump("a", 1, 1), dump("a", 2, 2), dump("b", 1, 3), dump("c", 1, 4)],
    );
    assert_eq!(compute_keep_count_excess(&policy, &dumps), vec![0, 2]);
}

#[test]
fn of_equally_old_dumps_the_first_stays() {
    let config = config_with(vec![named("all", "", Some(1), &[])], false);
    let policy = policy_of(&config);
    let dumps = classified(&policy, vec![dump("a", 1, 7), dump("b", 1, 7), dump("c", 1, 7)]);
    assert_eq!(compute_keep_count_excess(&policy, &dumps), vec![1, 2]);
}

#[test]
fn a_limit_of_none_keeps_all_and_of_zero_keeps_nothing() {
    let config = config_with(vec![named("all", "", None, &[])], false);
    let policy = policy_of(&config);
    let dumps = classified(&policy, vec![dump("a", 1, 1), dump("a", 1, 2)]);
    assert!(compute_keep_count_excess(&policy, &dumps).is_empty());

    let config = config_with(vec![named("all", "", Some(0), &[])], false);
    let policy = policy_of(&config);
    let dumps = classified(&policy, vec![dump("a", 1, 1), dump("a", 1, 2)]);
    assert_eq!(compute_keep_count_excess(&policy, &dumps), vec![0, 1]);
}

#[test]
fn dumps_that_the_journal_does_not_know_are_one_group() {
    let config = config_with(vec![named("all", "", Some(1), &["executable_path"])], false);
    let policy = policy_of(&config);
    let with_path = |timestamp: u64, path: Option<&str>| {
        let context = JournalContext {
            executable_path: path.map(|p| p.to_string()),
            ..JournalContext::default()
        };
        classify(&policy, dump("a", 1, timestamp), false, context)
    };
    let dumps = vec![
        with_path(1, None),
        with_path(2, Some("/bin/a")),
        with_path(3, None),
        with_path(4, Some("/bin/b")),
        with_path(5, Some("/bin/a")),
    ];
    assert_eq!(compute_keep_count_excess(&policy, &dumps), vec![0, 1]);
}

#[test]
fn pinned_dumps_stay_and_do_not_count() {
    let config = config_with(vec![named("all", "", Some(1), &[])], false);
    let policy = policy_of(&config);
    let pinned = classify(&policy, dump("a", 1, 100), true, JournalContext::default());
    assert_eq!(pinned.rule_index, None);
    let other = classify(&policy, dump("a", 1, 50), false, JournalContext::default());
    let decided = decide(&policy, vec![pinned, other]);
    assert_eq!(decided[0].1, Decision::Keep(KeepReason::Retained));
    assert_eq!(decided[1].1, Decision::Keep(KeepReason::Rule("all".to_string())));
}

#[test]
fn a_second_scan_removes_nothing() {
    let config = config_with(vec![named("app", "app", Some(2), &["user_id"])], false);
    let policy = policy_of(&config);
    let stamps: Vec<u64> = vec![4, 1, 4, 3, 2, 9];
    let dumps = classified(&policy, stamps.iter().map(|t| dump("app", 1, *t)).collect());
    let left: Vec<CoredumpFile> = decide(&policy, dumps)
        .into_iter()
        .filter(|d| matches!(d.1, Decision::Keep(_)))
        .map(|d| d.0)
        .collect();
    assert_eq!(left.len(), 2);
    let again = decide(&policy, classified(&policy, left));
    assert!(again.iter().all(|d| matches!(d.1, Decision::Keep(_))));
}

#[test]
fn a_directory_is_surveyed_file_by_file() {
    let pinned = name("pinned", 1, 1);
    let unreadable = entry_of(&name("gone", 1, 2), Err("no such file".to_string()));
    let ageless = entry_of(&name("ageless", 1, 3), Ok(None));
    let entries = vec![
        entry(&pinned, 60),
        entry("README.md", 60),
        entry(&format!("core.x.y.{}.1.1", BOOT), 60),
        unreadable,
        ageless,
        entry(&name("young", 1, 4), 29),
        entry(&name("due", 1, 5), 30),
        entry(&format!("{}.cdgc-retain", pinned), 60),
    ];
    let found = survey(entries, "/dumps", &TimeSpan::from_secs(30));
    assert_eq!(found.len(), 8);
    assert!(matches!(&found[0], Finding::Candidate(d, true) if d.comm == "pinned"));
    assert!(matches!(&found[1], Finding::Unparseable(p, ParseError::NotACoredump)
        if p == b"/dumps/README.md"));
    assert!(matches!(&found[2], Finding::Unparseable(_, ParseError::BadField("uid"))));
    assert!(matches!(&found[3], Finding::Unreadable(_, reason) if reason == "no such file"));
    assert!(matches!(&found[4], Finding::Candidate(d, false) if d.comm == "ageless"));
    assert!(matches!(&found[5], Finding::TooYoung(d) if d.comm == "young"));
    assert!(matches!(&found[6], Finding::Candidate(d, false) if d.comm == "due"));
    assert!(matches!(&found[7], Finding::Unparseable(_, ParseError::NotACoredump)));
}

#[test]
fn a_marker_is_no_dump_even_if_its_name_reads_as_one() {
    let marker = format!("core.a.0.{}.1.5.cdgc-retain", BOOT);
    let found = survey(vec![entry(&marker, 60)], "/dumps", &TimeSpan::from_secs(30));
    assert!(matches!(&found[0], Finding::Unparseable(p, ParseError::NotACoredump)
        if p == format!("/dumps/{}", marker).as_bytes()));
    assert_eq!(describe_finding(&found[0], "x"), None);
}

#[test]
fn errors_keep_the_order_of_the_listing() {
    let config = config_with(Vec::new(), false);
    let policy = policy_of(&config);
    let scanner = Scanner { config: &config, policy: &policy };
    let gone = name("gone", 1, 1);
    let (report, dumps) = scanner.survey(Ok(vec![
        entry_of(&gone, Err("no such file".to_string())),
        Err("bad entry".to_string()),
        entry_of(&gone, Err("again".to_string())),
    ]));
    let path = format!("/dumps/{}", gone).into_bytes();
    assert_eq!(
        report.errors,
        vec![
            (path.clone(), "no such file".to_string()),
            (b"/dumps".to_vec(), "bad entry".to_string()),
            (path, "again".to_string()),
        ]
    );
    assert_eq!((listed(&report), dumps.len()), (3, 0));
}

#[test]
fn a_directory_that_cannot_be_listed_is_one_error() {
    let config = config_with(Vec::new(), false);
    let policy = policy_of(&config);
    let scanner = Scanner { config: &config, policy: &policy };
    let (report, dumps) = scanner.survey(Err("denied".to_string()));
    assert_eq!(report.errors, vec![(b"/dumps".to_vec(), "denied".to_string())]);
    assert_eq!((listed(&report), dumps.len()), (1, 0));
}

#[test]
fn a_scan_reports_everything_once() {
    let config = config_with(vec![named("app", "app", Some(1), &[])], false);
    let policy = policy_of(&config);
    let scanner = Scanner { config: &config, policy: &policy };
    let entries = vec![
        entry("README.md", 60),
        entry(&name("app", 1, 1), 60),
        entry(&name("app", 1, 2), 60),
        entry(&name("other", 1, 3), 60),
        entry(&name("app", 1, 4), 1),
        Err("bad entry".to_string()),
    ];
    let (mut report, candidates) = scanner.survey(Ok(entries));
    assert_eq!(report.errors, vec![(b"/dumps".to_vec(), "bad entry".to_string())]);
    assert_eq!(candidates.len(), 3);
    let candidates = candidates.into_iter().map(|(d, retained)| candidate(d, retained)).collect();
    let gone = scanner.scan(candidates, &mut report);
    assert_eq!(gone.len(), 2);
    let mut outcomes = vec![Ok(()), Err("denied".to_string())].into_iter();
    for (d, reason) in gone {
        report.record_removal(d, reason, outcomes.next().unwrap());
    }
    assert_eq!(
        report.summary(),
        "kept=1 removed=1 would_remove=0 too_young=1 unparseable=1 errors=2"
    );
    assert_eq!(listed(&report), 6);
    assert_eq!(report.removed[0].0.timestamp_micros, 1);
    assert_eq!(report.errors[1].1, "denied");
    assert_eq!(report.exit_code(), 2);
}

#[test]
fn a_dry_run_hands_nothing_on() {
    let config = config_with(vec![named("app", "app", None, &[])], true);
    let policy = policy_of(&config);
    let scanner = Scanner { config: &config, policy: &policy };
    let mut report = ScanReport::default();
    let candidates = vec![candidate(dump("app", 1, 1), false), candidate(dump("x", 1, 2), false)];
    assert!(scanner.scan(candidates, &mut report).is_empty());
    assert_eq!(report.would_remove.len(), 1);
    assert_eq!(report.would_remove[0].0.comm, "x");
    assert_eq!(report.exit_code(), 1);
    assert_eq!(
        report.summary(),
        "kept=1 removed=0 would_remove=1 too_young=0 unparseable=0 errors=0"
    );
}

#[test]
fn exit_codes_of_a_scan() {
    let mut report = ScanReport::default();
    assert_eq!(report.exit_code(), 0);
    report.record_removal(dump("a", 1, 1), RemoveReason::NoRuleMatched, Ok(()));
    assert_eq!(report.exit_code(), 1);
    report.record_error(b"/dumps".to_vec(), "gone".to_string());
    assert_eq!(report.exit_code(), 2);
}

#[test]
fn a_check_overlooks_files_that_it_cannot_look_at() {
    let unreadable = entry_of(&name("gone", 1, 2), Err("no such file".to_string()));
    let unlisted = Err("bad entry".to_string());
    let found = survey_for_check(vec![unreadable, unlisted], "/dumps", &TimeSpan::from_secs(30));
    assert!(matches!(&found[0], Finding::Candidate(d, false) if d.comm == "gone"));
    assert!(matches!(&found[1], Finding::Unreadable(_, reason) if reason == "bad entry"));
}

#[test]
fn lines_of_a_check() {
    let bad = Finding::Unparseable(Vec::new(), ParseError::BadField("pid"));
    assert_eq!(describe_finding(&bad, "/d/x").as_deref(), Some("/d/x\tBAD\tfield=pid"));
    let none = Finding::Unparseable(Vec::new(), ParseError::NotACoredump);
    assert_eq!(describe_finding(&none, "/d/x"), None);
    let young = Finding::TooYoung(dump("app", 1, 1));
    assert_eq!(
        describe_finding(&young, "/d/x").as_deref(),
        Some("/d/x\tTOO_YOUNG\tprocess_name=app")
    );
    assert_eq!(describe_finding(&Finding::Candidate(dump("app", 1, 1), false), "/d/x"), None);

    let d = dump("app", 1, 1);
    assert_eq!(
        describe_decision(&d, &Decision::Keep(KeepReason::Retained), "/d/x"),
        "/d/x\tKEEP\tprocess_name=app\treason=Retained"
    );
    assert_eq!(
        describe_decision(&d, &Decision::Keep(KeepReason::Rule("r".to_string())), "/d/x"),
        "/d/x\tKEEP\tprocess_name=app\trule=r"
    );
    assert_eq!(
        describe_decision(&d, &Decision::Remove(RemoveReason::NoRuleMatched), "/d/x"),
        "/d/x\tREMOVE\tprocess_name=app\treason=NoRuleMatched"
    );
    let exceeded = RemoveReason::KeepCountExceeded { rule: "r".to_string(), keep_count: 12 };
    assert_eq!(
        describe_decision(&d, &Decision::Remove(exceeded), "/d/x"),
        "/d/x\tREMOVE\tprocess_name=app\treason=KeepCountExceeded\trule=r\tkeep_count=12"
    );
}

#[test]
fn a_whole_scan_spares_what_is_marked() {
    let config = config_with(vec![named("app", "app", Some(1), &[])], false);
    let policy = policy_of(&config);
    let scanner = Scanner { config: &config, policy: &policy };
    let pinned = name("other", 1, 1);
    let entries = vec![
        entry(&format!("{}.cdgc-retain", pinned), 60),
        entry(&pinned, 60),
        entry(&name("other", 1, 2), 60),
        entry(&name("app", 1, 3), 60),
    ];
    let (mut report, found) = scanner.survey(Ok(entries));
    let found = found.into_iter().map(|(d, retained)| candidate(d, retained)).collect();
    let gone = scanner.scan(found, &mut report);
    let paths: Vec<Vec<u8>> = gone.into_iter().map(|g| g.0.path).collect();
    assert_eq!(paths, vec![format!("/dumps/{}", name("other", 1, 2)).into_bytes()]);
    assert_eq!(
        report.summary(),
        "kept=2 removed=0 would_remove=0 too_young=0 unparseable=1 errors=0"
    );
}

#[test]
fn dumps_are_judged_by_rule() {
    let config = config_with(vec![named("app", "app", None, &[])], false);
    let policy = policy_of(&config);
    let decided = judge(
        &policy,
        vec![candidate(dump("app", 1, 1), false), candidate(dump("x", 1, 1), false)],
    );
    assert_eq!(decided[0].1, Decision::Keep(KeepReason::Rule("app".to_string())));
    assert_eq!(decided[1].1, Decision::Remove(RemoveReason::NoRuleMatched));
}

#[test]
fn the_journal_is_asked_only_where_it_matters() {
    let plain = policy_of(&config_with(vec![named("app", "app", None, &[])], false));
    assert!(!asks_journal(&plain, false));
    let grouped = policy_of(&config_with(vec![named("all", "", Some(1), &["signal"])], false));
    assert!(asks_journal(&grouped, false));
    assert!(!asks_journal(&grouped, true));
}
