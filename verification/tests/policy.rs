use cdgcd::config::{Config, NamedRule, Rule};
use cdgcd::dump::CoredumpFile;
use cdgcd::duration::TimeSpan;
use cdgcd::journal::JournalContext;
use cdgcd::pattern::{glob_min_match_bytes, glob_min_match_length, GlobPattern};
use cdgcd::policy::{user_names, CompiledRule, GroupField, Policy, PolicyError, Users};

fn dump(comm: &str, uid: u32) -> CoredumpFile {
    CoredumpFile {
        path: format!("/tmp/{}", comm).into_bytes(),
        comm: comm.to_string(),
        uid,
        boot_id: "0".repeat(32),
        pid: 1,
        timestamp_micros: 0,
        extension: None,
    }
}

fn config_with(rules: Vec<NamedRule>) -> Config {
    Config {
        coredump_directory: "/var/lib/systemd/coredump".to_string(),
        idle_interval: TimeSpan::from_secs(300),
        minimum_age: TimeSpan::from_secs(30),
        dry_run: false,
        rules,
    }
}

fn rule(name: &str) -> NamedRule {
    NamedRule {
        name: name.to_string(),
        rule: Rule::default(),
    }
}

fn users() -> Users {
    Users {
        entries: vec![("root".to_string(), 0), ("daemon".to_string(), 1)],
    }
}

#[test]
fn first_rule_wins() {
    let mut a = rule("a");
    a.rule.process_name = vec!["foo".into()];
    let mut b = rule("b");
    b.rule.process_name = vec!["foo".into()];

    let p = Policy::from_config(&config_with(vec![a, b]), &users()).unwrap();
    let m = p.first_match(&dump("foo", 0), &JournalContext::default()).unwrap();
    assert_eq!(m.name, "a");
}

#[test]
fn unconstrained_rule_matches_everything() {
    let p = Policy::from_config(&config_with(vec![rule("catch_all")]), &users()).unwrap();
    assert!(
        p.first_match(&dump("anything", 999), &JournalContext::default())
            .is_some()
    );
}

#[test]
fn fields_combine_with_and() {
    let mut r = rule("strict");
    r.rule.process_name = vec!["myapp".into()];
    r.rule.user_id = vec![1000];
    let p = Policy::from_config(&config_with(vec![r]), &users()).unwrap();
    assert!(p.first_match(&dump("myapp", 1000), &JournalContext::default()).is_some());
    assert!(p.first_match(&dump("myapp", 999), &JournalContext::default()).is_none());
    assert!(p.first_match(&dump("other", 1000), &JournalContext::default()).is_none());
}

#[test]
fn array_within_field_is_or() {
    let mut r = rule("either");
    r.rule.process_name = vec!["a".into(), "b".into()];
    let p = Policy::from_config(&config_with(vec![r]), &users()).unwrap();
    assert!(p.first_match(&dump("a", 0), &JournalContext::default()).is_some());
    assert!(p.first_match(&dump("b", 0), &JournalContext::default()).is_some());
    assert!(p.first_match(&dump("c", 0), &JournalContext::default()).is_none());
}

#[test]
fn executable_path_requires_journal_data() {
    let mut r = rule("by_exe");
    r.rule.executable_path = vec!["/opt/foo/*".into()];
    let p = Policy::from_config(&config_with(vec![r]), &users()).unwrap();
    assert!(p.needs_journal());

    let ctx_with = JournalContext {
        executable_path: Some("/opt/foo/bin/x".into()),
        ..JournalContext::default()
    };
    assert!(p.first_match(&dump("anything", 0), &ctx_with).is_some());
    assert!(p.first_match(&dump("anything", 0), &JournalContext::default()).is_none());
}

#[test]
fn signal_match_is_exact() {
    let mut r = rule("sig");
    r.rule.signal = vec!["SIGSEGV".into()];
    let p = Policy::from_config(&config_with(vec![r]), &users()).unwrap();
    let ctx = JournalContext {
        signal: Some("SIGSEGV".into()),
        ..JournalContext::default()
    };
    assert!(p.first_match(&dump("x", 0), &ctx).is_some());
    let ctx_other = JournalContext {
        signal: Some("SIGABRT".into()),
        ..JournalContext::default()
    };
    assert!(p.first_match(&dump("x", 0), &ctx_other).is_none());
}

#[test]
fn user_name_resolves_to_uid() {
    let mut r = rule("by_user");
    r.rule.user_name = vec!["root".into()];
    let p = Policy::from_config(&config_with(vec![r]), &users()).unwrap();
    assert!(p.rules[0].user_ids.contains(&0));
}

#[test]
fn glob_min_match_length_basics() {
    assert_eq!(glob_min_match_length("myapp"), 5);
    assert_eq!(glob_min_match_length("my*"), 2);
    assert_eq!(glob_min_match_length("*app"), 3);
    assert_eq!(glob_min_match_length("my?"), 3);
    assert_eq!(glob_min_match_length("my[xyz]"), 3);
    assert_eq!(glob_min_match_length("my\\*"), 3);
    assert_eq!(glob_min_match_length("a*b*c*d"), 4);
}

#[test]
fn over_long_process_name_is_rejected() {
    let mut r = rule("too-long");
    r.rule.process_name = vec!["this-name-is-definitely-too-long".to_string()];
    let err = Policy::from_config(&config_with(vec![r]), &users()).unwrap_err();
    assert!(matches!(err, PolicyError::ProcessNameTooLong { .. }));
}

#[test]
fn over_long_with_trailing_wildcard_still_rejected() {
    let mut r = rule("prefix-long");
    // 22 literal chars + "*": the literal prefix alone exceeds 15
    r.rule.process_name = vec!["gnome-shell-extension-*".to_string()];
    let err = Policy::from_config(&config_with(vec![r]), &users()).unwrap_err();
    assert!(matches!(err, PolicyError::ProcessNameTooLong { .. }));
}

#[test]
fn fifteen_char_pattern_is_accepted() {
    let mut r = rule("at-limit");
    r.rule.process_name = vec!["a".repeat(15)];
    assert!(Policy::from_config(&config_with(vec![r]), &users()).is_ok());
}

#[test]
fn unknown_user_is_an_error() {
    let mut r = rule("bad");
    r.rule.user_name = vec!["definitely-not-a-real-user-12345".into()];
    let err = Policy::from_config(&config_with(vec![r]), &users()).unwrap_err();
    assert!(matches!(err, PolicyError::UnknownUser(_)));
}

#[test]
fn policy_errors_as_sentences() {
    let mut r = rule("r");
    r.rule.user_name = vec!["nobody-here".into()];
    let err = CompiledRule::from_rule("r", &r.rule, &users()).unwrap_err();
    assert_eq!(err.message(), "unknown user: nobody-here");

    let mut r = rule("r");
    r.rule.group_by = vec!["colour".into()];
    let err = CompiledRule::from_rule("r", &r.rule, &users()).unwrap_err();
    assert!(matches!(err, PolicyError::UnknownGroupField(_)));
    assert_eq!(err.message(), "unknown group_by field: colour");

    let mut r = rule("r");
    r.rule.process_name = vec!["[".into()];
    let err = CompiledRule::from_rule("r", &r.rule, &users()).unwrap_err();
    assert!(matches!(err, PolicyError::Pattern(_)));
    assert_eq!(
        err.message(),
        "invalid glob: Pattern syntax error near position 0: invalid range pattern"
    );

    let mut r = rule("r");
    r.rule.process_name = vec!["sixteen\"letters".into(), "seventeen-letters".into()];
    let err = CompiledRule::from_rule("r", &r.rule, &users()).unwrap_err();
    assert_eq!(
        err.message(),
        "rule r process_name pattern \"seventeen-letters\" needs at least 17 chars to match, \
         but the kernel truncates `comm` to 15 bytes \u{2014} this pattern can never match"
    );
}

#[test]
fn over_long_names_are_found_before_anything_else() {
    let mut r = rule("r");
    r.rule.process_name = vec!["[".into(), "this-name-is-definitely-too-long".into()];
    r.rule.user_name = vec!["nobody-here".into()];
    let err = CompiledRule::from_rule("r", &r.rule, &users()).unwrap_err();
    assert!(matches!(err, PolicyError::ProcessNameTooLong { min_length: 32, .. }));
}

#[test]
fn uids_are_sorted_and_unique() {
    let mut r = rule("r");
    r.rule.user_id = vec![7, 1, 7, 3];
    r.rule.user_name = vec!["daemon".into(), "root".into()];
    let c = CompiledRule::from_rule("r", &r.rule, &users()).unwrap();
    assert_eq!(c.user_ids, vec![1]);
    r.rule.user_name = Vec::new();
    let c = CompiledRule::from_rule("r", &r.rule, &users()).unwrap();
    assert_eq!(c.user_ids, vec![1, 3, 7]);
    r.rule.user_id = Vec::new();
    r.rule.user_name = vec!["daemon".into(), "root".into(), "daemon".into()];
    let c = CompiledRule::from_rule("r", &r.rule, &users()).unwrap();
    assert_eq!(c.user_ids, vec![0, 1]);
}

#[test]
fn user_ids_and_user_names_must_both_fit() {
    let mut r = rule("r");
    r.rule.user_id = vec![1000];
    r.rule.user_name = vec!["root".into()];
    let p = Policy::from_config(&config_with(vec![r]), &users()).unwrap();
    assert!(p.first_match(&dump("x", 1000), &JournalContext::default()).is_none());
    assert!(p.first_match(&dump("x", 0), &JournalContext::default()).is_none());

    let mut r = rule("r");
    r.rule.user_id = vec![1000, 1];
    r.rule.user_name = vec!["root".into(), "daemon".into()];
    let p = Policy::from_config(&config_with(vec![r]), &users()).unwrap();
    assert!(p.first_match(&dump("x", 1), &JournalContext::default()).is_some());
    assert!(p.first_match(&dump("x", 0), &JournalContext::default()).is_none());
}

#[test]
fn a_bracket_may_belong_to_its_class() {
    assert_eq!(glob_min_match_length("[]x]"), 1);
    assert_eq!(glob_min_match_length("[!]x]y"), 2);
    assert_eq!(glob_min_match_length("[]"), 1);
    assert_eq!(glob_min_match_length("[!"), 1);
    assert_eq!(glob_min_match_length("["), 1);
    let mut r = rule("r");
    r.rule.process_name = vec!["[]abcdefghijklmno]".into()];
    let p = Policy::from_config(&config_with(vec![r]), &users()).unwrap();
    assert!(p.first_match(&dump("]", 0), &JournalContext::default()).is_some());
}

#[test]
fn literals_are_refused_by_their_bytes() {
    assert_eq!(glob_min_match_length("\u{e9}?*[\u{20ac}]\u{1f600}"), 4);
    assert_eq!(glob_min_match_bytes("\u{e9}?*[\u{20ac}]\u{1f600}"), 8);
    assert_eq!(glob_min_match_bytes("\\\u{20ac}"), 3);
    let mut r = rule("r");
    r.rule.process_name = vec!["\u{e9}".repeat(8)];
    let err = CompiledRule::from_rule("r", &r.rule, &users()).unwrap_err();
    assert!(matches!(err, PolicyError::ProcessNameTooLong { min_length: 8, .. }));
    r.rule.process_name = vec!["\u{e9}".repeat(7)];
    assert!(CompiledRule::from_rule("r", &r.rule, &users()).is_ok());
}

#[test]
fn users_are_asked_for_by_name() {
    let mut a = rule("a");
    a.rule.user_name = vec!["x".into(), "y".into()];
    let mut b = rule("b");
    b.rule.user_name = vec!["x".into()];
    assert_eq!(user_names(&config_with(vec![a, rule("n"), b])), vec!["x", "y", "x"]);
    assert_eq!(users().resolve_user_name("daemon"), Some(1));
    assert_eq!(users().resolve_user_name("DAEMON"), None);
}

#[test]
fn command_line_is_a_glob() {
    let mut r = rule("r");
    r.rule.command_line = vec!["*--worker*".into()];
    let p = Policy::from_config(&config_with(vec![r]), &users()).unwrap();
    let context = JournalContext {
        command_line: Some("/usr/bin/app --worker 3".into()),
        ..JournalContext::default()
    };
    assert_eq!(p.first_match_index(&dump("x", 0), &context), Some(0));
    assert_eq!(p.first_match_index(&dump("x", 0), &JournalContext::default()), None);
}

#[test]
fn grouping_by_the_journal_needs_it() {
    let mut r = rule("r");
    r.rule.group_by = vec!["signal".into()];
    let p = Policy::from_config(&config_with(vec![rule("plain"), r]), &users()).unwrap();
    assert!(p.needs_journal());
    let mut r = rule("r");
    r.rule.group_by = vec!["boot_id".into(), "user_id".into(), "process_name".into()];
    let p = Policy::from_config(&config_with(vec![r]), &users()).unwrap();
    assert!(!p.needs_journal());
}

#[test]
fn group_fields_take_their_part_of_a_dump() {
    let d = dump("app", 42);
    let context = JournalContext {
        executable_path: Some("/bin/app".into()),
        command_line: None,
        signal: Some("SIGBUS".into()),
    };
    let value = |name: &str| GroupField::parse(name).unwrap().extract(&d, &context);
    assert_eq!(value("process_name").as_deref(), Some("app"));
    assert_eq!(value("user_id").as_deref(), Some("42"));
    assert_eq!(value("executable_path").as_deref(), Some("/bin/app"));
    assert_eq!(value("command_line"), None);
    assert_eq!(value("signal").as_deref(), Some("SIGBUS"));
    assert_eq!(value("boot_id").unwrap().len(), 32);
    assert!(GroupField::parse("user_name").is_none());
}

#[test]
fn later_rules_do_not_matter() {
    let mut a = rule("a");
    a.rule.process_name = vec!["f*".into()];
    let shorter = Policy::from_config(&config_with(vec![a]), &users()).unwrap();
    let mut a = rule("a");
    a.rule.process_name = vec!["f*".into()];
    let longer = Policy::from_config(&config_with(vec![a, rule("z")]), &users()).unwrap();
    let none = JournalContext::default();
    assert_eq!(shorter.first_match_index(&dump("foo", 0), &none), Some(0));
    assert_eq!(longer.first_match_index(&dump("foo", 0), &none), Some(0));
    assert_eq!(longer.first_match_index(&dump("bar", 0), &none), Some(1));
}

#[test]
fn globs_match_whole_texts() {
    let p = GlobPattern::new("my?pp*").unwrap();
    assert!(p.matches("myapp"));
    assert!(p.matches("myapp-helper"));
    assert!(!p.matches("amyapp"));
    assert!(!p.matches("myp"));
    assert_eq!(p.as_str(), "my?pp*");
    let p = GlobPattern::new("[ab]x").unwrap();
    assert!(p.matches("bx"));
    assert!(!p.matches("cx"));
}

#[test]
fn bad_globs_say_where() {
    let e = GlobPattern::new("ab***").unwrap_err();
    assert_eq!(
        e.message(),
        "Pattern syntax error near position 4: wildcards are either regular `*` or recursive `**`"
    );
}

#[test]
fn long_patterns_with_recursive_wildcards_match_no_process_name() {
    let p = GlobPattern::new("a-name-longer-than-fifteen/**").unwrap();
    assert!(glob_min_match_bytes(p.as_str()) > 15);
    assert!(!p.matches("a-name-longer-t"));
    assert!(p.matches("a-name-longer-than-fifteen/x"));
}

#[test]
fn patterns_that_are_too_long_match_no_process_name() {
    let p = GlobPattern::new("gnome-shell-extension-*").unwrap();
    assert!(glob_min_match_length(p.as_str()) > 15);
    assert!(!p.matches("gnome-shell-ext"));
    assert!(p.matches("gnome-shell-extension-prefs"));
}

/// All texts over an alphabet, up to a length.
fn texts_over(alphabet: &[char], most: usize) -> Vec<String> {
    let mut all = vec![String::new()];
    let mut last = vec![String::new()];
    for _ in 0..most {
        last = last
            .iter()
            .flat_map(|s| alphabet.iter().map(move |c| format!("{}{}", s, c)))
            .collect();
        all.extend(last.iter().cloned());
    }
    all
}

fn wildcard(pattern: &[char], text: &[char]) -> bool {
    match pattern.first() {
        None => text.is_empty(),
        Some('*') => {
            wildcard(&pattern[1..], text) || (!text.is_empty() && wildcard(pattern, &text[1..]))
        }
        Some(c) => {
            !text.is_empty()
                && (*c == '?' || *c == text[0])
                && wildcard(&pattern[1..], &text[1..])
        }
    }
}

#[test]
fn plain_patterns_match_as_wildcards_do() {
    let chars = |s: &str| s.chars().collect::<Vec<char>>();
    let texts = texts_over(&['a', '/', '.'], 4);
    for pattern in texts_over(&['a', '/', '.', '*', '?', ']', '\\'], 4) {
        if pattern.contains("**") {
            continue;
        }
        let p = GlobPattern::new(&pattern).unwrap();
        for text in &texts {
            let expected = wildcard(&chars(&pattern), &chars(text));
            assert_eq!(p.matches(text), expected, "{:?} {:?}", pattern, text);
        }
    }
}

fn past_bracket(s: &[char]) -> &[char] {
    match s.iter().position(|c| *c == ']') {
        Some(i) => &s[i + 1..],
        None => &[],
    }
}

fn needed(pattern: &[char], width: &dyn Fn(char) -> usize) -> usize {
    match pattern {
        [] => 0,
        ['*', '*', '/', rest @ ..] => needed(rest, width),
        ['*', rest @ ..] => needed(rest, width),
        ['[', '!', _, rest @ ..] => 1 + needed(past_bracket(rest), width),
        ['[', '!'] | ['['] => 1,
        ['[', _, rest @ ..] => 1 + needed(past_bracket(rest), width),
        [c, rest @ ..] => width(*c) + needed(rest, width),
    }
}

#[test]
fn matching_texts_have_the_needed_characters() {
    let texts = texts_over(&['\u{e9}', '/', '!'], 3);
    for pattern in texts_over(&['\u{e9}', '/', '*', '[', ']', '!', '-'], 5) {
        if let Ok(p) = GlobPattern::new(&pattern) {
            let chars = pattern.chars().collect::<Vec<char>>();
            let least_chars = needed(&chars, &|_| 1);
            let least_bytes = needed(&chars, &|c| c.len_utf8());
            for text in &texts {
                if p.matches(text) {
                    assert!(text.chars().count() >= least_chars, "{:?} {:?}", pattern, text);
                    assert!(text.len() >= least_bytes, "{:?} {:?}", pattern, text);
                }
            }
        }
    }
}
