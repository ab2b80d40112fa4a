use cdgcd::config::{Config, ConfigError};
use cdgcd::daemon::{
    first_step, next_step, refuse_to_run, reload_failure, Event, Reading, Reloaded, Settings, Step,
    Wait,
};
use cdgcd::duration::TimeSpan;
use cdgcd::journal::{lookup_arguments, read_reply, JournalField, Reply};
use cdgcd::policy::{Policy, Users};
use cdgcd::sd;

fn settings(text: &str) -> Settings {
    let config = Config::parse(text).unwrap();
    let policy = Policy::from_config(&config, &Users { entries: Vec::new() }).unwrap();
    Settings { config, policy }
}

fn after(step: Step, events: &[Event]) -> Step {
    events.iter().fold(step, |s, e| next_step(s, *e))
}

#[test]
fn the_daemon_scans_first() {
    assert_eq!(first_step(), Step::Scan);
    assert_eq!(next_step(Step::Scan, Event::Done), Step::LookAtSignals);
}

fn signals(terminate: bool, reload: bool, scan: bool) -> Event {
    Event::Signals { terminate, reload, scan }
}

#[test]
fn termination_comes_before_everything() {
    assert_eq!(next_step(Step::LookAtSignals, signals(true, true, true)), Step::Stop);
}

#[test]
fn a_reload_comes_before_the_wait() {
    let step = next_step(Step::LookAtSignals, signals(false, true, false));
    assert_eq!(step, Step::Reload { scan: false });
    assert_eq!(next_step(step, Event::Done), Step::Poll);
    assert_eq!(next_step(Step::LookAtSignals, signals(false, false, false)), Step::Poll);
}

#[test]
fn a_request_that_interrupts_a_wait_is_met_at_once() {
    let events = [Event::Interrupted, signals(false, false, true)];
    assert_eq!(after(Step::Poll, &events), Step::Scan);
    let events = [Event::Interrupted, signals(false, true, true), Event::Done];
    assert_eq!(after(Step::Poll, &events), Step::Scan);
}

#[test]
fn interrupted_waits_are_taken_up_again() {
    let events = [Event::Interrupted, signals(false, false, false)];
    assert_eq!(after(Step::Poll, &events), Step::Poll);
    assert_eq!(next_step(Step::Poll, Event::WaitFailed), Step::Fail);
}

#[test]
fn scans_come_of_time_events_and_requests() {
    let timed_out = [Event::Waited(Wait::TimedOut), Event::Done, Event::ScanRequested(false)];
    assert_eq!(after(Step::Poll, &timed_out), Step::Scan);
    let other = [Event::Waited(Wait::Other), Event::Done, Event::ScanRequested(false)];
    assert_eq!(after(Step::Poll, &other), Step::LookAtSignals);
    for (reading, requested, scans) in [
        (Reading::Events(2), false, true),
        (Reading::Events(0), false, false),
        (Reading::WouldBlock, false, false),
        (Reading::Failed, false, false),
        (Reading::Failed, true, true),
    ] {
        let events = [
            Event::Waited(Wait::Readable),
            Event::Done,
            Event::Read(reading),
            Event::ScanRequested(requested),
        ];
        let expected = if scans { Step::Scan } else { Step::LookAtSignals };
        assert_eq!(after(Step::Poll, &events), expected);
    }
}

#[test]
fn the_watchdog_is_told_after_each_wait() {
    for wait in [Wait::TimedOut, Wait::Readable, Wait::Other] {
        assert_eq!(next_step(Step::Poll, Event::Waited(wait)), Step::PingWatchdog(wait));
    }
}

#[test]
fn a_new_configuration_takes_the_place_of_the_old() {
    let mut current = settings("coredump_directory = \"/a\"");
    let fresh = Config::parse("coredump_directory = \"/a\"\n[rules.x]\nsignal = [\"SIGBUS\"]");
    let reloaded = current.reload(fresh.unwrap(), &Users { entries: Vec::new() });
    assert!(matches!(reloaded, Reloaded::Adopted(None)));
    assert_eq!(current.policy.rules.len(), 1);
    assert_eq!(current.config.rules[0].name, "x");
}

#[test]
fn another_directory_is_warned_of() {
    let mut current = settings("coredump_directory = \"/a\"");
    let fresh = Config::parse("coredump_directory = \"/b\"").unwrap();
    match current.reload(fresh, &Users { entries: Vec::new() }) {
        Reloaded::Adopted(Some(text)) => assert_eq!(
            text,
            "coredump_directory change requires restart: still watching /a"
        ),
        other => panic!("{:?}", other),
    }
    assert_eq!(current.config.coredump_directory, "/b");
}

#[test]
fn the_same_directory_may_be_written_in_other_ways() {
    for (old, new, same) in [("/a", "/a/", true), ("/a/./b", "//a/b", true), ("./a", "a", false)] {
        let mut current = settings(&format!("coredump_directory = {:?}", old));
        let fresh = Config::parse(&format!("coredump_directory = {:?}", new)).unwrap();
        match current.reload(fresh, &Users { entries: Vec::new() }) {
            Reloaded::Adopted(warning) => assert_eq!(warning.is_none(), same),
            other => panic!("{:?}", other),
        }
    }
}

#[test]
fn events_out_of_place_end_the_daemon() {
    assert_eq!(next_step(Step::Poll, Event::Done), Step::Fail);
    assert_eq!(next_step(Step::Stop, Event::Done), Step::Stop);
}

#[test]
fn a_bad_configuration_changes_nothing() {
    let mut current = settings("[rules.x]");
    let fresh = Config::parse("[rules.y]\nuser_name = [\"nobody-here\"]").unwrap();
    match current.reload(fresh, &Users { entries: Vec::new() }) {
        Reloaded::Refused(text) => {
            assert_eq!(text, "reload: invalid pattern: unknown user: nobody-here")
        }
        other => panic!("{:?}", other),
    }
    assert_eq!(current.config.rules[0].name, "x");
    assert_eq!(current.policy.rules[0].name, "x");

    let unread = ConfigError::Io("c.toml".to_string(), "gone".to_string());
    assert_eq!(reload_failure(&unread), "reload failed: read c.toml: gone");
}

#[test]
fn without_rules_the_daemon_does_not_run() {
    let refusal = refuse_to_run(&Config::parse("").unwrap(), "/etc/cdgcd.toml").unwrap();
    assert_eq!(
        refusal.warning,
        "no rules in /etc/cdgcd.toml; daemon would delete every dump"
    );
    assert_eq!(
        refusal.error,
        "refusing to run with no rules; define at least one [rules.<name>] section"
    );
    let config = Config::parse("[rules.DEFAULT]\nkeep_count = 1").unwrap();
    assert!(refuse_to_run(&config, "/etc/cdgcd.toml").is_none());
}

#[test]
fn waits_are_capped() {
    assert_eq!(TimeSpan::from_secs(300).poll_timeout(), 300_000);
    assert_eq!(TimeSpan { nanos: 1_999_999 }.poll_timeout(), 1);
    assert_eq!(TimeSpan::from_secs(u64::MAX).poll_timeout(), i32::MAX);
    assert_eq!(TimeSpan { nanos: 2_147_483_647_999_999 }.poll_timeout(), i32::MAX);
    assert_eq!(TimeSpan { nanos: 2_147_483_646_000_000 }.poll_timeout(), i32::MAX - 1);
}

#[test]
fn messages_to_the_service_manager() {
    assert_eq!(sd::ready(), "READY=1\nSTATUS=watching for coredumps\n");
    assert_eq!(sd::watchdog(), "WATCHDOG=1\n");
    assert_eq!(sd::stopping(), "STOPPING=1\n");
    assert_eq!(sd::status("config reloaded"), "STATUS=config reloaded\n");
}

#[test]
fn the_journal_is_asked_for_one_field() {
    assert_eq!(
        lookup_arguments(JournalField::ExecutablePath, "/d/core.x"),
        vec![
            "--quiet",
            "--no-pager",
            "--lines=1",
            "--output=cat",
            "--output-fields=COREDUMP_EXE",
            "COREDUMP_FILENAME=/d/core.x",
        ]
    );
    let fields = |f: JournalField| lookup_arguments(f, "x")[4].clone();
    assert_eq!(fields(JournalField::CommandLine), "--output-fields=COREDUMP_CMDLINE");
    assert_eq!(fields(JournalField::Signal), "--output-fields=COREDUMP_SIGNAL_NAME");
}

#[test]
fn answers_of_the_journal() {
    let answer = |success: bool, stdout: &[u8]| {
        read_reply(Some(Reply { success, stdout: stdout.to_vec() }))
    };
    assert_eq!(answer(true, b" /usr/bin/app\n").as_deref(), Some("/usr/bin/app"));
    assert_eq!(answer(true, "\u{2003}a b\u{85}".as_bytes()).as_deref(), Some("a b"));
    assert_eq!(answer(true, b" \n\t"), None);
    assert_eq!(answer(true, b"\xff"), None);
    assert_eq!(answer(false, b"/usr/bin/app"), None);
    assert_eq!(read_reply(None), None);
}
