use cdgcd::config::{Config, ConfigError, Rule};
use cdgcd::document::Node;
use cdgcd::duration::TimeSpan;

fn text(s: &str) -> Node {
    Node::Text(s.to_string())
}

fn table(entries: Vec<(&str, Node)>) -> Node {
    Node::Table(entries.into_iter().map(|(k, v)| (k.to_string(), v)).collect())
}

#[test]
fn parses_full_config() {
    let cfg = Config::parse(
        r#"
coredump_directory = "/tmp/dumps"
idle_interval = "1m"
minimum_age = "10s"
dry_run = true

[rules.myapp]
process_name = ["myapp"]
keep_count = 10
"#,
    )
    .unwrap();
    assert_eq!(cfg.coredump_directory, "/tmp/dumps");
    assert_eq!(cfg.idle_interval, TimeSpan::from_secs(60));
    assert_eq!(cfg.minimum_age, TimeSpan::from_secs(10));
    assert!(cfg.dry_run);
    assert_eq!(cfg.rules.len(), 1);
    assert_eq!(cfg.rules[0].name, "myapp");
    assert_eq!(cfg.rules[0].rule.process_name, vec!["myapp".to_string()]);
    assert_eq!(cfg.rules[0].rule.keep_count, Some(10));
}

#[test]
fn applies_defaults_when_empty() {
    let cfg = Config::parse("").unwrap();
    assert_eq!(cfg.coredump_directory, "/var/lib/systemd/coredump");
    assert_eq!(cfg.idle_interval, TimeSpan::from_secs(300));
    assert_eq!(cfg.minimum_age, TimeSpan::from_secs(30));
    assert!(!cfg.dry_run);
    assert!(cfg.rules.is_empty());
}

#[test]
fn rules_preserve_source_order() {
    let cfg = Config::parse(
        r#"
[rules.zebra]
process_name = ["z"]

[rules.alpha]
process_name = ["a"]

[rules.middle]
process_name = ["m"]
"#,
    )
    .unwrap();
    let names: Vec<&str> = cfg.rules.iter().map(|r| r.name.as_str()).collect();
    assert_eq!(names, vec!["zebra", "alpha", "middle"]);
}

#[test]
fn merges_default_into_each_rule() {
    let cfg = Config::parse(
        r#"
[rules.DEFAULT]
user_id = [1000]
keep_count = 5

[rules.myapp]
process_name = ["myapp"]

[rules.override]
process_name = ["other"]
user_id = [42]
keep_count = 1
"#,
    )
    .unwrap();
    let myapp = cfg.rules.iter().find(|r| r.name == "myapp").unwrap();
    assert_eq!(myapp.rule.user_id, vec![1000]);
    assert_eq!(myapp.rule.keep_count, Some(5));

    let over = cfg.rules.iter().find(|r| r.name == "override").unwrap();
    assert_eq!(over.rule.user_id, vec![42]);
    assert_eq!(over.rule.keep_count, Some(1));
}

#[test]
fn rejects_unknown_top_level() {
    assert!(Config::parse("nonsense_field = 1").is_err());
}

#[test]
fn rejects_unknown_rule_field() {
    assert!(Config::parse("[rules.foo]\nbogus = 1").is_err());
}

#[test]
fn group_by_field_must_be_known() {
    let err = Config::parse("[rules.foo]\ngroup_by = [\"bogus\"]\n").unwrap_err();
    assert!(err.contains("group_by"));
}

#[test]
fn group_by_inherits_from_default() {
    let cfg = Config::parse(
        r#"
[rules.DEFAULT]
group_by = ["process_name"]
keep_count = 3

[rules.foo]
process_name = ["foo"]
"#,
    )
    .unwrap();
    assert_eq!(cfg.rules[0].rule.group_by, vec!["process_name".to_string()]);
    assert_eq!(cfg.rules[0].rule.keep_count, Some(3));
}

#[test]
fn default_section_is_appended_as_a_catch_all_rule() {
    let cfg = Config::parse(
        r#"
[rules.DEFAULT]
keep_count = 5
"#,
    )
    .unwrap();
    assert_eq!(cfg.rules.len(), 1);
    assert_eq!(cfg.rules[0].name, "DEFAULT");
    assert_eq!(cfg.rules[0].rule.keep_count, Some(5));
}

#[test]
fn default_appended_after_named_rules() {
    let cfg = Config::parse(
        r#"
[rules.DEFAULT]
keep_count = 5

[rules.specific]
process_name = ["foo"]
"#,
    )
    .unwrap();
    assert_eq!(cfg.rules.len(), 2);
    assert_eq!(cfg.rules[0].name, "specific");
    assert_eq!(cfg.rules[1].name, "DEFAULT");
}

#[test]
fn no_default_section_means_no_catch_all() {
    let cfg = Config::parse(
        r#"
[rules.foo]
process_name = ["foo"]
"#,
    )
    .unwrap();
    assert_eq!(cfg.rules.len(), 1);
    assert_eq!(cfg.rules[0].name, "foo");
}

#[test]
fn parses_keep_count_from_default_only() {
    let cfg = Config::parse(
        r#"
[rules.DEFAULT]
keep_count = 3

[rules.foo]
process_name = ["foo"]
"#,
    )
    .unwrap();
    assert_eq!(cfg.rules[0].rule.keep_count, Some(3));
}

#[test]
fn error_messages_name_the_field() {
    let cases = vec![
        ("nonsense_field = 1", "unknown top-level field: nonsense_field"),
        ("coredump_directory = 1", "coredump_directory must be a string"),
        ("dry_run = \"yes\"", "dry_run must be a boolean"),
        ("idle_interval = 5", "idle_interval must be a string"),
        ("rules = 1", "rules must be a table"),
        ("[rules]\nDEFAULT = 1", "rules.DEFAULT must be a table"),
        ("[rules]\nfoo = 1", "rules.foo must be a table"),
        ("[rules.foo]\nbogus = 1", "rules.foo: unknown rule field: bogus"),
        ("[rules.DEFAULT]\nbogus = 1", "rules.DEFAULT: unknown rule field: bogus"),
        ("[rules.foo]\nkeep_count = \"3\"", "rules.foo: keep_count must be an integer"),
        ("[rules.foo]\nkeep_count = -1", "rules.foo: keep_count out of range"),
        ("[rules.foo]\nkeep_count = 4294967296", "rules.foo: keep_count out of range"),
        ("[rules.foo]\nsignal = \"SIGSEGV\"", "rules.foo: signal must be an array"),
        ("[rules.foo]\nsignal = [1]", "rules.foo: signal: items must be strings"),
        ("[rules.foo]\nuser_id = 1", "rules.foo: user_id must be an array"),
        ("[rules.foo]\nuser_id = [\"a\"]", "rules.foo: user_id: items must be integers"),
        ("[rules.foo]\nuser_id = [-7]", "rules.foo: user_id: -7 out of range"),
        (
            "[rules.foo]\ngroup_by = [\"bo\\\"gus\"]",
            "rules.foo: group_by: unknown field \"bo\\\"gus\" (allowed: process_name, \
             executable_path, command_line, signal, user_id, boot_id)",
        ),
    ];
    for (source, message) in cases {
        assert_eq!(Config::parse(source).unwrap_err(), message, "{}", source);
    }
}

#[test]
fn bad_syntax_is_reported_by_the_toml_parser() {
    assert!(Config::parse("dry_run = ").unwrap_err().contains("TOML parse error"));
}

#[test]
fn bad_duration_is_reported_with_its_field() {
    let message = Config::parse("minimum_age = \"soon\"").unwrap_err();
    assert!(message.starts_with("minimum_age: "));
}

#[test]
fn duration_fractions_add_up() {
    let cfg = Config::parse("idle_interval = \"1m 30s 5ms\"").unwrap();
    assert_eq!(cfg.idle_interval.nanos, 90_005_000_000);
}

#[test]
fn only_durations_that_overflow_are_left_out() {
    let overflowing = "idle_interval = \"18446744073709551615s 1000ms\"";
    assert!(Config::parse_readable(overflowing).is_none());
    assert!(Config::load("x.toml", Ok(overflowing.to_string())).is_none());
    let cfg = Config::parse_readable("idle_interval = \"1s 600000000000ns\"").unwrap().unwrap();
    assert_eq!(cfg.idle_interval, TimeSpan::from_secs(601));
    let huge = "idle_interval = \"584542046090years 584542046090years\"";
    assert!(Config::parse_readable(huge).unwrap().is_err());
    assert!(Config::parse_readable("nonsense_field = 1").unwrap().is_err());
}

#[test]
fn a_document_is_read_without_its_text() {
    let document = table(vec![
        ("dry_run", Node::Boolean(true)),
        (
            "rules",
            table(vec![(
                "foo",
                table(vec![
                    ("process_name", Node::Array(vec![text("foo")])),
                    ("user_id", Node::Array(vec![Node::Integer(7)])),
                ]),
            )]),
        ),
    ]);
    assert!(Config::is_readable(&document));
    let cfg = Config::from_document(&document).unwrap();
    assert!(cfg.dry_run);
    assert_eq!(cfg.rules[0].rule.user_id, vec![7]);
    assert_eq!(
        Config::from_document(&Node::Integer(1)).unwrap_err(),
        "top level must be a table"
    );
}

#[test]
fn each_section_is_one_rule() {
    assert!(Config::parse("[rules.a]\n[rules.a]\n").is_err());
    let cfg = Config::parse("[rules.DEFAULT]\n[rules.b]\n[rules.a]\n").unwrap();
    let names: Vec<&str> = cfg.rules.iter().map(|r| r.name.as_str()).collect();
    assert_eq!(names, vec!["b", "a", "DEFAULT"]);
}

#[test]
fn load_says_what_failed() {
    let unread = Config::load("/etc/cdgcd.toml", Err("no such file".to_string())).unwrap();
    let error = unread.unwrap_err();
    assert!(matches!(error, ConfigError::Io(_, _)));
    assert_eq!(error.message(), "read /etc/cdgcd.toml: no such file");

    let unparsed = Config::load("x.toml", Ok("nonsense_field = 1".to_string())).unwrap();
    let error = unparsed.unwrap_err();
    assert!(matches!(error, ConfigError::Parse(_, _)));
    assert_eq!(error.message(), "parse x.toml: unknown top-level field: nonsense_field");

    assert!(Config::load("x.toml", Ok(String::new())).unwrap().is_ok());
}

#[test]
fn merging_keeps_what_a_rule_says_itself() {
    let mut own = Rule::default();
    own.process_name = vec!["a".to_string()];
    let mut default = Rule::default();
    default.process_name = vec!["b".to_string()];
    default.signal = vec!["SIGABRT".to_string()];
    default.keep_count = Some(2);
    let merged = own.merge_default(&default);
    assert_eq!(merged.process_name, vec!["a".to_string()]);
    assert_eq!(merged.signal, vec!["SIGABRT".to_string()]);
    assert_eq!(merged.keep_count, Some(2));
    assert!(!merged.is_empty());
    assert!(merged.needs_journal());
    assert!(Rule::default().is_empty());
    assert!(!Rule::default().needs_journal());
}

#[test]
fn a_limit_alone_leaves_a_rule_unconstrained() {
    let mut rule = Rule::default();
    rule.keep_count = Some(1);
    rule.group_by = vec!["signal".to_string()];
    assert!(rule.is_empty());
}
