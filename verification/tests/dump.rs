use cdgcd::dump::{unescape_comm, CoredumpFile, ParseError};

const BOOT: &str = "0123456789abcdef0123456789abcdef";

#[test]
fn parses_uncompressed() {
    let dump = CoredumpFile::from_name(
        "core.myapp.1000.abcdef0123456789abcdef0123456789.4242.1700000000123456",
    )
    .unwrap();
    assert_eq!(dump.comm, "myapp");
    assert_eq!(dump.uid, 1000);
    assert_eq!(dump.boot_id, "abcdef0123456789abcdef0123456789");
    assert_eq!(dump.pid, 4242);
    assert_eq!(dump.timestamp_micros, 1700000000123456);
    assert_eq!(dump.extension, None);
}

#[test]
fn parses_compressed() {
    let dump = CoredumpFile::from_name(
        "core.worker.0.0123456789abcdef0123456789abcdef.7.42.zst",
    )
    .unwrap();
    assert_eq!(dump.comm, "worker");
    assert_eq!(dump.extension.as_deref(), Some("zst"));
}

#[test]
fn unescapes_comm() {
    let dump = CoredumpFile::from_name(
        "core.my\\x2eapp.0.0123456789abcdef0123456789abcdef.1.1.zst",
    )
    .unwrap();
    assert_eq!(dump.comm, "my.app");
}

#[test]
fn rejects_non_coredump() {
    assert_eq!(
        CoredumpFile::from_name("README.md"),
        Err(ParseError::NotACoredump)
    );
    assert_eq!(
        CoredumpFile::from_name("not-a-core-file"),
        Err(ParseError::NotACoredump)
    );
}

#[test]
fn rejects_bad_boot_id() {
    assert!(matches!(
        CoredumpFile::from_name("core.foo.0.short.1.1"),
        Err(ParseError::NotACoredump | ParseError::BadField(_))
    ));
    assert!(matches!(
        CoredumpFile::from_name("core.foo.0.zzzzzzzzzzzzzzzzzzzzzzzzzzzzzzzz.1.1"),
        Err(ParseError::BadField("boot_id"))
    ));
}

#[test]
fn rejects_bad_uid() {
    assert!(matches!(
        CoredumpFile::from_name("core.foo.notnum.0123456789abcdef0123456789abcdef.1.1"),
        Err(ParseError::BadField("uid"))
    ));
}

#[test]
fn names_the_first_bad_field() {
    let cases = vec![
        (format!("core..0.{}.1.1", BOOT), "comm"),
        (format!("core.a.4294967296.{}.1.1", BOOT), "uid"),
        (format!("core.a.-1.{}.1.1", BOOT), "uid"),
        (format!("core.a.0.{}.x.y", BOOT), "pid"),
        (format!("core.a.0.{}.1.18446744073709551616", BOOT), "timestamp"),
        (format!("core.a.0.{}.1.", BOOT), "timestamp"),
    ];
    for (name, field) in cases {
        assert_eq!(CoredumpFile::from_name(&name), Err(ParseError::BadField(field)));
    }
}

#[test]
fn wants_six_or_seven_parts_after_core() {
    let name = format!("core.a.0.{}.1.1.zst.tmp", BOOT);
    assert_eq!(CoredumpFile::from_name(&name), Err(ParseError::NotACoredump));
    let name = format!("score.a.0.{}.1.1", BOOT);
    assert_eq!(CoredumpFile::from_name(&name), Err(ParseError::NotACoredump));
}

#[test]
fn a_written_name_reads_back() {
    for extension in [None, Some("lz4".to_string())] {
        let tail = match &extension {
            Some(e) => format!(".{}", e),
            None => String::new(),
        };
        let name = format!("core.x.{}.{}.{}.{}{}", u32::MAX, BOOT, 9, u64::MAX, tail);
        let dump = CoredumpFile::from_name(&name).unwrap();
        assert_eq!(dump.path, name.as_bytes());
        assert_eq!(dump.comm, "x");
        assert_eq!(dump.uid, u32::MAX);
        assert_eq!(dump.boot_id, BOOT);
        assert_eq!(dump.pid, 9);
        assert_eq!(dump.timestamp_micros, u64::MAX);
        assert_eq!(dump.extension, extension);
    }
}

#[test]
fn leading_plus_and_zeros_are_read() {
    let dump = CoredumpFile::from_name(&format!("core.x.+7.{}.007.0", BOOT)).unwrap();
    assert_eq!(dump.uid, 7);
    assert_eq!(dump.pid, 7);
}

#[test]
fn only_whole_escapes_are_replaced() {
    assert_eq!(unescape_comm("a\\x2Fb"), "a/b");
    assert_eq!(unescape_comm("a\\x2"), "a\\x2");
    assert_eq!(unescape_comm("a\\xzzb"), "a\\xzzb");
    assert_eq!(unescape_comm("\\\\x41"), "\\A");
    assert_eq!(unescape_comm("\\xe9"), "\u{e9}");
    assert_eq!(unescape_comm("\u{e9}"), "\u{c3}\u{a9}");
    assert_eq!(unescape_comm(""), "");
}

#[test]
fn a_path_is_read_by_its_last_component() {
    let path = format!("/var/lib/core/core.x.1.{}.2.3/", BOOT);
    let dump = CoredumpFile::from_path(path.as_bytes()).unwrap();
    assert_eq!(dump.path, path.as_bytes());
    assert_eq!(dump.uid, 1);
    assert_eq!(CoredumpFile::from_path(b"/"), Err(ParseError::NotACoredump));
    assert_eq!(CoredumpFile::from_path(b"/a/.."), Err(ParseError::NotACoredump));
    assert_eq!(CoredumpFile::from_path(b"/a/\xff"), Err(ParseError::NotACoredump));
}
