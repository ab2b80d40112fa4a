use cdgcd::retain::{dump_name_for_marker, marker_path};

#[test]
fn marker_path_appends_suffix() {
    let p = marker_path(b"/var/lib/coredump/core.foo.0.boot.1.123.zst");
    assert_eq!(
        std::str::from_utf8(&p).unwrap(),
        "/var/lib/coredump/core.foo.0.boot.1.123.zst.cdgc-retain"
    );
}

#[test]
fn dump_name_for_marker_strips_suffix() {
    let dump = dump_name_for_marker(b"core.foo.zst.cdgc-retain");
    assert_eq!(dump.as_deref(), Some("core.foo.zst"));
}

#[test]
fn non_marker_returns_none() {
    assert_eq!(dump_name_for_marker(b"core.foo.zst"), None);
}

#[test]
fn bare_suffix_pins_the_empty_name() {
    assert_eq!(dump_name_for_marker(b".cdgc-retain").as_deref(), Some(""));
    assert_eq!(dump_name_for_marker(b"cdgc-retain"), None);
}

#[test]
fn names_that_are_not_text_are_no_markers() {
    assert_eq!(dump_name_for_marker(b"\xff.cdgc-retain"), None);
}

#[test]
fn a_marker_leads_back_to_its_dump() {
    let marker = marker_path("caf\u{e9}".as_bytes());
    assert_eq!(dump_name_for_marker(&marker).as_deref(), Some("caf\u{e9}"));
}
