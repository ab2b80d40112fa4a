use cdgcd::ctl::{find_most_recent, pin_outcome, reply, resolve_dump_path, Outcome};

const BOOT: &str = "0123456789abcdef0123456789abcdef";

fn path(comm: &str, timestamp: u64, tail: &str) -> Vec<u8> {
    format!("/dumps/core.{}.0.{}.1.{}{}", comm, BOOT, timestamp, tail).into_bytes()
}

#[test]
fn the_most_recent_dump_is_found() {
    let paths = vec![
        path("a", 5, ".zst"),
        b"/dumps/README.md".to_vec(),
        path("b", 9, ""),
        path("c", 9, ""),
        path("d", 7, ""),
    ];
    assert_eq!(find_most_recent(&paths), Some(path("b", 9, "")));
}

#[test]
fn markers_are_no_dumps() {
    let paths = vec![path("a", 9, ".cdgc-retain"), path("a", 9, "")];
    assert_eq!(find_most_recent(&paths), Some(path("a", 9, "")));
    assert_eq!(find_most_recent(&vec![path("a", 9, ".cdgc-retain")]), None);
    assert_eq!(find_most_recent(&Vec::new()), None);
}

#[test]
fn arguments_mean_paths() {
    let cwd = || Some(b"/home/me".to_vec());
    let meant = |arg: &str| resolve_dump_path(arg, "/dumps", cwd());
    assert_eq!(meant("/x/core.a"), b"/x/core.a");
    assert_eq!(meant("core.a"), b"/dumps/core.a");
    assert_eq!(meant("./core.a"), b"/home/me/./core.a");
    assert_eq!(meant("sub/core.a"), b"/home/me/sub/core.a");
    assert_eq!(meant("../core.a"), b"/home/me/../core.a");
    assert_eq!(meant("core.a/"), b"/dumps/core.a/");
    assert_eq!(meant(""), b"/dumps/");
    assert_eq!(resolve_dump_path("sub/core.a", "/dumps", None), b"sub/core.a");
    assert_eq!(resolve_dump_path("core.a", "/dumps/", None), b"/dumps/core.a");
}

#[test]
fn outcomes_of_an_attempt() {
    let outcome = |present: bool, opened: Result<(), (bool, String)>| {
        pin_outcome("/d/x".to_string(), "x".to_string(), "/d/m".to_string(), present, opened)
    };
    assert!(matches!(outcome(false, Ok(())), Outcome::Missing { dump } if dump == "/d/x"));
    assert!(matches!(outcome(true, Ok(())), Outcome::Retained { dump } if dump == "/d/x"));
    assert!(matches!(
        outcome(true, Err((true, "denied".to_string()))),
        Outcome::PermissionDenied { dump_name, marker } if dump_name == "x" && marker == "/d/m"
    ));
    assert!(matches!(
        outcome(true, Err((false, "full".to_string()))),
        Outcome::Unmarked { marker, problem } if marker == "/d/m" && problem == "full"
    ));
}

#[test]
fn replies_to_each_outcome() {
    let s = |text: &str| text.to_string();
    let r = reply(&Outcome::Retained { dump: s("/d/x") });
    assert_eq!((r.output, r.errors, r.code), (vec![s("retained /d/x")], vec![], 0));
    let r = reply(&Outcome::Missing { dump: s("/d/x") });
    assert_eq!((r.output, r.errors, r.code), (vec![], vec![s("/d/x does not exist")], 1));
    let r = reply(&Outcome::NoDumps { directory: s("/d") });
    assert_eq!((r.errors, r.code), (vec![s("no coredumps found in /d")], 1));
    let r = reply(&Outcome::Unlisted { directory: s("/d"), problem: s("gone") });
    assert_eq!((r.errors, r.code), (vec![s("read /d: gone")], 1));
    let r = reply(&Outcome::Unmarked { marker: s("/d/m"), problem: s("full") });
    assert_eq!((r.errors, r.code), (vec![s("create /d/m: full")], 1));
    let r = reply(&Outcome::Unconfigured { problem: s("read c: gone") });
    assert_eq!((r.errors, r.code), (vec![s("config error: read c: gone")], 2));
    let r = reply(&Outcome::PermissionDenied { dump_name: s("x"), marker: s("/d/x.cdgc-retain") });
    assert_eq!(r.code, 1);
    assert_eq!(
        r.errors,
        vec![
            "permission denied creating /d/x.cdgc-retain; try one of:",
            "    sudo cdgcctl retain x",
            "    sudo touch /d/x.cdgc-retain",
        ]
    );
}
