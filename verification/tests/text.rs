use cdgcd::duration::readable_span;
use cdgcd::path::{file_name, has_directory, join_path, paths_eq};
use cdgcd::text::{decimal_of, decimal_of_int, parse_number, parse_number_32, split_on, trim};

#[test]
fn numbers_read_back() {
    for n in [0, 7, 10, 4294967296, u64::MAX] {
        assert_eq!(decimal_of(n), n.to_string());
        assert_eq!(parse_number(&decimal_of(n)), Some(n));
    }
    for n in [i64::MIN, -1, 0, i64::MAX] {
        assert_eq!(decimal_of_int(n), n.to_string());
    }
    for s in ["", "+", "-1", "1_0", " 1", "18446744073709551616", "\u{661}"] {
        assert_eq!(parse_number(s), s.parse::<u64>().ok(), "{:?}", s);
    }
    assert_eq!(parse_number("+007"), Some(7));
    assert_eq!(parse_number_32("4294967295"), Some(u32::MAX));
    assert_eq!(parse_number_32("4294967296"), None);
}

#[test]
fn texts_split_at_each_separator() {
    for s in ["", ".", "a.b", "..a", "caf\u{e9}.\u{1f600}."] {
        let parts: Vec<String> = s.split('.').map(|p| p.to_string()).collect();
        assert_eq!(split_on(s, '.'), parts);
        assert_eq!(split_on(s, '.').join("."), s);
    }
}

#[test]
fn white_space_is_trimmed() {
    for s in ["", " ", " a ", "\u{a0}a\u{3000}", "\u{1680}\u{2028}x y\u{205f}", "\u{200b}a\u{1c}"] {
        assert_eq!(trim(s), s.trim());
    }
}

#[test]
fn paths_have_last_components() {
    for s in ["", "/", "a", "a/", "a/.", "a/..", "./", "/a//b/./", "..", ".a", "a/.b"] {
        let expected = std::path::Path::new(s).file_name().map(|n| n.to_str().unwrap());
        let found = file_name(s.as_bytes()).map(|n| String::from_utf8(n).unwrap());
        assert_eq!(found.as_deref(), expected, "{:?}", s);
    }
}

#[test]
fn relative_paths_may_name_a_directory() {
    for s in ["", "a", "a/", "./a", "a/b", "./", ".", "..", "../a", ".//a", "a/./b", "a/."] {
        let path = std::path::Path::new(s);
        let expected = path.parent().is_some_and(|p| !p.as_os_str().is_empty());
        assert_eq!(has_directory(s.as_bytes()), expected, "{:?}", s);
    }
}

#[test]
fn paths_are_joined() {
    for (a, b) in [("/d", "x"), ("/d/", "x"), ("", "x"), ("/d", "/x"), ("/d", ""), ("/d", "./x")] {
        let expected = std::path::Path::new(a).join(b);
        assert_eq!(
            join_path(a.as_bytes(), b.as_bytes()),
            expected.to_str().unwrap().as_bytes()
        );
    }
}

#[test]
fn paths_are_the_same_component_by_component() {
    let paths = ["", "/", "a", "/a", "/a/", "//a", "/a/.", "/./a", "./a", "a/..", "a/../a", "."];
    for a in paths {
        for b in paths {
            let expected = std::path::Path::new(a) == std::path::Path::new(b);
            assert_eq!(paths_eq(a.as_bytes(), b.as_bytes()), expected, "{:?} {:?}", a, b);
        }
    }
}

#[test]
fn durations_are_readable_unless_they_fill_up_the_last_second() {
    for s in [
        "",
        "5m",
        "1h 30m",
        "1.5h",
        "soon",
        "1s 600000000000ns",
        "99999999999999999999years",
        "18446744073709551615s",
        "18446744073709551615s 1s",
        "18446744073709551615s 999ms",
        "18446744073709551615s 1001ms",
        "18446744073709551614s 1000ms",
        "18446744073709551615.5s",
        "18446744073709551615s 1s 0ns",
        "18446744073709551614s 2000ms",
        "18446744073709551615s 1.0000000001s",
        "18446744073709551615s m 1000ms",
        "18446744073709551615s 1.s 1000ms",
        "584542046090years 584542046090years",
    ] {
        assert!(readable_span(s), "{:?}", s);
        // What is readable is read or refused, without a panic.
        let _ = humantime::parse_duration(s);
    }
    for s in [
        "18446744073709551615s 1000ms",
        "1 8446744073709551615 s500ms 500ms",
        "18446744073709551614s 1.5s 500ms",
        "18446744073709551615.75s 0.25s",
        "307445734561825860m 15s 1000.000ms",
        "18446744073709551615s1000000\u{b5}s trailing",
    ] {
        assert!(!readable_span(s), "{:?}", s);
    }
}

#[test]
fn readable_durations_do_not_overflow() {
    let amounts = [
        "",
        "18446744073709551615s",
        "18446744073709551614s",
        "307445734561825860m 15s",
        "307445734561825860.25min",
        "1s",
        "0.5s",
        "500ms",
        "1000ms",
        "1500 ms",
        "999999999ns",
        "1ns",
        "1000000us",
        "0.000001m",
        "584542046090y",
        "213503982334601d 7h 15s",
    ];
    let mut left_out: usize = 0;
    for a in amounts {
        for b in amounts {
            for c in amounts {
                let text = format!("{} {} {}", a, b, c);
                if readable_span(&text) {
                    let _ = humantime::parse_duration(&text);
                } else {
                    left_out += 1;
                }
            }
        }
    }
    assert!(left_out > 0);
}
