use claw_runtime::clock::{civil_from_days, utc_date_string, Timestamp};
use claw_runtime::paths::{extension, is_absolute, single_name, to_slashes, PathStyle};
use claw_runtime::text;
use std::path::{Component, Path};

#[test]
fn white_space_is_that_of_std() {
    for code in 0..=0x10_FFFFu32 {
        if let Some(c) = char::from_u32(code) {
            assert_eq!(text::is_white(c), c.is_whitespace(), "{code:x}");
        }
    }
}

const SAMPLES: [&str; 14] = [
    "",
    "a",
    " a ",
    "\u{a0}é\u{3000}",
    "a\nb",
    "a\r\nb\r\n",
    "\n",
    "\n\n",
    "a\r",
    "\r\n",
    "a\n\n\nb\n",
    "--- x ---",
    "/a//b/./../c/",
    "日本\n語",
];

#[test]
fn texts_are_handled_as_std_does() {
    for s in SAMPLES {
        assert_eq!(text::trim(s), s.trim());
        assert_eq!(text::trim_start(s), s.trim_start());
        assert_eq!(text::trim_end(s), s.trim_end());
        assert_eq!(text::byte_count(s), s.len());
        assert_eq!(text::lines(s), s.lines().collect::<Vec<_>>());
        assert_eq!(text::split(s, '/'), s.split('/').collect::<Vec<_>>());
        assert_eq!(text::ends_with_char(s, '\n'), s.ends_with('\n'));
        let trimmed = text::trim(s);
        assert_eq!(text::trim(&trimmed), trimmed);
        for t in SAMPLES {
            assert_eq!(text::starts_with(s, t), s.starts_with(t));
            assert_eq!(text::text_eq(s, t), s == t);
            assert_eq!(text::is_text_le(s, t), s <= t);
            assert_eq!(text::strip_prefix(s, t).as_deref(), s.strip_prefix(t));
            assert_eq!(text::strip_suffix(s, t).as_deref(), s.strip_suffix(t));
            assert_eq!(text::concat(s, t), format!("{s}{t}"));
        }
    }
}

#[test]
fn lines_and_pieces_are_put_together_again() {
    let lines = vec!["a".to_string(), String::new(), "b".to_string()];
    assert_eq!(text::lines(&text::join(&lines, "\n")), lines);
    for s in SAMPLES {
        assert_eq!(text::join(&text::split(s, '\n'), "\n"), s);
    }
}

#[test]
fn numbers_are_written_as_std_does() {
    for n in [0u128, 7, 10, 99, 100, 86_400, u128::MAX] {
        assert_eq!(text::decimal_string(n), n.to_string());
        assert_eq!(text::padded_decimal_string(n, 4), format!("{n:04}"));
    }
}

#[test]
fn paths_are_judged_as_std_does() {
    let samples = [
        "", "a", "/", "/a", "a/", "a//b", "./a", "a/./b", "../a", "a/..", "a.md", ".md", "a.b.md",
        "a.", "/m/logs/x.md", "..", ".", "a/b/", "//a", "/./a", "./.", "a/./b//./", "../..",
        "a\\b", "C:\\a", "a/.", "a/./", "...", ".a.b", "a..",
    ];
    let style = if std::path::MAIN_SEPARATOR == '\\' {
        PathStyle::Windows
    } else {
        PathStyle::Unix
    };
    for s in samples {
        let path = Path::new(s);
        assert_eq!(is_absolute(s, style), path.is_absolute(), "{s}");
        let parts: Vec<_> = path.components().collect();
        let alone = match parts[..] {
            [Component::Normal(name)] => name.to_str(),
            _ => None,
        };
        assert_eq!(single_name(s, style).as_deref(), alone, "{s}");
        if let Some(name) = path.file_name().and_then(|name| name.to_str()) {
            assert_eq!(
                extension(name).as_deref(),
                path.extension().and_then(|ext| ext.to_str()),
                "{s}"
            );
        }
    }
}

#[test]
fn windows_has_drives_and_shares() {
    let style = PathStyle::Windows;
    for s in [
        "C:\\", "C:\\notes", "c:/notes", "\\\\server\\share", "\\\\server\\share\\x", "//server/share",
        "\\\\?\\x", "\\\\?\\C:\\x", "\\\\.\\COM1", "//./COM1", "//?/x",
    ] {
        assert!(is_absolute(s, style), "{s}");
        assert_eq!(single_name(s, style), None, "{s}");
    }
    for s in [
        "\\a", "/a", "C:", "C:a", "\\\\server", "\\\\server\\", "\\\\\\share", "a\\b", "..\\a", ".\\a", "",
        "\\\\?", "..", ".",
    ] {
        assert!(!is_absolute(s, style), "{s}");
        assert_eq!(single_name(s, style), None, "{s}");
    }
    for (s, name) in [
        ("a", "a"),
        ("a\\", "a"),
        ("a/", "a"),
        ("a\\.\\", "a"),
        ("ab:c", "ab:c"),
        ("1:c", "1:c"),
        (".md", ".md"),
    ] {
        assert!(!is_absolute(s, style), "{s}");
        assert_eq!(single_name(s, style).as_deref(), Some(name), "{s}");
    }
}

#[test]
fn backslashes_become_slashes() {
    assert_eq!(to_slashes("a\\b/c\\"), "a/b/c/");
    assert_eq!(to_slashes(""), "");
}

#[test]
fn single_names_are_names_by_themselves() {
    for style in [PathStyle::Unix, PathStyle::Windows] {
        let name = single_name("a.md//", style).unwrap();
        assert_eq!(name, "a.md");
        assert_eq!(single_name(&name, style), Some(name));
    }
}

#[test]
fn lines_hold_no_line_feed_and_are_not_too_many() {
    for s in SAMPLES {
        let lines = text::lines(s);
        assert!(lines.iter().all(|line| !line.contains('\n')));
        assert!(lines.len() <= s.matches('\n').count() + 1);
        assert_eq!(text::trim(s).is_empty(), s.chars().all(char::is_whitespace));
    }
    let pieces = vec![String::new(), "a".to_string(), String::new()];
    assert_eq!(text::split(&text::join(&pieces, "/"), '/'), pieces);
}

#[test]
fn each_day_has_the_date_after_that_of_the_day_before() {
    let leap = |year: i32| year % 4 == 0 && (year % 100 != 0 || year % 400 == 0);
    let mut date = (1970, 1, 1);
    for days in 0..200_000 {
        assert_eq!(civil_from_days(days), date);
        let (year, month, day) = date;
        let length = match month {
            2 if leap(year) => 29,
            2 => 28,
            4 | 6 | 9 | 11 => 30,
            _ => 31,
        };
        date = if day < length {
            (year, month, day + 1)
        } else if month < 12 {
            (year, month + 1, 1)
        } else {
            (year + 1, 1, 1)
        };
    }
}

#[test]
fn days_have_their_dates() {
    assert_eq!(civil_from_days(0), (1970, 1, 1));
    assert_eq!(civil_from_days(-1), (1969, 12, 31));
    assert_eq!(civil_from_days(11_016), (2000, 2, 29));
    assert_eq!(civil_from_days(11_017), (2000, 3, 1));
    assert_eq!(civil_from_days(20_572), (2026, 4, 29));
    assert_eq!(civil_from_days(-719_468), (0, 3, 1));
    assert_eq!(civil_from_days(47_540), (2100, 2, 28));
    assert_eq!(civil_from_days(47_541), (2100, 3, 1));
}

#[test]
fn dates_are_written_with_zeros() {
    let at = |secs: i64| utc_date_string(&Timestamp { secs, nanos: 0 });
    assert_eq!(at(0), "1970-01-01");
    assert_eq!(at(86_399), "1970-01-01");
    assert_eq!(at(86_400), "1970-01-02");
    assert_eq!(at(1_777_420_800), "2026-04-29");
    assert_eq!(at(-5), "1970-01-01");
    assert_eq!(at(253_402_300_799), "9999-12-31");
    assert_eq!(at(253_402_300_800), "10000-01-01");
}

#[test]
fn times_are_counted_from_the_start_of_1970() {
    let t = Timestamp {
        secs: 2,
        nanos: 3_500_000,
    };
    assert_eq!(t.nanos_since_epoch(), 2_003_500_000);
    assert_eq!(t.millis_since_epoch(), 2_003);
    assert_eq!(t.secs_since_epoch(), 2);
    let earlier = Timestamp { secs: 1, nanos: 1 };
    assert!(earlier.is_before(&t));
    assert!(!t.is_before(&t));
    assert_eq!(t.nanos_since(&earlier), 1_003_499_999);
    assert_eq!(earlier.nanos_since(&t), 0);
    assert_eq!(Timestamp { secs: -1, nanos: 0 }.nanos_since_epoch(), 0);
}
