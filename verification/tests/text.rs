use nono_cli::decimal::decimal_string;
use nono_cli::path::join;
use nono_cli::text::{fields, is_white_space, lines, same, split, strip_prefix, trim, Separator};
use std::path::Path;

const SAMPLES: [&str; 14] = [
    "",
    " ",
    "\n",
    "\r\n",
    "a",
    "a\nb",
    "a\r\nb\r\n",
    "a\r\r\nb\r",
    "\n\na\n\n",
    "  lead and trail\t\n",
    "/a//b/",
    "\u{a0}no-break\u{3000}",
    "\u{200b}zero width stays\u{200b}",
    "h\u{e9}llo w\u{f6}rld/\u{1F600}\u{2028}x",
];

/// The property is Unicode's, character by character.
#[test]
fn white_space_is_unicodes() {
    for u in 0..=0x10_FFFFu32 {
        if let Some(c) = char::from_u32(u) {
            assert_eq!(is_white_space(c), c.is_whitespace(), "at {u:#x}");
        }
    }
}

#[test]
fn trims_both_ends() {
    assert_eq!(trim(" \t a b \r\n"), "a b");
    for s in SAMPLES {
        assert_eq!(trim(s), s.trim());
    }
}

#[test]
fn splits_at_a_character() {
    assert_eq!(split("/a//b/", Separator::Char('/')), vec!["", "a", "", "b", ""]);
    for s in SAMPLES {
        let expected: Vec<&str> = s.split('/').collect();
        assert_eq!(split(s, Separator::Char('/')), expected);
    }
}

#[test]
fn keeps_the_fields_that_are_not_empty() {
    assert_eq!(fields("/a//b/", Separator::Char('/')), vec!["a", "b"]);
    for s in SAMPLES {
        let expected: Vec<&str> = s.split_whitespace().collect();
        assert_eq!(fields(s, Separator::WhiteSpace), expected);
    }
}

#[test]
fn splits_into_lines() {
    assert_eq!(lines("a\r\nb\n\nc\r"), vec!["a", "b", "", "c\r"]);
    for s in SAMPLES {
        let expected: Vec<&str> = s.lines().collect();
        assert_eq!(lines(s), expected);
    }
}

#[test]
fn strips_a_prefix() {
    assert_eq!(strip_prefix("0::/a", "0::"), Some("/a"));
    assert_eq!(strip_prefix("0::", "0::"), Some(""));
    assert_eq!(strip_prefix("0:", "0::"), None);
    assert_eq!(strip_prefix("1::/a", "0::"), None);
    assert_eq!(strip_prefix("abc", ""), Some("abc"));
}

#[test]
fn compares_texts() {
    assert!(same("", ""));
    assert!(same("h\u{e9}llo", "h\u{e9}llo"));
    assert!(!same("a", "b"));
    assert!(!same("a", "ab"));
}

#[test]
fn renders_numbers_in_decimal() {
    for n in [0u64, 1, 9, 10, 99, 100, 67_108_864, 4_294_967_295, u64::MAX] {
        assert_eq!(decimal_string(n), n.to_string());
    }
}

#[test]
fn joins_paths() {
    assert_eq!(join("/sys/fs/cgroup", "a"), "/sys/fs/cgroup/a");
    for base in ["", "/", "a", "a/", "/a/b"] {
        for name in ["", "x", "x/y", "/x", ".."] {
            let expected = Path::new(base).join(name);
            assert_eq!(Some(join(base, name).as_str()), expected.to_str());
        }
    }
}
