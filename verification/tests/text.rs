use std::io::BufRead;
use std::path::Path;

use vmdk::lines::{Line, LineReader};
use vmdk::path::{lies_within, parent};
use vmdk::text::{
    decimal_text, parse_number, same_text, split_key_value, split_words, strip, to_chars,
    white_space, Padding,
};

#[test]
fn white_space_is_that_of_unicode() {
    for code in 0..=0x10ffffu32 {
        if let Some(c) = char::from_u32(code) {
            assert_eq!(white_space(c), c.is_whitespace(), "{code:x}");
        }
    }
}

#[test]
fn chars_of_a_text() {
    assert_eq!(to_chars("a\u{e9}\u{1f600}"), vec!['a', '\u{e9}', '\u{1f600}']);
    assert!(same_text("FLAT", "FLAT"));
    assert!(!same_text("FLAT", "flat"));
}

#[test]
fn strips_white_space_and_quotes() {
    for s in ["", " ", "a", " a ", "\t a b \u{3000}", "\u{a0}x", "x\u{2003}\n"] {
        assert_eq!(strip(s, Padding::WhiteSpace), s.trim());
    }
    for s in ["", "\"", "\"\"", "\"a\"", "\"\"a\"b\"\"\"", "a", " \"a\" "] {
        assert_eq!(strip(s, Padding::Quotes), s.trim_matches('"'));
    }
    assert_eq!(strip("\"disk-s001.vmdk\"", Padding::Quotes), "disk-s001.vmdk");
}

#[test]
fn splits_words() {
    for s in ["", "  ", "a", " a  bc\td ", "RW 2097152 FLAT \"disk-s001.vmdk\"", "x\u{2028}y"] {
        let expected: Vec<String> = s.split_whitespace().map(|w| w.to_string()).collect();
        assert_eq!(split_words(s), expected);
    }
}

#[test]
fn splits_key_and_value() {
    let pair = |k: &str, v: &str| Some((k.to_string(), v.to_string()));
    assert_eq!(split_key_value("version=1"), pair("version", "1"));
    assert_eq!(split_key_value("  CID = ab cd "), pair("CID", "ab cd"));
    assert_eq!(split_key_value("="), pair("", ""));
    assert_eq!(split_key_value("a"), None);
    assert_eq!(split_key_value(""), None);
    assert_eq!(split_key_value("a=b=c"), None);
}

#[test]
fn reads_numbers() {
    let max = u32::MAX as u64;
    for s in [
        "", "+", "-", "0", "+0", "-0", "7", "+12", "++1", "1+", " 1", "4294967295", "4294967296",
        "00004294967295", "99999999999999999999999", "12a", "\u{663}",
    ] {
        assert_eq!(parse_number(s, 10, max), s.parse::<u32>().ok().map(u64::from), "{s}");
        assert_eq!(parse_number(s, 10, u64::MAX), s.parse::<u64>().ok(), "{s}");
    }
    for s in ["", "fffffffe", "FFFFFFFF", "100000000", "+aB", "0x1", "g", "-1"] {
        assert_eq!(
            parse_number(s, 16, max),
            u32::from_str_radix(s, 16).ok().map(u64::from),
            "{s}"
        );
    }
    assert_eq!(parse_number("18446744073709551615", 10, u64::MAX), Some(u64::MAX));
    assert_eq!(parse_number("18446744073709551616", 10, u64::MAX), None);
}

#[test]
fn decimal_digits_read_back() {
    for n in [0u64, 1, 9, 10, 99, 100, 1234567890, u64::MAX] {
        assert_eq!(decimal_text(n as u128), n.to_string());
        assert_eq!(parse_number(&decimal_text(n as u128), 10, u64::MAX), Some(n));
    }
    assert_eq!(decimal_text(u128::MAX), u128::MAX.to_string());
}

#[test]
fn reads_a_text_line_by_line() {
    for text in ["", "a", "a\n", "a\r\nb", "\n\n", "a\rb\n", "a\r", "\r\n", "x\n\r\n\ny\r\r\n"] {
        let expected: Vec<String> = text.as_bytes().lines().map(|l| l.unwrap()).collect();
        let mut reader = LineReader::new(text.as_bytes());
        let mut got: Vec<String> = vec![];
        while let Line::Text(line) = reader.next_line() {
            got.push(line);
        }
        assert_eq!(got, expected, "{text:?}");
        assert!(matches!(reader.next_line(), Line::End));
    }
}

#[test]
fn line_ends_make_no_difference_to_lines() {
    let mut unix = LineReader::new(b"one\ntwo\n\nthree\n");
    let mut dos = LineReader::new(b"one\r\ntwo\r\n\r\nthree\r\n");
    for expected in ["one", "two", "", "three"] {
        assert!(matches!(unix.next_line(), Line::Text(l) if l == expected));
        assert!(matches!(dos.next_line(), Line::Text(l) if l == expected));
    }
}

#[test]
fn a_line_that_is_not_utf8_is_told_apart() {
    let mut reader = LineReader::new(b"ok\nbad\xff\n\xc3\xa9");
    assert!(matches!(reader.next_line(), Line::Text(l) if l == "ok"));
    assert!(matches!(reader.next_line(), Line::Invalid));
    assert!(matches!(reader.next_line(), Line::Text(l) if l == "\u{e9}"));
    assert!(matches!(reader.next_line(), Line::End));
}

const PATHS: [&str; 28] = [
    "", "/", "//", ".", "./", "..", "a", "a/", "/a", "/a/", "a/b", "a//b", "a/./b", "./a", "/./a",
    "/a/..", "a/..", "/tmp", "/tmp/x", "/tmpx", "/tmp/x/y", "./.", "././a", "/.", ".a", "a/.",
    "a/b/.", "/tmp//x/./",
];

#[test]
fn containment_goes_by_whole_components() {
    for path in PATHS {
        for base in PATHS {
            assert_eq!(
                lies_within(path.as_bytes(), base.as_bytes()),
                Path::new(path).starts_with(base),
                "{path:?} {base:?}"
            );
        }
    }
    assert!(lies_within(b"/tmp/a", b"/tmp"));
    assert!(!lies_within(b"/tmpa", b"/tmp"));
    assert!(!lies_within(b"/tmp/\xff", b"/tmp/\xfe"));
}

#[test]
fn parent_drops_the_last_component() {
    for path in PATHS {
        let expected = Path::new(path).parent().map(|p| p.to_str().unwrap().as_bytes());
        assert_eq!(parent(path.as_bytes()), expected, "{path:?}");
        if let Some(p) = expected {
            assert!(lies_within(path.as_bytes(), p), "{path:?}");
        }
    }
    assert_eq!(parent(b"/images/disk.vmdk"), Some(&b"/images"[..]));
}

#[test]
fn containment_is_reflexive_and_transitive() {
    for a in PATHS {
        assert!(lies_within(a.as_bytes(), a.as_bytes()));
        for b in PATHS {
            for c in PATHS {
                if lies_within(a.as_bytes(), b.as_bytes()) && lies_within(b.as_bytes(), c.as_bytes())
                {
                    assert!(lies_within(a.as_bytes(), c.as_bytes()), "{a:?} {b:?} {c:?}");
                }
            }
        }
    }
}
