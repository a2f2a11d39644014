use multi_server::environment::Environment;
use multi_server::number::{decimal, hex, hex8, parse_number, NumberError};
use multi_server::path::FilePath;
use multi_server::text::{
    begins_with, chars_of, ends_with, find, is_white_space, lines, replace, same_chars,
    same_ignoring_case, same_text, split, split_once, string_of, to_lower, trim, trim_front,
    trim_leading, trim_trailing, word,
};

fn chars(text: &str) -> Vec<char> {
    text.chars().collect()
}

fn text(chars: &[char]) -> String {
    chars.iter().collect()
}

fn texts(pieces: &[Vec<char>]) -> Vec<String> {
    pieces.iter().map(|piece| text(piece)).collect()
}

#[test]
fn texts_are_taken_apart_like_std_does() {
    for sample in ["", "a", "a,b", ",", ",a,,b,", " a , b "] {
        let expected: Vec<String> = sample.split(',').map(|piece| piece.to_string()).collect();
        assert_eq!(texts(&split(&chars(sample), ',')), expected);
        let once = split_once(&chars(sample), ',').map(|(a, b)| (text(a), text(b)));
        let expected = sample.split_once(',').map(|(a, b)| (a.to_string(), b.to_string()));
        assert_eq!(once, expected);
        assert_eq!(find(&chars(sample), ','), sample.find(','));
    }
}

#[test]
fn lines_and_words_are_found_like_std_does() {
    for sample in ["", "\n", "a", "a\n", "a\r\nb", "a\r\n\r\nb\n\n", "\r", "a\rb\r\n", "x\r\r\n"] {
        let expected: Vec<String> = sample.lines().map(|line| line.to_string()).collect();
        assert_eq!(texts(&lines(&chars(sample))), expected);
    }
    for sample in ["", "  ", " 201 Created", "x", "\u{2003}y\tz"] {
        let found = word(&chars(sample)).map(text);
        assert_eq!(found.as_deref(), sample.split_whitespace().next());
    }
}

#[test]
fn texts_are_trimmed_like_std_does() {
    for sample in ["", " ", " a b ", "\u{a0}\u{3000}x\u{85}", "..a..", "//a/"] {
        assert_eq!(text(trim(&chars(sample))), sample.trim());
        assert_eq!(text(trim_front(&chars(sample))), sample.trim_start());
        assert_eq!(text(trim_trailing(&chars(sample), '.')), sample.trim_end_matches('.'));
        assert_eq!(text(trim_leading(&chars(sample), '/')), sample.trim_start_matches('/'));
    }
}

#[test]
fn every_white_space_character_is_known() {
    for code in 0..=0x10ffffu32 {
        if let Some(c) = char::from_u32(code) {
            assert_eq!(is_white_space(c), c.is_whitespace(), "{code:x}");
        }
    }
}

#[test]
fn texts_are_compared() {
    assert!(same_text("caf\u{e9}", "caf\u{e9}"));
    assert!(!same_text("a", "ab"));
    assert!(same_chars(&chars("ab"), &chars("ab")));
    assert!(!same_chars(&chars("ab"), &chars("ac")));
    assert!(same_ignoring_case(&chars("AbZ"), &chars("aBz")));
    assert!(!same_ignoring_case(&chars("\u{c9}"), &chars("\u{e9}")));
    assert!(begins_with(&chars("abc"), &chars("ab")));
    assert!(!begins_with(&chars("a"), &chars("ab")));
    assert!(ends_with(&chars("abc"), &chars("bc")));
    assert!(!ends_with(&chars("abc"), &chars("ab")));
    assert_eq!(text(&to_lower(&chars("A\u{c9}z"))), "a\u{c9}z");
    assert_eq!(string_of(&chars_of("caf\u{e9}")), "caf\u{e9}");
}

#[test]
fn occurrences_are_replaced_from_the_left() {
    let replaced = |sample: &str, from: &str, to: &str| {
        text(&replace(&chars(sample), &chars(from), &chars(to)))
    };
    for (sample, from, to) in [("aaa", "aa", "b"), ("x", "y", "z"), ("", "a", "b"), ("abab", "ab", "abab")] {
        assert_eq!(replaced(sample, from, to), sample.replace(from, to));
    }
}

#[test]
fn numbers_are_read_like_std_does() {
    for sample in ["", "+", "0", "+7", "-1", "007", "18446744073709551615", "18446744073709551616", "1 "] {
        let read = parse_number(&chars(sample), 10, u64::MAX);
        match sample.parse::<u64>() {
            Ok(number) => assert_eq!(read.unwrap(), number),
            Err(error) => assert_eq!(read.unwrap_err().message(), error.to_string()),
        }
    }
    assert_eq!(parse_number(&chars("65535"), 10, 65535).unwrap(), 65535);
    assert!(matches!(parse_number(&chars("65536"), 10, 65535), Err(NumberError::Overflow)));
    assert_eq!(parse_number(&chars("fF"), 16, 255).unwrap(), 255);
    assert!(matches!(parse_number(&chars("fg"), 16, 255), Err(NumberError::InvalidDigit)));
    assert!(matches!(parse_number(&chars(""), 16, 255), Err(NumberError::Empty)));
}

#[test]
fn numbers_are_written() {
    assert_eq!(decimal(0), "0");
    assert_eq!(decimal(u64::MAX), "18446744073709551615");
    assert_eq!(hex(0), "0");
    assert_eq!(hex(u128::MAX), format!("{:x}", u128::MAX));
    assert_eq!(hex8(0xabc), "00000abc");
    assert_eq!(hex8(u32::MAX), "ffffffff");
}

#[test]
fn paths_have_components_like_std_has() {
    for sample in ["", "/", "a", "/a/b", "a//b/", "./a", "a/./b", "../a", "a/..", "/.", "."] {
        let parts: Vec<String> = FilePath::from_text(sample)
            .components()
            .iter()
            .map(|part| String::from_utf8_lossy(part).into_owned())
            .collect();
        let expected: Vec<String> = std::path::Path::new(sample)
            .components()
            .map(|part| part.as_os_str().to_string_lossy().into_owned())
            .collect();
        assert_eq!(parts, expected, "{sample}");
    }
}

#[test]
fn paths_are_related_like_std_paths() {
    let samples = ["", "/", "a", "/a", "/a/b", "/a/b/", "/a/../b", "a/b", "/ab", "/a/site.json", ".."];
    for a in samples {
        for b in samples {
            let (p, q) = (FilePath::from_text(a), FilePath::from_text(b));
            let (x, y) = (std::path::Path::new(a), std::path::Path::new(b));
            assert_eq!(p.starts_with(&q), x.starts_with(y), "{a} {b}");
            assert_eq!(p.is_same(&q), x == y, "{a} {b}");
            assert_eq!(
                p.parent_holds(&q),
                x.parent().is_some_and(|parent| y.starts_with(parent)),
                "{a} {b}"
            );
            assert_eq!(p.join(b).to_text(), x.join(y).to_string_lossy(), "{a} {b}");
        }
        assert_eq!(
            FilePath::from_text(a).is_named("site.json"),
            std::path::Path::new(a).file_name().is_some_and(|name| name == "site.json")
        );
    }
}

#[test]
fn a_path_that_is_not_text_is_shown_with_marks() {
    let path = FilePath { bytes: vec![b'a', 0xff, b'b'] };
    assert_eq!(path.to_text(), "a\u{fffd}b");
    assert_eq!(FilePath::from_text("caf\u{e9}").to_text(), "caf\u{e9}");
}

#[test]
fn a_variable_occurs_once() {
    let environment = Environment::new()
        .with("A".to_string(), "1".to_string())
        .with("B".to_string(), "2".to_string())
        .with("A".to_string(), "3".to_string());
    let entries = environment.copy();
    let list: Vec<(&str, &str)> =
        entries.list().iter().map(|entry| (entry.0.as_str(), entry.1.as_str())).collect();
    assert_eq!(list, [("A", "3"), ("B", "2")]);
}
