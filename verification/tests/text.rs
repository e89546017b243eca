//! Text: against what the standard library does.

use quiz_bot::letters::{letter, letter_or_number, lower, upper, upper_case};
use quiz_bot::names::NameMap;
use quiz_bot::numbers::{
    int_text, nat_text, parse_u32, push_hex, push_padded, push_signed_zero_padded,
    push_zero_padded,
};
use quiz_bot::order::less;
use quiz_bot::retry::{backoff_secs, retry_step, RetryStep};
use quiz_bot::text::{
    blank, chars_of, contains_sub, control, has_prefix, has_suffix, join_texts, matches_at,
    position_of, push_repeated, split_lines, split_words, substitute, text_of, trim_both,
    trim_text, white, CharClass,
};

const SAMPLES: [&str; 12] = [
    "",
    " ",
    "plain",
    "  two words\t",
    "\u{a0}wide\u{3000}space\u{2028}",
    "line\r\nline\n\nlast",
    "ends\n",
    "ÄÖÜ ß ﬁ",
    "ΟΔΥΣΣΕΥΣ ΣΑΣ",
    "İstanbul",
    "日本語 🎉",
    "tab\u{b}feed\u{c}next\u{85}line",
];

#[test]
fn every_character_is_classed_as_by_the_standard_library() {
    for c in '\0'..=char::MAX {
        assert_eq!(white(c), c.is_whitespace(), "{c:?}");
        assert_eq!(control(c), c.is_control(), "{c:?}");
        assert_eq!(letter(c), c.is_alphabetic(), "{c:?}");
        assert_eq!(letter_or_number(c), c.is_alphanumeric(), "{c:?}");
        assert_eq!(upper_case(c), c.is_uppercase(), "{c:?}");
    }
}

#[test]
fn every_character_has_the_case_of_the_standard_library() {
    for c in '\0'..=char::MAX {
        assert_eq!(upper(c), c.to_uppercase().collect::<Vec<char>>());
        let text = c.to_string();
        assert_eq!(lower(&text), text.to_lowercase());
    }
    for s in SAMPLES {
        assert_eq!(lower(s), s.to_lowercase());
    }
}

#[test]
fn texts_are_split_and_trimmed_as_by_the_standard_library() {
    for s in SAMPLES {
        let v = chars_of(s);
        assert_eq!(text_of(&v), s);
        assert_eq!(trim_text(s), s.trim());
        assert_eq!(blank(s), s.trim().is_empty());
        let words: Vec<String> = split_words(&v).iter().map(|w| w.iter().collect()).collect();
        let expected: Vec<String> = s.split_whitespace().map(str::to_owned).collect();
        assert_eq!(words, expected);
        let lines: Vec<String> = s.lines().map(str::to_owned).collect();
        assert_eq!(split_lines(s), lines);
        assert_eq!(join_texts(&words, ", "), words.join(", "));
        assert_eq!(position_of(&v, ' '), s.chars().position(|c| c == ' ').unwrap_or(v.len()));
        let replaced: String = substitute(&v, ' ', "--").iter().collect();
        assert_eq!(replaced, s.replace(' ', "--"));
    }
    assert_eq!(split_lines("a\r"), vec!["a\r".to_owned()]);
    assert_eq!(split_lines("\r\n\n"), vec![String::new(), String::new()]);
}

#[test]
fn only_the_ends_are_trimmed() {
    let quotes: String = trim_both(&chars_of("'\"it's\"'"), &CharClass::Quote).iter().collect();
    assert_eq!(quotes, "it's");
    let marks: String = trim_both(&chars_of("1.) a-b *"), &CharClass::ListMark).iter().collect();
    assert_eq!(marks, "a-b");
    let at: String = trim_both(&chars_of("@@a@b@"), &CharClass::At).iter().collect();
    assert_eq!(at, "a@b");
}

#[test]
fn texts_are_found_as_by_the_standard_library() {
    for s in SAMPLES {
        for p in ["", " ", "word", "line", "\n", "ß", "zzz"] {
            assert_eq!(contains_sub(s, p), s.contains(p));
            assert_eq!(has_prefix(s, p), s.starts_with(p));
            assert_eq!(has_suffix(s, p), s.ends_with(p));
        }
    }
    assert!(matches_at(&chars_of("abc"), &chars_of("bc"), 1));
    assert!(!matches_at(&chars_of("abc"), &chars_of("bc"), 2));
}

#[test]
fn texts_are_ordered_as_by_the_standard_library() {
    for a in SAMPLES {
        for b in SAMPLES {
            assert_eq!(less(a, b), a < b);
        }
    }
    assert!(less("a", "ab"));
    assert!(less("Z", "a"));
}

#[test]
fn numbers_are_written_as_by_the_standard_library() {
    for n in [0, 7, 10, 99, 100, 65_535, u64::MAX] {
        assert_eq!(nat_text(n), n.to_string());
        let mut out = String::new();
        push_zero_padded(&mut out, n, 3);
        assert_eq!(out, format!("{n:03}"));
    }
    for n in [0u32, 10, 255, 0xdead_beef, u32::MAX] {
        let mut out = String::new();
        push_hex(&mut out, n as u64, 8);
        assert_eq!(out, format!("{n:08x}"));
    }
    for i in [0, 5, -5, 1234, -1234, i64::MIN, i64::MAX] {
        assert_eq!(int_text(i), i.to_string());
        let mut out = String::new();
        push_signed_zero_padded(&mut out, i, 4);
        assert_eq!(out, format!("{i:04}"));
        let mut out = "x".to_owned();
        push_padded(&mut out, &int_text(i), 3, ' ');
        assert_eq!(out, format!("x{i:>3}"));
    }
    let mut out = "=".to_owned();
    push_repeated(&mut out, '█', 3);
    assert_eq!(out, "=███");
}

#[test]
fn numbers_are_read_as_by_the_standard_library() {
    for s in ["", "0", "+0", "-0", "+", "007", "4294967295", "4294967296", " 1", "1a", "٣", "99999999999"]
    {
        assert_eq!(parse_u32(s), s.parse::<u32>().ok(), "{s:?}");
    }
}

#[test]
fn waits_double_up_to_half_a_minute() {
    let waits: Vec<u64> = (0..9).map(backoff_secs).collect();
    assert_eq!(waits, vec![0, 1, 2, 4, 8, 16, 30, 30, 30]);
    assert!(matches!(retry_step(2, 3), RetryStep::Try { wait_secs: 2 }));
    assert!(matches!(retry_step(3, 3), RetryStep::GiveUp));
}

#[test]
fn a_name_has_one_value() {
    let mut map: NameMap<u8> = NameMap::new();
    assert_eq!(map.len(), 0);
    map.insert("a".to_owned(), 1);
    map.insert("b".to_owned(), 2);
    map.insert("a".to_owned(), 3);
    assert_eq!(map.len(), 2);
    assert_eq!(map.get("a"), Some(&3));
    assert_eq!(map.get("b"), Some(&2));
    assert_eq!(map.get("c"), None);
    assert!(map.contains_key("b"));
    assert_eq!((map.key_at(0).as_str(), *map.value_at(0)), ("a", 3));
    assert_eq!((map.key_at(1).as_str(), *map.value_at(1)), ("b", 2));
}
