use detrudr::table::Table;
use detrudr::text::{
    chars_of, lower, parse_u64, precedes, replace, split, split_lines, split_once, split_words,
    text_of, trim,
};

fn joined(parts: Vec<Vec<char>>) -> Vec<String> {
    parts.into_iter().map(|part| part.into_iter().collect()).collect()
}

#[test]
fn text_is_trimmed() {
    assert_eq!(trim(" \t\u{a0}a b\u{3000}\n"), "a b");
    assert_eq!(trim(" \n"), "");
}

#[test]
fn text_is_split_as_std_splits_it() {
    for raw in ["", "a", ",", "a,b", ",a,,b,"] {
        let chars = chars_of(raw);
        let expected: Vec<&str> = raw.split(',').collect();
        assert_eq!(joined(split(&chars, ',')), expected, "{raw}");
        let halves = raw.split_once(',').map(|(l, r)| (l.to_owned(), r.to_owned()));
        let found = split_once(&chars, ',').map(|(l, r)| (text_of(l), text_of(r)));
        assert_eq!(found, halves, "{raw}");
    }
    for raw in ["", "\n", "a", "a\n", "a\r\nb", "a\r", "\r\n\n", "a\n\r", "a\r\r\n"] {
        let expected: Vec<&str> = raw.lines().collect();
        assert_eq!(joined(split_lines(&chars_of(raw))), expected, "{raw:?}");
    }
    for raw in ["", "  ", "a", " a  b\t\u{2003}c\n"] {
        let expected: Vec<&str> = raw.split_whitespace().collect();
        assert_eq!(joined(split_words(&chars_of(raw))), expected, "{raw:?}");
    }
}

#[test]
fn text_is_replaced_as_std_replaces_it() {
    for (raw, from, to) in [("aaa", "aa", "b"), ("xZyZ", "Z", "+00:00"), ("", "a", "b")] {
        assert_eq!(replace(raw, from, to), raw.replace(from, to));
    }
    assert_eq!(lower(&chars_of("ABC\u{c4}z")), "abc\u{c4}z");
}

#[test]
fn numbers_are_read_as_std_reads_them() {
    let greatest = "18446744073709551615";
    for raw in ["0", "007", "+5", "", "+", "-0", "1 ", greatest, "18446744073709551616"] {
        assert_eq!(parse_u64(&chars_of(raw)), raw.parse::<u64>().ok(), "{raw}");
    }
}

#[test]
fn tables_are_kept_in_order() {
    assert!(precedes("10", "9"));
    assert!(precedes("a", "aa"));
    assert!(!precedes("b", "ab"));
    let mut table: Table<u32> = Table::new();
    table.insert("b".to_owned(), 1);
    table.insert("a".to_owned(), 2);
    table.insert("b".to_owned(), 3);
    assert_eq!(table.len(), 2);
    assert_eq!((table.key_at(0).as_str(), *table.value_at(0)), ("a", 2));
    assert_eq!((table.key_at(1).as_str(), *table.value_at(1)), ("b", 3));
    table.remove("a");
    assert!(!table.contains_key("a"));
    assert_eq!(table.get("b"), Some(&3));
}

#[test]
fn white_space_is_that_of_unicode() {
    for c in '\0'..='\u{ffff}' {
        let white = matches!(c as u32, 0x9..=0xd | 0x20 | 0x85 | 0xa0 | 0x1680 | 0x2000..=0x200a)
            || matches!(c as u32, 0x2028 | 0x2029 | 0x202f | 0x205f | 0x3000);
        assert_eq!(trim(&c.to_string()).is_empty(), white, "{c:?}");
    }
}
