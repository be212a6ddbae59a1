use baml_optimize::applier::is_ident_continue;
use baml_optimize::assoc::{find_key, put_pair};
use baml_optimize::text::{
    chars_of, contains, find_char, has_text, is_ascii_whitespace, is_whitespace, join_strings,
    lowercase, same_text, split_chars, to_decimal, trim_text,
};

#[test]
fn characters_are_classified_as_std_does() {
    for n in 0..0x11_0000u32 {
        if let Some(c) = char::from_u32(n) {
            assert_eq!(is_whitespace(c), c.is_whitespace(), "{n:x}");
            assert_eq!(is_ascii_whitespace(c), c.is_ascii_whitespace(), "{n:x}");
            assert_eq!(is_ident_continue(c), c.is_ascii_alphanumeric() || c == '_', "{n:x}");
        }
    }
}

#[test]
fn texts_are_handled_as_std_does() {
    let samples = ["", " ", "a", " a b ", "ÄÖ aBc", "\u{a0}x\u{3000}", "a,b,,c", ",", "aXbX", "ababab"];
    for s in samples {
        assert_eq!(trim_text(s), s.trim(), "{s:?}");
        assert_eq!(lowercase(s), s.to_ascii_lowercase(), "{s:?}");
        let parts: Vec<String> =
            split_chars(&chars_of(s), ',').iter().map(|p| p.iter().collect()).collect();
        let want: Vec<&str> = s.split(',').collect();
        assert_eq!(parts, want, "{s:?}");
        assert_eq!(join_strings(&parts, ","), s);
        assert_eq!(find_char(&chars_of(s), 'X'), s.chars().position(|c| c == 'X'));
        for t in samples {
            assert_eq!(contains(s, t), s.contains(t), "{s:?} {t:?}");
            assert_eq!(same_text(s, t), s == t, "{s:?} {t:?}");
        }
    }
    assert!(contains("ababab", "baba"));
    assert_eq!(join_strings(&vec![], ", "), "");
}

#[test]
fn counts_are_written_in_decimal() {
    for n in [0, 1, 9, 10, 99, 100, 1234567890, u64::MAX] {
        assert_eq!(to_decimal(n), n.to_string());
    }
}

#[test]
fn pairs_keep_their_place() {
    let mut pairs: Vec<(String, u64)> = vec![];
    put_pair(&mut pairs, "a".into(), 1);
    put_pair(&mut pairs, "b".into(), 2);
    put_pair(&mut pairs, "a".into(), 3);
    assert_eq!(pairs, vec![("a".to_string(), 3), ("b".to_string(), 2)]);
    assert_eq!(find_key(&pairs, "b"), Some(1));
    assert_eq!(find_key(&pairs, "c"), None);
    let words = vec!["x".to_string(), "y".to_string()];
    assert!(has_text(&words, "y"));
    assert!(!has_text(&words, "z"));
}
