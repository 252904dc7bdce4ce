use einbuergerung::order::{sort_newest_first, sorted_distinct, string_less};
use einbuergerung::text::{
    chars_of, is_ascii_alnum, owned, push_decimal, push_hex, push_int, push_str, str_eq, string_from_chars, text_less,
    utf8_len_at_least,
};

#[test]
fn numbers_are_written_in_decimal() {
    let mut s = String::new();
    push_decimal(&mut s, 0);
    push_str(&mut s, ",");
    push_decimal(&mut s, 1234567890123);
    assert_eq!(s, "0,1234567890123");
    let mut t = owned("x");
    push_int(&mut t, -45);
    push_int(&mut t, 7);
    push_int(&mut t, i128::MIN);
    assert_eq!(t, format!("x-457{}", i128::MIN));
}

#[test]
fn numbers_are_written_in_hex() {
    let mut s = String::new();
    push_hex(&mut s, 255, 8);
    assert_eq!(s, "000000ff");
    let mut t = String::new();
    push_hex(&mut t, u32::MAX, 8);
    assert_eq!(t, format!("{:08x}", u32::MAX));
    let mut u = String::new();
    push_hex(&mut u, 0xabc, 2);
    assert_eq!(u, "bc");
}

#[test]
fn texts_compare_by_characters() {
    assert!(str_eq("Bär", "Bär"));
    assert!(!str_eq("Bär", "Bar"));
    assert!(!str_eq("a", "ab"));
    assert_eq!(chars_of("äb"), vec!['ä', 'b']);
    assert_eq!(string_from_chars(&vec!['x', 'ß']), "xß");
    assert!(text_less(&chars_of("ab"), &chars_of("b")));
    assert!(text_less(&chars_of("a"), &chars_of("ab")));
    assert!(!text_less(&chars_of("b"), &chars_of("b")));
    assert!(string_less(&"Zebra".to_string(), &"apfel".to_string()));
    assert!(!string_less(&"ä".to_string(), &"z".to_string()));
}

#[test]
fn utf8_lengths_count_bytes() {
    assert!(utf8_len_at_least("wählt", 6));
    assert!(!utf8_len_at_least("wählt", 7));
    assert!(utf8_len_at_least("", 0));
    assert!(!utf8_len_at_least("abcd", 5));
    assert!(is_ascii_alnum('z') && is_ascii_alnum('0') && !is_ascii_alnum('-') && !is_ascii_alnum('ä'));
}

#[test]
fn distinct_texts_are_sorted() {
    let v = vec!["b".to_string(), "a".to_string(), "b".to_string(), "Ä".to_string()];
    assert_eq!(sorted_distinct(v), vec!["a", "b", "Ä"]);
}

#[test]
fn newest_first_keeps_ties_in_order() {
    let v = vec![((1i64, 0u32), "a"), ((3, 0), "b"), ((1, 0), "c"), ((3, 5), "d"), ((2, 0), "e")];
    let r = sort_newest_first(v);
    let names: Vec<&str> = r.iter().map(|p| p.1).collect();
    assert_eq!(names, vec!["d", "b", "e", "a", "c"]);
}
