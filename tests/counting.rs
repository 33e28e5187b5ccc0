use text_report::{char_frequency, count_words, is_whitespace, letter_frequency, FrequencyMap};

#[test]
fn counts_zero() {
    assert_eq!(count_words(""), 0);
    assert_eq!(count_words("\n"), 0);
}

#[test]
fn counts_two() {
    assert_eq!(count_words("String literal"), 2);
}

#[test]
fn counts_multiple() {
    assert_eq!(
        count_words("This is a really big sentence with lots of words.\n And lines"),
        12
    );
}

#[test]
fn freq_letter_0() {
    assert_eq!(letter_frequency(""), FrequencyMap::new());
    assert!(letter_frequency("").is_empty());
}

#[test]
fn freq_letter_hello_world() {
    let mut result = FrequencyMap::new();
    result.insert('h', 1);
    result.insert('o', 2);
    result.insert('e', 1);
    result.insert('l', 3);
    result.insert('w', 1);
    result.insert('r', 1);
    result.insert('d', 1);
    result.insert(' ', 1);
    result.insert(',', 1);
    assert_eq!(letter_frequency("Hello, World"), result);
}

#[test]
fn freq_letter_5as_and_3spaces() {
    let mut result = FrequencyMap::new();
    result.insert('a', 5);
    result.insert(' ', 3);
    assert_eq!(letter_frequency("a a  aaa"), result);
    assert_eq!(letter_frequency("aa   aaa"), result);
    assert_eq!(letter_frequency("a a a aa"), result);
}

#[test]
fn counts_only_whitespace() {
    assert_eq!(count_words("   \t \n\r  "), 0);
    assert_eq!(count_words("\u{3000}\u{a0}\u{2028}"), 0);
}

#[test]
fn counts_words_around_unicode_spaces() {
    assert_eq!(count_words("  one\u{2003}two\u{85}three  "), 3);
    assert_eq!(count_words("a"), 1);
    assert_eq!(count_words("\tword\t"), 1);
}

#[test]
fn counts_as_split_whitespace_does() {
    let texts = [
        "",
        " x ",
        "a\u{1680}b\u{200b}c",
        "lines\r\nand\x0bvertical\x0ctabs",
        "é à  ü",
    ];
    for t in texts.iter() {
        assert_eq!(count_words(t), t.split_whitespace().count());
    }
}

#[test]
fn whitespace_agrees_with_std() {
    for u in 0u32..0x3100 {
        if let Some(c) = char::from_u32(u) {
            assert_eq!(is_whitespace(c), c.is_whitespace(), "{:x}", u);
        }
    }
    assert!(!is_whitespace('\u{feff}'));
    assert!(!is_whitespace('x'));
}

#[test]
fn hello_world_has_nine_keys_summing_to_length() {
    let m = letter_frequency("Hello, World");
    assert_eq!(m.len(), 9);
    let total: usize = m.entries().iter().map(|p| p.1).sum();
    assert_eq!(total, 12);
    assert_eq!(m.get('l'), Some(3));
    assert_eq!(m.get('H'), None);
}

#[test]
fn letter_frequency_folds_case() {
    let m = letter_frequency("AaÄä");
    let mut expected = FrequencyMap::new();
    expected.insert('a', 2);
    expected.insert('ä', 2);
    assert_eq!(m, expected);
}

#[test]
fn char_frequency_keeps_case() {
    let m = char_frequency("AaA");
    assert_eq!(m.get('A'), Some(2));
    assert_eq!(m.get('a'), Some(1));
    assert_eq!(m.len(), 2);
}

#[test]
fn permuted_text_same_frequency() {
    assert_eq!(letter_frequency("dog cat"), letter_frequency("tac god"));
    assert_ne!(letter_frequency("dog"), letter_frequency("dogg"));
}

#[test]
fn cat_cat_dog_counts() {
    assert_eq!(count_words("cat cat dog"), 3);
    let mut expected = FrequencyMap::new();
    expected.insert('c', 2);
    expected.insert('a', 2);
    expected.insert('t', 2);
    expected.insert(' ', 2);
    expected.insert('d', 1);
    expected.insert('o', 1);
    expected.insert('g', 1);
    assert_eq!(letter_frequency("cat cat dog"), expected);
}

#[test]
fn frequency_map_insert_replaces() {
    let mut m = FrequencyMap::new();
    assert!(m.is_empty());
    m.insert('x', 4);
    m.insert('y', 1);
    m.insert('x', 7);
    assert_eq!(m.get('x'), Some(7));
    assert_eq!(m.len(), 2);
    assert!(!m.is_empty());
    let mut other = FrequencyMap::new();
    other.insert('y', 1);
    other.insert('x', 7);
    assert_eq!(m, other);
    other.insert('y', 2);
    assert_ne!(m, other);
}
