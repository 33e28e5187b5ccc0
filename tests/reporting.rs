use text_report::{
    count_words, generate_report_lines, letter_frequency, render_report, report_entries,
    to_decimal, to_report_line, FrequencyMap,
};

#[test]
fn decimal_notation() {
    assert_eq!(to_decimal(0), "0");
    assert_eq!(to_decimal(7), "7");
    assert_eq!(to_decimal(10), "10");
    assert_eq!(to_decimal(12345), "12345");
    assert_eq!(to_decimal(usize::MAX), usize::MAX.to_string());
}

#[test]
fn report_line_text() {
    assert_eq!(to_report_line(&('e', 42)), "The e character was found 42 times");
}

#[test]
fn report_header_and_summary() {
    let lines = generate_report_lines("books/frankenstein.txt", 7, FrequencyMap::new());
    assert_eq!(
        lines,
        vec![
            "--- Begin report of books/frankenstein.txt ---".to_string(),
            "7 words found in the document".to_string(),
        ]
    );
}

#[test]
fn report_cat_cat_dog() {
    let text = "cat cat dog";
    let lines = generate_report_lines("doc.txt", count_words(text), letter_frequency(text));
    assert_eq!(lines.len(), 8);
    assert_eq!(lines[1], "3 words found in the document");
    let mut first: Vec<String> = lines[2..5].to_vec();
    first.sort();
    assert_eq!(
        first,
        vec![
            "The a character was found 2 times",
            "The c character was found 2 times",
            "The t character was found 2 times",
        ]
    );
    let mut second: Vec<String> = lines[5..8].to_vec();
    second.sort();
    assert_eq!(
        second,
        vec![
            "The d character was found 1 times",
            "The g character was found 1 times",
            "The o character was found 1 times",
        ]
    );
}

#[test]
fn report_orders_ties_by_character() {
    let entries = report_entries(&letter_frequency("cat cat dog"));
    assert_eq!(
        entries,
        vec![('a', 2), ('c', 2), ('t', 2), ('d', 1), ('g', 1), ('o', 1)]
    );
}

#[test]
fn report_drops_non_alphabetic() {
    let entries = report_entries(&letter_frequency("a1, b!! 22 é"));
    assert_eq!(entries, vec![('a', 1), ('b', 1), ('é', 1)]);
}

#[test]
fn report_only_letters_one_line_each() {
    let text = "Mississippi";
    let entries = report_entries(&letter_frequency(text));
    assert_eq!(entries, vec![('i', 4), ('s', 4), ('p', 2), ('m', 1)]);
    for w in entries.windows(2) {
        assert!(w[0].1 >= w[1].1);
    }
    let lines = generate_report_lines("m", count_words(text), letter_frequency(text));
    assert_eq!(lines.len(), 2 + 4);
    assert_eq!(lines[2], "The i character was found 4 times");
    assert_eq!(lines[5], "The m character was found 1 times");
}

#[test]
fn report_counts_add_up_to_letters() {
    let text = "The Quick, brown fox; JUMPS over 2 lazy dogs!";
    let entries = report_entries(&letter_frequency(text));
    let total: usize = entries.iter().map(|p| p.1).sum();
    let letters = text.to_lowercase().chars().filter(|c| c.is_alphabetic()).count();
    assert_eq!(total, letters);
}

#[test]
fn render_lists_items_in_order() {
    let items = vec![('z', 3), ('a', 9)];
    let lines = render_report("f", 0, &items);
    assert_eq!(
        lines,
        vec![
            "--- Begin report of f ---".to_string(),
            "0 words found in the document".to_string(),
            "The z character was found 3 times".to_string(),
            "The a character was found 9 times".to_string(),
        ]
    );
}

#[test]
fn report_entries_of_explicit_map() {
    let mut m = FrequencyMap::new();
    m.insert('b', 2);
    m.insert(' ', 10);
    m.insert('a', 2);
    m.insert('c', 5);
    assert_eq!(report_entries(&m), vec![('c', 5), ('a', 2), ('b', 2)]);
}
