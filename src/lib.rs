pub mod frequency;
pub mod laws;
pub mod report;
pub mod unicode;
pub mod words;

pub use frequency::{char_frequency, letter_frequency, FrequencyMap};
pub use report::{
    generate_report_lines, render_report, report_entries, to_decimal, to_report_line,
};
pub use words::{count_words, is_whitespace};
