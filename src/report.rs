use vstd::prelude::*;

use crate::frequency::{has_key, keys_distinct, lemma_pairs_map_at, pairs_map, FrequencyMap};
use crate::unicode::{alphabetic, is_alphabetic};

verus! {

/// `a` stands before `b` in a report: the higher count first, and of two equal
/// counts the smaller character first.
pub open spec fn ranks_before(a: (char, usize), b: (char, usize)) -> bool {
    ||| a.1 > b.1
    ||| (a.1 == b.1 && (a.0 as u32) < (b.0 as u32))
}

/// Each pair of `s` ranks before every pair after it.
pub open spec fn ranked(s: Seq<(char, usize)>) -> bool {
    forall|i: int, j: int| 0 <= i < j < s.len() ==> ranks_before(s[i], s[j])
}

/// `items` lists, in report order, exactly the alphabetic characters of `m`,
/// each with its count.
pub open spec fn report_entries_of(items: Seq<(char, usize)>, m: Map<char, nat>) -> bool {
    &&& ranked(items)
    &&& forall|i: int|
        0 <= i < items.len() ==> {
            &&& m.contains_key(#[trigger] items[i].0)
            &&& alphabetic(items[i].0)
            &&& m[items[i].0] == items[i].1 as nat
        }
    &&& forall|c: char| #[trigger] m.contains_key(c) && alphabetic(c) ==> has_key(items, c)
}

fn comes_before(a: (char, usize), b: (char, usize)) -> (r: bool)
    ensures
        r == ranks_before(a, b),
{
    a.1 > b.1 || (a.1 == b.1 && (a.0 as u32) < (b.0 as u32))
}

fn insert_ranked(items: &mut Vec<(char, usize)>, x: (char, usize))
    requires
        ranked(old(items)@),
        !old(items)@.contains(x),
    ensures
        ranked(final(items)@),
        final(items)@.len() == old(items)@.len() + 1,
        forall|y: (char, usize)| #[trigger]
            final(items)@.contains(y) <==> (old(items)@.contains(y) || y == x),
{
    let ghost before = items@;
    let mut pos: usize = 0;
    while pos < items.len() && !comes_before(x, items[pos])
        invariant
            pos <= items@.len(),
            items@ == before,
            forall|i: int| 0 <= i < pos ==> !ranks_before(x, #[trigger] before[i]),
        decreases items@.len() - pos,
    {
        pos = pos + 1;
    }
    items.insert(pos, x);
    let ghost after = items@;
    assert forall|i: int| 0 <= i < pos implies ranks_before(#[trigger] before[i], x) by {
        assert(before.contains(before[i]));
        assert(before[i] != x);
        vstd::utf8::char_u32_cast(before[i].0, before[i].0 as u32);
        vstd::utf8::char_u32_cast(x.0, x.0 as u32);
    }
    assert forall|i: int, j: int| 0 <= i < j < after.len() implies ranks_before(
        after[i],
        after[j],
    ) by {
        if j < pos {
        } else if j == pos {
        } else if i < pos {
            assert(ranks_before(before[i], x));
            assert(ranks_before(x, before[pos as int]));
            if j - 1 > pos {
                assert(ranks_before(before[pos as int], before[j - 1]));
            }
        } else if i == pos {
            assert(ranks_before(x, before[pos as int]));
            if j - 1 > pos {
                assert(ranks_before(before[pos as int], before[j - 1]));
            }
        } else {
        }
    }
    assert forall|y: (char, usize)| #[trigger]
        after.contains(y) <==> (before.contains(y) || y == x) by {
        if after.contains(y) {
            let k = choose|k: int| 0 <= k < after.len() && after[k] == y;
            if k < pos {
                assert(before[k] == y);
            } else if k > pos {
                assert(before[k - 1] == y);
            }
        }
        if before.contains(y) {
            let k = choose|k: int| 0 <= k < before.len() && before[k] == y;
            if k < pos {
                assert(after[k] == y);
            } else {
                assert(after[k + 1] == y);
            }
        }
        if y == x {
            assert(after[pos as int] == y);
        }
    }
}

/// The alphabetic characters of `frequency_map` with their counts, in report
/// order.
pub fn report_entries(frequency_map: &FrequencyMap) -> (r: Vec<(char, usize)>)
    ensures
        report_entries_of(r@, frequency_map@),
{
    let all = frequency_map.entries();
    let ghost m = frequency_map@;
    let mut items: Vec<(char, usize)> = Vec::new();
    let mut k: usize = 0;
    while k < all.len()
        invariant
            k <= all@.len(),
            keys_distinct(all@),
            pairs_map(all@) == m,
            ranked(items@),
            forall|y: (char, usize)|
                items@.contains(y) <==> exists|j: int|
                    0 <= j < k && #[trigger] all@[j] == y && alphabetic(y.0),
        decreases all@.len() - k,
    {
        let entry = all[k];
        if is_alphabetic(entry.0) {
            let ghost before = items@;
            proof {
                if before.contains(entry) {
                    let j = choose|j: int| 0 <= j < k && #[trigger] all@[j] == entry && alphabetic(
                        entry.0,
                    );
                    assert(all@[j].0 == all@[k as int].0);
                }
            }
            insert_ranked(&mut items, entry);
            assert forall|y: (char, usize)|
                items@.contains(y) <==> exists|j: int|
                    0 <= j < k + 1 && #[trigger] all@[j] == y && alphabetic(y.0) by {
                if items@.contains(y) && y == entry {
                    assert(all@[k as int] == y);
                }
            }
        } else {
            assert forall|y: (char, usize)|
                items@.contains(y) <==> exists|j: int|
                    0 <= j < k + 1 && #[trigger] all@[j] == y && alphabetic(y.0) by {
                if exists|j: int| 0 <= j < k + 1 && #[trigger] all@[j] == y && alphabetic(y.0) {
                    let j = choose|j: int|
                        0 <= j < k + 1 && #[trigger] all@[j] == y && alphabetic(y.0);
                    assert(j < k);
                }
            }
        }
        k = k + 1;
    }
    assert forall|i: int| 0 <= i < items@.len() implies {
        &&& m.contains_key(#[trigger] items@[i].0)
        &&& alphabetic(items@[i].0)
        &&& m[items@[i].0] == items@[i].1 as nat
    } by {
        assert(items@.contains(items@[i]));
        let j = choose|j: int|
            0 <= j < k && #[trigger] all@[j] == items@[i] && alphabetic(items@[i].0);
        lemma_pairs_map_at(all@, j);
    }
    assert forall|c: char| #[trigger] m.contains_key(c) && alphabetic(c) implies has_key(
        items@,
        c,
    ) by {
        let j = choose|j: int| 0 <= j < all@.len() && all@[j].0 == c;
        assert(items@.contains(all@[j]));
        let i = choose|i: int| 0 <= i < items@.len() && items@[i] == all@[j];
        assert(items@[i].0 == c);
    }
    items
}

/// The decimal digit for `d`, which is below ten.
pub open spec fn digit_char(d: nat) -> char {
    ((48 + d) as u8) as char
}

/// The decimal notation of `n`, without leading zeros.
pub open spec fn decimal(n: nat) -> Seq<char>
    decreases n,
{
    if n < 10 {
        seq![digit_char(n)]
    } else {
        decimal(n / 10).push(digit_char(n % 10))
    }
}

/// Relies on `String::push`: the character is appended at the end.
#[verifier::external_body]
fn push_char(s: &mut String, c: char)
    ensures
        final(s)@ == old(s)@.push(c),
{
    s.push(c);
}

/// The decimal notation of `n`.
pub fn to_decimal(n: usize) -> (r: String)
    ensures
        r@ == decimal(n as nat),
    decreases n,
{
    let digit = ((48 + n % 10) as u8) as char;
    if n < 10 {
        let mut s = String::new();
        push_char(&mut s, digit);
        assert(s@ =~= seq![digit_char(n as nat)]);
        s
    } else {
        let mut s = to_decimal(n / 10);
        push_char(&mut s, digit);
        s
    }
}

/// The first line of a report on `filename`.
pub open spec fn header_line(filename: Seq<char>) -> Seq<char> {
    "--- Begin report of "@ + filename + " ---"@
}

/// The second line of a report: the number of words.
pub open spec fn summary_line(word_count: nat) -> Seq<char> {
    decimal(word_count) + " words found in the document"@
}

/// The report line for character `c` found `count` times.
pub open spec fn entry_line(c: char, count: nat) -> Seq<char> {
    "The "@ + seq![c] + " character was found "@ + decimal(count) + " times"@
}

/// `lines` is the report on `filename` with `word_count` words that lists
/// `items`, one line each, in their order.
pub open spec fn report_lines_of(
    lines: Seq<String>,
    filename: Seq<char>,
    word_count: nat,
    items: Seq<(char, usize)>,
) -> bool {
    &&& lines.len() == items.len() + 2
    &&& lines[0]@ == header_line(filename)
    &&& lines[1]@ == summary_line(word_count)
    &&& forall|i: int|
        0 <= i < items.len() ==> #[trigger] lines[i + 2]@ == entry_line(items[i].0, items[i].1 as nat)
}

/// The line that reports a (character, count) pair.
pub fn to_report_line(entry: &(char, usize)) -> (r: String)
    ensures
        r@ == entry_line(entry.0, entry.1 as nat),
{
    let mut line = String::from_str("The ");
    push_char(&mut line, entry.0);
    line.append(" character was found ");
    let count = to_decimal(entry.1);
    line.append(count.as_str());
    line.append(" times");
    line
}

/// The report on `filename`, with `word_count` words, that lists `items` in
/// their order.
pub fn render_report(filename: &str, word_count: usize, items: &Vec<(char, usize)>) -> (r: Vec<
    String,
>)
    ensures
        report_lines_of(r@, filename@, word_count as nat, items@),
{
    let mut header = String::from_str("--- Begin report of ");
    header.append(filename);
    header.append(" ---");
    let mut summary = to_decimal(word_count);
    summary.append(" words found in the document");
    let mut lines: Vec<String> = Vec::new();
    lines.push(header);
    lines.push(summary);
    let mut k: usize = 0;
    while k < items.len()
        invariant
            k <= items@.len(),
            lines@.len() == k + 2,
            lines@[0]@ == header_line(filename@),
            lines@[1]@ == summary_line(word_count as nat),
            forall|i: int|
                0 <= i < k ==> #[trigger] lines@[i + 2]@ == entry_line(
                    items@[i].0,
                    items@[i].1 as nat,
                ),
        decreases items@.len() - k,
    {
        let line = to_report_line(&items[k]);
        lines.push(line);
        k = k + 1;
    }
    lines
}

/// The report on `filename`, with `word_count` words: a header, a summary,
/// then one line for each alphabetic character of `frequency_map`, the higher
/// counts first and equal counts by character.
pub fn generate_report_lines(filename: &str, word_count: usize, frequency_map: FrequencyMap) -> (r:
    Vec<String>)
    ensures
        exists|items: Seq<(char, usize)>| #[trigger]
            report_entries_of(items, frequency_map@) && report_lines_of(
                r@,
                filename@,
                word_count as nat,
                items,
            ),
{
    let items = report_entries(&frequency_map);
    let r = render_report(filename, word_count, &items);
    assert(report_entries_of(items@, frequency_map@) && report_lines_of(
        r@,
        filename@,
        word_count as nat,
        items@,
    ));
    r
}

} // verus!
