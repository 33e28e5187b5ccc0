use vstd::prelude::*;

verus! {

/// The characters with the Unicode `White_Space` property.
pub open spec fn is_white_space(c: char) -> bool {
    let u = c as u32;
    ||| 0x09 <= u <= 0x0D
    ||| u == 0x20
    ||| u == 0x85
    ||| u == 0xA0
    ||| u == 0x1680
    ||| 0x2000 <= u <= 0x200A
    ||| u == 0x2028
    ||| u == 0x2029
    ||| u == 0x202F
    ||| u == 0x205F
    ||| u == 0x3000
}

/// Position `i` of `s` holds the first character of a word: a character that is
/// not whitespace and follows whitespace or the start of the text.
pub open spec fn starts_word(s: Seq<char>, i: int) -> bool {
    &&& !is_white_space(s[i])
    &&& (i == 0 || is_white_space(s[i - 1]))
}

/// The number of maximal runs of non-whitespace characters in `s`.
pub open spec fn word_count(s: Seq<char>) -> nat
    decreases s.len(),
{
    if s.len() == 0 {
        0
    } else {
        word_count(s.drop_last()) + if starts_word(s, s.len() - 1) {
            1nat
        } else {
            0nat
        }
    }
}

/// Whether `c` is whitespace in the sense of Unicode's `White_Space` property,
/// as `char::is_whitespace` decides it.
pub fn is_whitespace(c: char) -> (r: bool)
    ensures
        r == is_white_space(c),
{
    let u = c as u32;
    (0x09 <= u && u <= 0x0D) || u == 0x20 || u == 0x85 || u == 0xA0 || u == 0x1680 || (0x2000
        <= u && u <= 0x200A) || u == 0x2028 || u == 0x2029 || u == 0x202F || u == 0x205F || u
        == 0x3000
}

/// Counts the whitespace-separated words of `contents`.
pub fn count_words(contents: &str) -> (r: usize)
    ensures
        r as nat == word_count(contents@),
{
    let len = contents.unicode_len();
    let mut count: usize = 0;
    let mut after_white = true;
    for c in it: contents.chars()
        invariant
            len == contents@.len(),
            it.seq() == contents@,
            count <= it.index(),
            count as nat == word_count(contents@.take(it.index() as int)),
            after_white == (it.index() == 0 || is_white_space(contents@[it.index() - 1])),
    {
        let ghost i = it.index() as int;
        let ghost prefix = contents@.take(i + 1);
        assert(prefix.drop_last() =~= contents@.take(i));
        let white = is_whitespace(c);
        if !white && after_white {
            count = count + 1;
        }
        after_white = white;
    }
    assert(contents@.take(contents@.len() as int) =~= contents@);
    count
}

} // verus!
