use vstd::multiset::Multiset;
use vstd::prelude::*;

use crate::frequency::{frequency_of, has_key, lemma_occurrences_bound, occurrences};
use crate::report::{ranked, ranks_before, report_entries_of};
use crate::unicode::{alphabetic, lower_of};

verus! {

/// The sum of the counts of `items`.
pub open spec fn total_count(items: Seq<(char, usize)>) -> nat
    decreases items.len(),
{
    if items.len() == 0 {
        0
    } else {
        total_count(items.drop_last()) + items.last().1 as nat
    }
}

/// The number of positions of `t` that hold an alphabetic character.
pub open spec fn alphabetic_count(t: Seq<char>) -> nat
    decreases t.len(),
{
    if t.len() == 0 {
        0
    } else {
        alphabetic_count(t.drop_last()) + if alphabetic(t.last()) {
            1nat
        } else {
            0nat
        }
    }
}

proof fn lemma_occurrences_multiset(t: Seq<char>, c: char)
    ensures
        occurrences(t, c) == t.to_multiset().count(c),
    decreases t.len(),
{
    broadcast use vstd::multiset::group_multiset_axioms;

    if t.len() == 0 {
        assert(t.to_multiset() =~= Multiset::<char>::empty()) by {
            broadcast use vstd::seq_lib::group_to_multiset_ensures;

        }
    } else {
        let s = t.drop_last();
        lemma_occurrences_multiset(s, c);
        assert(t =~= s.push(t.last()));
        vstd::seq_lib::to_multiset_build(s, t.last());
    }
}

/// Letter frequency does not depend on the order of the characters: two texts
/// whose lower-case forms hold the same characters the same number of times
/// have the same frequency map.
pub proof fn lemma_frequency_permutation(a: Seq<char>, b: Seq<char>)
    requires
        lower_of(a).to_multiset() == lower_of(b).to_multiset(),
    ensures
        frequency_of(lower_of(a)) == frequency_of(lower_of(b)),
{
    let ta = lower_of(a);
    let tb = lower_of(b);
    assert forall|c: char| #[trigger] occurrences(ta, c) == occurrences(tb, c) by {
        lemma_occurrences_multiset(ta, c);
        lemma_occurrences_multiset(tb, c);
    }
    assert forall|c: char| ta.contains(c) <==> tb.contains(c) by {
        lemma_occurrences_bound(ta, c);
        lemma_occurrences_bound(tb, c);
    }
    assert(frequency_of(ta) =~= frequency_of(tb));
}

proof fn lemma_ranked_same_elements(a: Seq<(char, usize)>, b: Seq<(char, usize)>)
    requires
        ranked(a),
        ranked(b),
        forall|x: (char, usize)| a.contains(x) <==> b.contains(x),
    ensures
        a == b,
    decreases a.len(),
{
    if a.len() == 0 {
        if b.len() > 0 {
            assert(b.contains(b[0]));
        }
        assert(a =~= b);
    } else {
        assert(a.contains(a[0]));
        assert(b.contains(b[0]));
        let j = choose|j: int| 0 <= j < b.len() && b[j] == a[0];
        let i = choose|i: int| 0 <= i < a.len() && a[i] == b[0];
        if j > 0 {
            assert(ranks_before(b[0], a[0]));
            if i > 0 {
                assert(ranks_before(a[0], b[0]));
            }
        }
        assert(a[0] == b[0]);
        let a1 = a.drop_first();
        let b1 = b.drop_first();
        assert forall|x: (char, usize)| a1.contains(x) <==> b1.contains(x) by {
            if a1.contains(x) {
                let k = choose|k: int| 0 <= k < a1.len() && a1[k] == x;
                assert(a.contains(a[k + 1]));
                assert(ranks_before(a[0], a[k + 1]));
                let m = choose|m: int| 0 <= m < b.len() && b[m] == x;
                assert(m != 0);
                assert(b1[m - 1] == x);
            }
            if b1.contains(x) {
                let k = choose|k: int| 0 <= k < b1.len() && b1[k] == x;
                assert(b.contains(b[k + 1]));
                assert(ranks_before(b[0], b[k + 1]));
                let m = choose|m: int| 0 <= m < a.len() && a[m] == x;
                assert(m != 0);
                assert(a1[m - 1] == x);
            }
        }
        lemma_ranked_same_elements(a1, b1);
        assert(a =~= seq![a[0]] + a1);
        assert(b =~= seq![b[0]] + b1);
    }
}

/// The entries of a report are determined by the frequency map: two sequences
/// that both list the map's alphabetic characters in report order are equal.
pub proof fn lemma_report_entries_unique(
    a: Seq<(char, usize)>,
    b: Seq<(char, usize)>,
    m: Map<char, nat>,
)
    requires
        report_entries_of(a, m),
        report_entries_of(b, m),
    ensures
        a == b,
{
    assert forall|x: (char, usize)| a.contains(x) implies b.contains(x) by {
        let i = choose|i: int| 0 <= i < a.len() && a[i] == x;
        assert(m.contains_key(a[i].0));
        let j = choose|j: int| 0 <= j < b.len() && b[j].0 == x.0;
        assert(m.contains_key(b[j].0));
        assert(b[j] == x);
    }
    assert forall|x: (char, usize)| b.contains(x) implies a.contains(x) by {
        let i = choose|i: int| 0 <= i < b.len() && b[i] == x;
        assert(m.contains_key(b[i].0));
        let j = choose|j: int| 0 <= j < a.len() && a[j].0 == x.0;
        assert(m.contains_key(a[j].0));
        assert(a[j] == x);
    }
    lemma_ranked_same_elements(a, b);
}

proof fn lemma_entries_keys_distinct(items: Seq<(char, usize)>, m: Map<char, nat>)
    requires
        report_entries_of(items, m),
    ensures
        forall|i: int, j: int| 0 <= i < j < items.len() ==> items[i].0 != items[j].0,
{
    assert forall|i: int, j: int| 0 <= i < j < items.len() implies items[i].0 != items[j].0 by {
        if items[i].0 == items[j].0 {
            assert(m[items[i].0] == items[i].1 as nat);
            assert(m[items[j].0] == items[j].1 as nat);
            assert(ranks_before(items[i], items[j]));
        }
    }
}

/// A report on a text whose lower-case form holds only alphabetic characters
/// lists each distinct character of that form exactly once, so that it has as
/// many entries as the form has distinct characters; and its counts never
/// increase from one entry to the next.
pub proof fn lemma_report_all_letters(doc: Seq<char>, items: Seq<(char, usize)>)
    requires
        forall|i: int| 0 <= i < lower_of(doc).len() ==> alphabetic(#[trigger] lower_of(doc)[i]),
        report_entries_of(items, frequency_of(lower_of(doc))),
    ensures
        forall|c: char| lower_of(doc).contains(c) <==> has_key(items, c),
        forall|i: int, j: int| 0 <= i < j < items.len() ==> items[i].0 != items[j].0,
        items.len() == lower_of(doc).to_set().len(),
        forall|i: int, j: int| 0 <= i < j < items.len() ==> items[i].1 >= items[j].1,
{
    let t = lower_of(doc);
    let m = frequency_of(t);
    lemma_entries_keys_distinct(items, m);
    assert forall|c: char| t.contains(c) <==> has_key(items, c) by {
        if t.contains(c) {
            let p = choose|p: int| 0 <= p < t.len() && t[p] == c;
            assert(alphabetic(t[p]));
            assert(m.contains_key(c));
        }
        if has_key(items, c) {
            let i = choose|i: int| 0 <= i < items.len() && items[i].0 == c;
            assert(m.contains_key(items[i].0));
        }
    }
    let keys = items.map_values(|p: (char, usize)| p.0);
    assert(keys.no_duplicates());
    keys.unique_seq_to_set();
    assert forall|c: char| keys.to_set().contains(c) <==> t.to_set().contains(c) by {
        if keys.contains(c) {
            let i = choose|i: int| 0 <= i < keys.len() && keys[i] == c;
            assert(items[i].0 == c);
        }
        if has_key(items, c) {
            let i = choose|i: int| 0 <= i < items.len() && items[i].0 == c;
            assert(keys[i] == c);
        }
    }
    assert(keys.to_set() =~= t.to_set());
    assert forall|i: int, j: int| 0 <= i < j < items.len() implies items[i].1 >= items[j].1 by {
        assert(ranks_before(items[i], items[j]));
    }
}

/// The number of pairs of `items` whose character is `x`.
spec fn key_hits(items: Seq<(char, usize)>, x: char) -> nat
    decreases items.len(),
{
    if items.len() == 0 {
        0
    } else {
        key_hits(items.drop_last(), x) + if items.last().0 == x {
            1nat
        } else {
            0nat
        }
    }
}

/// The occurrences in `t` of the characters of `items`, added up.
spec fn occurrence_total(t: Seq<char>, items: Seq<(char, usize)>) -> nat
    decreases items.len(),
{
    if items.len() == 0 {
        0
    } else {
        occurrence_total(t, items.drop_last()) + occurrences(t, items.last().0)
    }
}

/// The number of positions of `t` whose character has a pair in `items`.
spec fn matching_count(t: Seq<char>, items: Seq<(char, usize)>) -> nat
    decreases t.len(),
{
    if t.len() == 0 {
        0
    } else {
        matching_count(t.drop_last(), items) + if has_key(items, t.last()) {
            1nat
        } else {
            0nat
        }
    }
}

proof fn lemma_total_as_occurrences(t: Seq<char>, items: Seq<(char, usize)>)
    requires
        forall|i: int| 0 <= i < items.len() ==> #[trigger] items[i].1 as nat == occurrences(t, items[i].0),
    ensures
        total_count(items) == occurrence_total(t, items),
    decreases items.len(),
{
    if items.len() > 0 {
        let rest = items.drop_last();
        assert forall|i: int| 0 <= i < rest.len() implies #[trigger] rest[i].1 as nat == occurrences(t, rest[i].0) by {
            assert(rest[i] == items[i]);
        }
        lemma_total_as_occurrences(t, rest);
        assert(items.last() == items[items.len() - 1]);
    }
}

proof fn lemma_occurrence_total_empty(items: Seq<(char, usize)>)
    ensures
        occurrence_total(Seq::<char>::empty(), items) == 0,
    decreases items.len(),
{
    if items.len() > 0 {
        lemma_occurrence_total_empty(items.drop_last());
    }
}

proof fn lemma_occurrence_total_push(t: Seq<char>, x: char, items: Seq<(char, usize)>)
    ensures
        occurrence_total(t.push(x), items) == occurrence_total(t, items) + key_hits(items, x),
    decreases items.len(),
{
    if items.len() > 0 {
        lemma_occurrence_total_push(t, x, items.drop_last());
        assert(t.push(x).drop_last() =~= t);
    }
}

proof fn lemma_key_hits_distinct(items: Seq<(char, usize)>, x: char)
    requires
        forall|i: int, j: int| 0 <= i < j < items.len() ==> items[i].0 != items[j].0,
    ensures
        key_hits(items, x) == if has_key(items, x) {
            1nat
        } else {
            0nat
        },
    decreases items.len(),
{
    if items.len() > 0 {
        let rest = items.drop_last();
        let n = items.len() - 1;
        lemma_key_hits_distinct(rest, x);
        if has_key(rest, x) {
            let k = choose|k: int| 0 <= k < rest.len() && rest[k].0 == x;
            assert(items[k].0 == x);
            assert(items[k].0 != items[n].0);
        }
        if has_key(items, x) && items.last().0 != x {
            let k = choose|k: int| 0 <= k < items.len() && items[k].0 == x;
            assert(rest[k].0 == x);
        }
        if items.last().0 == x {
            assert(items[n].0 == x);
        }
    }
}

proof fn lemma_occurrence_total_matching(t: Seq<char>, items: Seq<(char, usize)>)
    requires
        forall|i: int, j: int| 0 <= i < j < items.len() ==> items[i].0 != items[j].0,
    ensures
        occurrence_total(t, items) == matching_count(t, items),
    decreases t.len(),
{
    if t.len() == 0 {
        assert(t =~= Seq::<char>::empty());
        lemma_occurrence_total_empty(items);
    } else {
        let s = t.drop_last();
        lemma_occurrence_total_matching(s, items);
        assert(t =~= s.push(t.last()));
        lemma_occurrence_total_push(s, t.last(), items);
        lemma_key_hits_distinct(items, t.last());
    }
}

proof fn lemma_matching_alphabetic(t: Seq<char>, items: Seq<(char, usize)>)
    requires
        forall|p: int| 0 <= p < t.len() ==> (has_key(items, #[trigger] t[p]) <==> alphabetic(t[p])),
    ensures
        matching_count(t, items) == alphabetic_count(t),
    decreases t.len(),
{
    if t.len() > 0 {
        let s = t.drop_last();
        assert forall|p: int| 0 <= p < s.len() implies (has_key(items, #[trigger] s[p]) <==> alphabetic(s[p])) by {
            assert(s[p] == t[p]);
        }
        lemma_matching_alphabetic(s, items);
        assert(t.last() == t[t.len() - 1]);
    }
}

/// The counts that a report lists add up to the number of alphabetic
/// characters in the lower-case form of the text.
pub proof fn lemma_report_counts_total(doc: Seq<char>, items: Seq<(char, usize)>)
    requires
        report_entries_of(items, frequency_of(lower_of(doc))),
    ensures
        total_count(items) == alphabetic_count(lower_of(doc)),
{
    let t = lower_of(doc);
    let m = frequency_of(t);
    lemma_entries_keys_distinct(items, m);
    assert forall|i: int| 0 <= i < items.len() implies #[trigger] items[i].1 as nat == occurrences(t, items[i].0) by {
        assert(m.contains_key(items[i].0));
    }
    lemma_total_as_occurrences(t, items);
    lemma_occurrence_total_matching(t, items);
    assert forall|p: int| 0 <= p < t.len() implies (has_key(items, #[trigger] t[p]) <==> alphabetic(t[p])) by {
        assert(t.contains(t[p]));
        assert(m.contains_key(t[p]));
        if has_key(items, t[p]) {
            let i = choose|i: int| 0 <= i < items.len() && items[i].0 == t[p];
            assert(alphabetic(items[i].0));
        }
    }
    lemma_matching_alphabetic(t, items);
}

} // verus!
