use vstd::prelude::*;

use crate::unicode::{lower_of, to_lowercase};

verus! {

/// No two pairs of `s` share a character.
pub open spec fn keys_distinct(s: Seq<(char, usize)>) -> bool {
    forall|i: int, j: int| 0 <= i < j < s.len() ==> s[i].0 != s[j].0
}

/// Some pair of `s` has the character `c`.
pub open spec fn has_key(s: Seq<(char, usize)>, c: char) -> bool {
    exists|i: int| 0 <= i < s.len() && s[i].0 == c
}

/// The map that a sequence of (character, count) pairs stands for.
pub open spec fn pairs_map(s: Seq<(char, usize)>) -> Map<char, nat> {
    Map::new(
        |c: char| has_key(s, c),
        |c: char| s[choose|i: int| 0 <= i < s.len() && s[i].0 == c].1 as nat,
    )
}

/// How many times `c` occurs in `s`.
pub open spec fn occurrences(s: Seq<char>, c: char) -> nat
    decreases s.len(),
{
    if s.len() == 0 {
        0
    } else {
        occurrences(s.drop_last(), c) + if s.last() == c {
            1nat
        } else {
            0nat
        }
    }
}

/// Each character of `s` mapped to the number of times it occurs there.
pub open spec fn frequency_of(s: Seq<char>) -> Map<char, nat> {
    Map::new(|c: char| s.contains(c), |c: char| occurrences(s, c))
}

/// In a list of pairs with distinct characters, each pair gives the count of
/// its character.
pub proof fn lemma_pairs_map_at(s: Seq<(char, usize)>, i: int)
    requires
        keys_distinct(s),
        0 <= i < s.len(),
    ensures
        pairs_map(s).contains_key(s[i].0),
        pairs_map(s)[s[i].0] == s[i].1 as nat,
{
    let c = s[i].0;
    assert(has_key(s, c));
    let j = choose|j: int| 0 <= j < s.len() && s[j].0 == c;
    assert(j == i);
}

/// A character occurs at most as often as the text is long, and at least once
/// exactly where the text contains it.
pub proof fn lemma_occurrences_bound(s: Seq<char>, c: char)
    ensures
        occurrences(s, c) <= s.len(),
        occurrences(s, c) > 0 <==> s.contains(c),
    decreases s.len(),
{
    if s.len() > 0 {
        lemma_occurrences_bound(s.drop_last(), c);
        if s.drop_last().contains(c) {
            let k = choose|k: int| 0 <= k < s.len() - 1 && s.drop_last()[k] == c;
            assert(s[k] == c);
        }
        if s.contains(c) && s.last() != c {
            let k = choose|k: int| 0 <= k < s.len() && s[k] == c;
            assert(s.drop_last()[k] == c);
        }
    }
}

proof fn lemma_frequency_push(s: Seq<char>, x: char)
    ensures
        frequency_of(s.push(x)) == frequency_of(s).insert(x, occurrences(s, x) + 1),
{
    let t = s.push(x);
    assert(t.drop_last() =~= s);
    assert forall|c: char| t.contains(c) <==> (s.contains(c) || c == x) by {
        if s.contains(c) {
            let k = choose|k: int| 0 <= k < s.len() && s[k] == c;
            assert(t[k] == c);
        }
        if c == x {
            assert(t[s.len() as int] == c);
        }
        if t.contains(c) && c != x {
            let k = choose|k: int| 0 <= k < t.len() && t[k] == c;
            assert(s[k] == c);
        }
    }
    assert(frequency_of(t) =~= frequency_of(s).insert(x, occurrences(s, x) + 1));
}

/// A count for each of a set of characters: a finite map from `char` to
/// `usize`, held as a list of pairs with distinct characters.
#[derive(Debug)]
pub struct FrequencyMap {
    entries: Vec<(char, usize)>,
}

impl View for FrequencyMap {
    type V = Map<char, nat>;

    closed spec fn view(&self) -> Map<char, nat> {
        pairs_map(self.entries@)
    }
}

impl FrequencyMap {
    #[verifier::type_invariant]
    closed spec fn distinct(self) -> bool {
        keys_distinct(self.entries@)
    }

    /// An empty map.
    pub fn new() -> (r: FrequencyMap)
        ensures
            r@ == Map::<char, nat>::empty(),
    {
        let r = FrequencyMap { entries: Vec::new() };
        assert(r@ =~= Map::<char, nat>::empty());
        r
    }

    fn find(&self, c: char) -> (r: Option<usize>)
        ensures
            match r {
                Some(i) => i < self.entries@.len() && self.entries@[i as int].0 == c,
                None => !has_key(self.entries@, c),
            },
    {
        let mut i: usize = 0;
        while i < self.entries.len()
            invariant
                i <= self.entries@.len(),
                forall|k: int| 0 <= k < i ==> self.entries@[k].0 != c,
            decreases self.entries@.len() - i,
        {
            if self.entries[i].0 == c {
                return Some(i);
            }
            i = i + 1;
        }
        None
    }

    /// The count of `c`, or `None` where the map holds no count for it.
    pub fn get(&self, c: char) -> (r: Option<usize>)
        ensures
            match r {
                Some(n) => self@.contains_key(c) && self@[c] == n as nat,
                None => !self@.contains_key(c),
            },
    {
        proof {
            use_type_invariant(self);
        }
        match self.find(c) {
            Some(i) => {
                proof {
                    lemma_pairs_map_at(self.entries@, i as int);
                }
                Some(self.entries[i].1)
            },
            None => None,
        }
    }

    /// Sets the count of `c` to `n`, replacing any count it had.
    pub fn insert(&mut self, c: char, n: usize)
        ensures
            final(self)@ == old(self)@.insert(c, n as nat),
    {
        proof {
            use_type_invariant(&*self);
        }
        let ghost before = self.entries@;
        let found = self.find(c);
        let mut entries: Vec<(char, usize)> = Vec::new();
        let mut k: usize = 0;
        while k < self.entries.len()
            invariant
                k <= before.len(),
                before == self.entries@,
                entries@ =~= before.take(k as int),
            decreases before.len() - k,
        {
            entries.push(self.entries[k]);
            k = k + 1;
        }
        assert(entries@ =~= before);
        match found {
            Some(i) => {
                entries.set(i, (c, n));
                let ghost after = entries@;
                assert(keys_distinct(after));
                assert forall|d: char| has_key(after, d) <==> has_key(before, d) by {
                    if has_key(after, d) {
                        let j = choose|j: int| 0 <= j < after.len() && after[j].0 == d;
                        assert(before[j].0 == d);
                    }
                    if has_key(before, d) {
                        let j = choose|j: int| 0 <= j < before.len() && before[j].0 == d;
                        assert(after[j].0 == d);
                    }
                }
                assert forall|d: char| #[trigger] has_key(after, d) implies pairs_map(after)[d]
                    == pairs_map(before).insert(c, n as nat)[d] by {
                    let j = choose|j: int| 0 <= j < after.len() && after[j].0 == d;
                    lemma_pairs_map_at(after, j);
                    lemma_pairs_map_at(before, j);
                }
                assert(pairs_map(after) =~= pairs_map(before).insert(c, n as nat));
            },
            None => {
                entries.push((c, n));
                let ghost after = entries@;
                let ghost last = before.len() as int;
                assert(keys_distinct(after));
                assert forall|d: char| has_key(after, d) <==> (has_key(before, d) || d == c) by {
                    if has_key(after, d) && d != c {
                        let j = choose|j: int| 0 <= j < after.len() && after[j].0 == d;
                        assert(before[j].0 == d);
                    }
                    if has_key(before, d) {
                        let j = choose|j: int| 0 <= j < before.len() && before[j].0 == d;
                        assert(after[j].0 == d);
                    }
                    if d == c {
                        assert(after[last].0 == d);
                    }
                }
                assert forall|d: char| #[trigger] has_key(after, d) implies pairs_map(after)[d]
                    == pairs_map(before).insert(c, n as nat)[d] by {
                    let j = choose|j: int| 0 <= j < after.len() && after[j].0 == d;
                    lemma_pairs_map_at(after, j);
                    if j < last {
                        lemma_pairs_map_at(before, j);
                    }
                }
                assert(pairs_map(after) =~= pairs_map(before).insert(c, n as nat));
            },
        }
        self.entries = entries;
    }

    /// The number of characters that have a count.
    pub fn len(&self) -> (r: usize)
        ensures
            r == self@.len(),
    {
        proof {
            use_type_invariant(self);
            let s = self.entries@;
            let keys = s.map_values(|p: (char, usize)| p.0);
            assert(keys.no_duplicates()) by {
                assert forall|i: int, j: int|
                    0 <= i < keys.len() && 0 <= j < keys.len() && i != j implies keys[i]
                    != keys[j] by {
                    if i < j {
                        assert(s[i].0 != s[j].0);
                    } else {
                        assert(s[j].0 != s[i].0);
                    }
                }
            }
            keys.unique_seq_to_set();
            assert forall|c: char| keys.to_set().contains(c) <==> has_key(s, c) by {
                if has_key(s, c) {
                    let k = choose|k: int| 0 <= k < s.len() && s[k].0 == c;
                    assert(keys[k] == c);
                }
                if keys.to_set().contains(c) {
                    let k = choose|k: int| 0 <= k < keys.len() && keys[k] == c;
                    assert(s[k].0 == c);
                }
            }
            assert(self@.dom() =~= keys.to_set());
        }
        self.entries.len()
    }

    /// Whether no character has a count.
    pub fn is_empty(&self) -> (r: bool)
        ensures
            r <==> self@ == Map::<char, nat>::empty(),
    {
        if self.entries.len() == 0 {
            assert(self@ =~= Map::<char, nat>::empty());
            true
        } else {
            assert(has_key(self.entries@, self.entries@[0].0));
            assert(self@.contains_key(self.entries@[0].0));
            false
        }
    }

    /// The (character, count) pairs of the map, each character once, in no
    /// particular order.
    pub fn entries(&self) -> (r: Vec<(char, usize)>)
        ensures
            keys_distinct(r@),
            pairs_map(r@) == self@,
    {
        proof {
            use_type_invariant(self);
        }
        let mut r: Vec<(char, usize)> = Vec::new();
        let mut k: usize = 0;
        while k < self.entries.len()
            invariant
                k <= self.entries@.len(),
                r@ =~= self.entries@.take(k as int),
            decreases self.entries@.len() - k,
        {
            r.push(self.entries[k]);
            k = k + 1;
        }
        assert(r@ =~= self.entries@);
        r
    }

    /// Every count of `self` is in `other`, with the same value.
    fn counts_within(&self, other: &FrequencyMap) -> (r: bool)
        ensures
            r <==> forall|c: char| #[trigger]
                self@.contains_key(c) ==> other@.contains_key(c) && other@[c] == self@[c],
    {
        proof {
            use_type_invariant(self);
        }
        let mut k: usize = 0;
        while k < self.entries.len()
            invariant
                k <= self.entries@.len(),
                keys_distinct(self.entries@),
                forall|j: int|
                    0 <= j < k ==> other@.contains_key(#[trigger] self.entries@[j].0)
                        && other@[self.entries@[j].0] == self.entries@[j].1 as nat,
            decreases self.entries@.len() - k,
        {
            let (c, n) = self.entries[k];
            match other.get(c) {
                Some(m) => {
                    if m != n {
                        proof {
                            lemma_pairs_map_at(self.entries@, k as int);
                            assert(self@.contains_key(c) && self@[c] != other@[c]);
                        }
                        return false;
                    }
                },
                None => {
                    proof {
                        lemma_pairs_map_at(self.entries@, k as int);
                        assert(self@.contains_key(c));
                    }
                    return false;
                },
            }
            k = k + 1;
        }
        assert forall|c: char| #[trigger]
            self@.contains_key(c) implies other@.contains_key(c) && other@[c] == self@[c] by {
            let j = choose|j: int| 0 <= j < self.entries@.len() && self.entries@[j].0 == c;
            lemma_pairs_map_at(self.entries@, j);
        }
        true
    }
}

impl PartialEq for FrequencyMap {
    fn eq(&self, other: &FrequencyMap) -> (r: bool) {
        let r = self.counts_within(other) && other.counts_within(self);
        proof {
            if r {
                assert(self@ =~= other@);
            }
        }
        r
    }
}

impl vstd::std_specs::cmp::PartialEqSpecImpl for FrequencyMap {
    open spec fn obeys_eq_spec() -> bool {
        true
    }

    open spec fn eq_spec(&self, other: &FrequencyMap) -> bool {
        self@ == other@
    }
}

/// Counts each character of `s`, as it stands.
pub fn char_frequency(s: &str) -> (r: FrequencyMap)
    ensures
        r@ == frequency_of(s@),
{
    let len = s.unicode_len();
    let mut map = FrequencyMap::new();
    proof {
        assert(s@.take(0) =~= Seq::<char>::empty());
        assert(frequency_of(Seq::<char>::empty()) =~= Map::<char, nat>::empty());
    }
    for c in it: s.chars()
        invariant
            len == s@.len(),
            it.seq() == s@,
            map@ == frequency_of(s@.take(it.index() as int)),
    {
        let ghost i = it.index() as int;
        let ghost prefix = s@.take(i);
        proof {
            assert(s@.take(i + 1) =~= prefix.push(c));
            lemma_frequency_push(prefix, c);
            lemma_occurrences_bound(prefix, c);
        }
        match map.get(c) {
            Some(n) => map.insert(c, n + 1),
            None => map.insert(c, 1),
        }
    }
    assert(s@.take(s@.len() as int) =~= s@);
    map
}

/// Counts each character of the lower-case form of `contents`: letters,
/// whitespace and punctuation alike.
pub fn letter_frequency(contents: &str) -> (r: FrequencyMap)
    ensures
        r@ == frequency_of(lower_of(contents@)),
{
    let lower = to_lowercase(contents);
    char_frequency(lower.as_str())
}

} // verus!
