//! The aggregator: how often each classification occurs.
//!
//! A histogram maps a classification (a tag, or `None` for a null) to the
//! number of cells that received it.  A classification that never occurred
//! has no entry.

use crate::classify::{classify, classify_all};
use crate::field::Field;
use vstd::prelude::*;

verus! {

/// How many members of `s` equal `key`.
pub open spec fn occurrences(s: Seq<Option<Field>>, key: Option<Field>) -> nat
    decreases s.len(),
{
    if s.len() == 0 {
        0
    } else {
        occurrences(s.drop_last(), key) + if s.last() == key {
            1nat
        } else {
            0nat
        }
    }
}

/// The histogram of `s`: each classification that occurs in `s`, with the
/// number of its occurrences.
pub open spec fn tally(s: Seq<Option<Field>>) -> Map<Option<Field>, int> {
    Map::new(
        |key: Option<Field>| occurrences(s, key) > 0,
        |key: Option<Field>| occurrences(s, key) as int,
    )
}

/// The count that `m` holds for `key`, zero where it has no entry.
pub open spec fn count_in(m: Map<Option<Field>, int>, key: Option<Field>) -> int {
    if m.contains_key(key) {
        m[key]
    } else {
        0
    }
}

/// The sum of all counts of `m`.
pub open spec fn total(m: Map<Option<Field>, int>) -> int {
    count_in(m, None) + count_in(m, Some(Field::Unknown)) + count_in(m, Some(Field::String))
        + count_in(m, Some(Field::Integer)) + count_in(m, Some(Field::Float))
}

/// Totality: the counts of a histogram add up to the number of
/// classifications that were tallied, so none is dropped and none is
/// counted twice.
pub proof fn lemma_tally_total(s: Seq<Option<Field>>)
    ensures
        total(tally(s)) == s.len(),
    decreases s.len(),
{
    let m = tally(s);
    assert forall|key: Option<Field>| count_in(m, key) == occurrences(s, key) by {}
    if s.len() > 0 {
        let front = s.drop_last();
        lemma_tally_total(front);
        assert forall|key: Option<Field>| count_in(tally(front), key) == occurrences(
            front,
            key,
        ) by {}
        match s.last() {
            None => {},
            Some(Field::Unknown) => {},
            Some(Field::String) => {},
            Some(Field::Integer) => {},
            Some(Field::Float) => {},
        }
    }
}

/// Every cell is counted once: the histogram of the classifications of a
/// sequence of cells has counts that add up to the number of cells.
pub proof fn lemma_every_cell_counted(cells: Seq<Seq<u8>>)
    ensures
        total(tally(classify_all(cells))) == cells.len(),
{
    lemma_tally_total(classify_all(cells));
}

/// Counting in a sequence agrees with counting in its multiset.
pub proof fn lemma_occurrences_multiset(s: Seq<Option<Field>>, key: Option<Field>)
    ensures
        occurrences(s, key) == s.to_multiset().count(key),
    decreases s.len(),
{
    broadcast use vstd::seq_lib::to_multiset_build;

    if s.len() == 0 {
        assert(s =~= Seq::empty());
        s.to_multiset_ensures();
        assert(s.to_multiset().len() == 0);
    } else {
        lemma_occurrences_multiset(s.drop_last(), key);
        assert(s =~= s.drop_last().push(s.last()));
    }
}

/// Order independence: two sequences that are permutations of each other
/// have the same histogram.
pub proof fn lemma_tally_permutation(a: Seq<Option<Field>>, b: Seq<Option<Field>>)
    requires
        a.to_multiset() == b.to_multiset(),
    ensures
        tally(a) == tally(b),
{
    assert forall|key: Option<Field>| occurrences(a, key) == occurrences(b, key) by {
        lemma_occurrences_multiset(a, key);
        lemma_occurrences_multiset(b, key);
    }
    assert(tally(a) =~= tally(b));
}

/// Classifying cell by cell keeps permutations: cells in another order give
/// the same classifications in another order.
proof fn lemma_classify_all_permutation(a: Seq<Seq<u8>>, b: Seq<Seq<u8>>)
    requires
        a.to_multiset() == b.to_multiset(),
    ensures
        classify_all(a).to_multiset() == classify_all(b).to_multiset(),
    decreases a.len(),
{
    broadcast use vstd::seq_lib::to_multiset_build, vstd::seq_lib::to_multiset_remove;

    a.to_multiset_ensures();
    b.to_multiset_ensures();
    if a.len() == 0 {
        assert(classify_all(a) =~= classify_all(b));
    } else {
        let x = a.last();
        let a1 = a.drop_last();
        assert(a =~= a1.push(x));
        assert(b.to_multiset().count(x) > 0);
        assert(b.contains(x));
        let j = choose|j: int| 0 <= j < b.len() && b[j] == x;
        let b1 = b.remove(j);
        assert(a1.to_multiset() =~= a.to_multiset().remove(x));
        assert(b1.to_multiset() =~= b.to_multiset().remove(x));
        lemma_classify_all_permutation(a1, b1);
        let fa = classify_all(a);
        let fb = classify_all(b);
        assert(fa =~= classify_all(a1).push(classify(x)));
        assert(fb.remove(j) =~= classify_all(b1));
        assert(fb[j] == classify(x));
        fb.to_multiset_ensures();
        assert(fb.contains(fb[j]));
        assert(fb.to_multiset() =~= fb.remove(j).to_multiset().insert(classify(x)));
    }
}

/// Order independence, from the cells on: permuting the cells before they
/// are classified and tallied gives the same histogram.
pub proof fn lemma_cell_order_irrelevant(a: Seq<Seq<u8>>, b: Seq<Seq<u8>>)
    requires
        a.to_multiset() == b.to_multiset(),
    ensures
        tally(classify_all(a)) == tally(classify_all(b)),
{
    lemma_classify_all_permutation(a, b);
    lemma_tally_permutation(classify_all(a), classify_all(b));
}

/// A histogram over the five classifications.
#[derive(Clone, Copy, Debug, PartialEq, Eq)]
pub struct Histogram {
    null: i64,
    unknown: i64,
    string: i64,
    integer: i64,
    float: i64,
}

impl Histogram {
    #[verifier::type_invariant]
    spec fn well_formed(self) -> bool {
        &&& self.null >= 0
        &&& self.unknown >= 0
        &&& self.string >= 0
        &&& self.integer >= 0
        &&& self.float >= 0
        &&& self.null + self.unknown + self.string + self.integer + self.float <= i64::MAX
    }

    spec fn counter(self, key: Option<Field>) -> int {
        match key {
            None => self.null as int,
            Some(Field::Unknown) => self.unknown as int,
            Some(Field::String) => self.string as int,
            Some(Field::Integer) => self.integer as int,
            Some(Field::Float) => self.float as int,
        }
    }

    /// The entries of the histogram: the classifications that were recorded
    /// at least once, each with its count.
    pub closed spec fn view(self) -> Map<Option<Field>, int> {
        Map::new(|key: Option<Field>| self.counter(key) > 0, |key: Option<Field>| self.counter(key))
    }

    /// A histogram without entries.
    pub fn new() -> (h: Histogram)
        ensures
            h@ == Map::<Option<Field>, int>::empty(),
    {
        let h = Histogram { null: 0, unknown: 0, string: 0, integer: 0, float: 0 };
        assert(h@ =~= Map::<Option<Field>, int>::empty());
        h
    }

    /// Counts one more occurrence of `key`: its entry is created at zero if
    /// it is missing, and then raised by one.
    pub fn record(&mut self, key: &Option<Field>)
        requires
            total(old(self)@) < i64::MAX,
        ensures
            final(self)@ == old(self)@.insert(*key, count_in(old(self)@, *key) + 1),
    {
        proof {
            use_type_invariant(&*self);
        }
        match key {
            None => {
                self.null = self.null + 1;
            },
            Some(Field::Unknown) => {
                self.unknown = self.unknown + 1;
            },
            Some(Field::String) => {
                self.string = self.string + 1;
            },
            Some(Field::Integer) => {
                self.integer = self.integer + 1;
            },
            Some(Field::Float) => {
                self.float = self.float + 1;
            },
        }
        assert(self@ =~= old(self)@.insert(*key, count_in(old(self)@, *key) + 1));
    }

    /// The count of `key`, or `None` where it was never recorded.
    pub fn get(&self, key: &Option<Field>) -> (r: Option<i64>)
        ensures
            match r {
                Some(count) => self@.contains_key(*key) && self@[*key] == count,
                None => !self@.contains_key(*key),
            },
    {
        proof {
            use_type_invariant(self);
        }
        let count = match key {
            None => self.null,
            Some(Field::Unknown) => self.unknown,
            Some(Field::String) => self.string,
            Some(Field::Integer) => self.integer,
            Some(Field::Float) => self.float,
        };
        if count > 0 {
            Some(count)
        } else {
            None
        }
    }

    /// The sum of all counts.
    pub fn total(&self) -> (r: i64)
        ensures
            r == total(self@),
    {
        proof {
            use_type_invariant(self);
        }
        self.null + self.unknown + self.string + self.integer + self.float
    }
}

/// Tallies a sequence of classifications.
pub fn histogram(fields: &[Option<Field>]) -> (h: Histogram)
    requires
        fields@.len() <= i64::MAX,
    ensures
        h@ == tally(fields@),
        total(h@) == fields@.len(),
{
    let mut h = Histogram::new();
    let n = fields.len();
    let mut i: usize = 0;
    assert(tally(fields@.take(0)) =~= Map::<Option<Field>, int>::empty());
    while i < n
        invariant
            n == fields@.len(),
            n <= i64::MAX,
            i <= n,
            h@ == tally(fields@.take(i as int)),
        decreases n - i,
    {
        proof {
            lemma_tally_total(fields@.take(i as int));
            assert(fields@.take(i + 1).drop_last() =~= fields@.take(i as int));
        }
        h.record(&fields[i]);
        assert(h@ =~= tally(fields@.take(i + 1)));
        i += 1;
    }
    proof {
        assert(fields@.take(n as int) =~= fields@);
        lemma_tally_total(fields@);
    }
    h
}

} // verus!
