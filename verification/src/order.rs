//! The order of keys: byte strings, compared byte by byte, a proper prefix
//! before what it is a prefix of.
use vstd::prelude::*;

verus! {

/// Whether `left` comes before `right`, given that they agree before
/// `from`.
pub open spec fn precedes_from(left: Seq<u8>, right: Seq<u8>, from: int) -> bool
    decreases left.len() - from,
{
    if from >= right.len() {
        false
    } else if from >= left.len() {
        true
    } else if left[from] != right[from] {
        left[from] < right[from]
    } else {
        precedes_from(left, right, from + 1)
    }
}

/// Whether `left` comes strictly before `right`.
pub open spec fn precedes(left: Seq<u8>, right: Seq<u8>) -> bool {
    precedes_from(left, right, 0)
}

/// Nothing comes before itself.
pub proof fn lemma_irreflexive(bytes: Seq<u8>, from: int)
    requires
        0 <= from,
    ensures
        !precedes_from(bytes, bytes, from),
    decreases bytes.len() - from,
{
    if from < bytes.len() {
        lemma_irreflexive(bytes, from + 1);
    }
}

/// What comes before something that comes before a third comes before the
/// third.
pub proof fn lemma_transitive(low: Seq<u8>, middle: Seq<u8>, high: Seq<u8>, from: int)
    requires
        0 <= from,
        precedes_from(low, middle, from),
        precedes_from(middle, high, from),
    ensures
        precedes_from(low, high, from),
    decreases low.len() - from,
{
    if from < low.len() && from < middle.len() && from < high.len() {
        if low[from] == middle[from] && middle[from] == high[from] {
            lemma_transitive(low, middle, high, from + 1);
        }
    }
}

/// How one byte string stands to another.
#[derive(Debug, Clone, Copy, PartialEq, Eq, Structural)]
pub enum Rank {
    Before,
    Same,
    After,
}

/// Finds how `left` stands to `right`.
pub fn rank_bytes(left: &[u8], right: &[u8]) -> (rank: Rank)
    ensures
        rank == Rank::Before <==> precedes(left@, right@),
        rank == Rank::Same <==> left@ == right@,
        rank == Rank::After <==> precedes(right@, left@),
{
    let mut at: usize = 0;
    while at < left.len() && at < right.len()
        invariant
            at <= left@.len(),
            at <= right@.len(),
            forall|k: int| 0 <= k < at ==> left@[k] == right@[k],
            precedes(left@, right@) == precedes_from(left@, right@, at as int),
            precedes(right@, left@) == precedes_from(right@, left@, at as int),
        decreases left@.len() - at,
    {
        if left[at] < right[at] {
            return Rank::Before;
        }
        if left[at] > right[at] {
            return Rank::After;
        }
        at += 1;
    }
    if at < right.len() {
        Rank::Before
    } else if at < left.len() {
        Rank::After
    } else {
        assert(left@ =~= right@);
        Rank::Same
    }
}

} // verus!
