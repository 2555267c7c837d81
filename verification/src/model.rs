//! Mathematical model of the binning engine: the input and output record
//! types and the spec-level description of grouping and sorting.

use vstd::prelude::*;

verus! {

/// One input value, reduced to the two integers the engine reads.
///
/// `key` is the grouping key: values with equal keys share a bin. `rank` is
/// the position of the value's bin on the origin-shifted center grid; the
/// reported center grows with it, so bins are ordered by rank.
#[derive(Clone, Copy, PartialEq, Eq, Structural, Debug)]
pub struct BinInput {
    pub key: i32,
    pub rank: i64,
}

/// One output bin: its grouping key, the rank of the value that opened it
/// (which determines the reported center), and how many values fell in it.
#[derive(Clone, Copy, PartialEq, Eq, Structural, Debug)]
pub struct BinRecord {
    pub key: i32,
    pub rank: i64,
    pub count: u32,
}

/// Index of the first record with grouping key `k`, or `recs.len()` if none.
pub open spec fn find_key(recs: Seq<BinRecord>, k: int) -> int
    decreases recs.len(),
{
    if recs.len() == 0 {
        0
    } else if recs[0].key == k {
        0
    } else {
        1 + find_key(recs.drop_first(), k)
    }
}

/// Whether some record carries grouping key `k`.
pub open spec fn has_key(recs: Seq<BinRecord>, k: int) -> bool {
    exists|i: int| 0 <= i < recs.len() && recs[i].key == k
}

/// The record at `i` with its count one higher.
pub open spec fn bump_count(recs: Seq<BinRecord>, i: int) -> Seq<BinRecord> {
    recs.update(
        i,
        BinRecord { key: recs[i].key, rank: recs[i].rank, count: (recs[i].count + 1) as u32 },
    )
}

/// How many inputs carry grouping key `k`.
pub open spec fn count_key_in(s: Seq<BinInput>, k: int) -> int
    decreases s.len(),
{
    if s.len() == 0 {
        0
    } else {
        count_key_in(s.drop_last(), k) + if s.last().key == k {
            1int
        } else {
            0int
        }
    }
}

/// The rank of the first input whose grouping key is `k` (0 if none).
pub open spec fn first_rank(s: Seq<BinInput>, k: int) -> int
    decreases s.len(),
{
    if s.len() == 0 {
        0
    } else if count_key_in(s.drop_last(), k) > 0 {
        first_rank(s.drop_last(), k)
    } else if s.last().key == k {
        s.last().rank as int
    } else {
        0
    }
}

/// The bins of `s` in order of first occurrence of their keys: a new key
/// opens a record with count 1 and the opening value's rank; a repeated key
/// raises the count of its record.
pub open spec fn group_spec(s: Seq<BinInput>) -> Seq<BinRecord>
    decreases s.len(),
{
    if s.len() == 0 {
        Seq::empty()
    } else {
        let prev = group_spec(s.drop_last());
        let x = s.last();
        if has_key(prev, x.key as int) {
            bump_count(prev, find_key(prev, x.key as int))
        } else {
            prev.push(BinRecord { key: x.key, rank: x.rank, count: 1 })
        }
    }
}

/// `r` inserted before the first record of strictly greater rank, so that a
/// record entering later never overtakes an equal-ranked one (stability).
pub open spec fn place_by_rank(r: BinRecord, s: Seq<BinRecord>) -> Seq<BinRecord>
    decreases s.len(),
{
    if s.len() == 0 {
        seq![r]
    } else if s[0].rank > r.rank {
        seq![r] + s
    } else {
        seq![s[0]] + place_by_rank(r, s.drop_first())
    }
}

/// The position at which `place_by_rank` puts `r`: the index of the first
/// record of strictly greater rank, or `s.len()` if none.
pub open spec fn place_pos(r: BinRecord, s: Seq<BinRecord>) -> int
    decreases s.len(),
{
    if s.len() == 0 {
        0
    } else if s[0].rank > r.rank {
        0
    } else {
        1 + place_pos(r, s.drop_first())
    }
}

/// Stable insertion sort by rank.
pub open spec fn sort_by_rank(s: Seq<BinRecord>) -> Seq<BinRecord>
    decreases s.len(),
{
    if s.len() == 0 {
        Seq::empty()
    } else {
        place_by_rank(s.last(), sort_by_rank(s.drop_last()))
    }
}

/// The whole engine: group by key in first-occurrence order, then sort the
/// bins by rank.
pub open spec fn spec_bins(s: Seq<BinInput>) -> Seq<BinRecord> {
    sort_by_rank(group_spec(s))
}

/// Ranks never decrease along the sequence.
pub open spec fn sorted_by_rank(s: Seq<BinRecord>) -> bool {
    forall|i: int, j: int| 0 <= i < j < s.len() ==> s[i].rank <= s[j].rank
}

/// No two records share a grouping key.
pub open spec fn unique_keys(s: Seq<BinRecord>) -> bool {
    forall|i: int, j: int| 0 <= i < j < s.len() ==> s[i].key != s[j].key
}

/// Total number of values counted across all records.
pub open spec fn sum_counts(s: Seq<BinRecord>) -> int
    decreases s.len(),
{
    if s.len() == 0 {
        0
    } else {
        sum_counts(s.drop_last()) + s.last().count
    }
}

} // verus!
