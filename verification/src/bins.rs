//! Executable binning engine: group values by key, count them, and return
//! the bins sorted by rank.

use vstd::prelude::*;
use crate::model::{
    BinInput, BinRecord, bump_count, count_key_in, find_key, first_rank, group_spec, has_key,
    place_by_rank, place_pos, sort_by_rank, sorted_by_rank, spec_bins, sum_counts, unique_keys,
};
use crate::props::{
    lemma_count_key_in_le_len, lemma_find_key_props, lemma_group_records, lemma_group_sum,
    lemma_place_is_insert, lemma_sort_multiset, lemma_sort_sorted, lemma_sort_sum,
    lemma_sort_unique,
};

verus! {

/// Grouping one more input either bumps the count of its key's record or
/// opens a new record at the end.
proof fn lemma_group_step(s: Seq<BinInput>, i: int)
    requires
        0 <= i < s.len(),
    ensures
        has_key(group_spec(s.take(i)), s[i].key as int) ==> group_spec(s.take(i + 1))
            == bump_count(
            group_spec(s.take(i)),
            find_key(group_spec(s.take(i)), s[i].key as int),
        ),
        !has_key(group_spec(s.take(i)), s[i].key as int) ==> group_spec(s.take(i + 1))
            == group_spec(s.take(i)).push((BinRecord { key: s[i].key, rank: s[i].rank, count: 1 })),
{
    let t = s.take(i + 1);
    assert(t.drop_last() =~= s.take(i));
    assert(t.last() == s[i]);
}

/// Sorting one more record places it into the sorted prefix.
proof fn lemma_sort_step(s: Seq<BinRecord>, i: int)
    requires
        0 <= i < s.len(),
    ensures
        sort_by_rank(s.take(i + 1)) == place_by_rank(s[i], sort_by_rank(s.take(i))),
{
    let t = s.take(i + 1);
    assert(t.drop_last() =~= s.take(i));
    assert(t.last() == s[i]);
}

/// Partition the values into fixed-width bins and return one record per
/// occupied bin, sorted by rank (that is, by ascending bin center).
///
/// The result is exactly `spec_bins` of the input: a tally of the inputs by
/// grouping key, where each record carries the rank of the first value that
/// fell in its bin, its key, and the number of values with that key; records
/// come out sorted by rank. A bin exists exactly for the keys that occur in
/// the input, so an empty input yields an empty result and the counts always
/// total the number of inputs.
pub fn compute_bins(values: &Vec<BinInput>) -> (out: Vec<BinRecord>)
    requires
        values@.len() <= u32::MAX,
    ensures
        out@ == spec_bins(values@),
        sorted_by_rank(out@),
        unique_keys(out@),
        sum_counts(out@) == values@.len(),
        forall|i: int|
            0 <= i < out@.len() ==> (#[trigger] out@[i]).count == count_key_in(
                values@,
                out@[i].key as int,
            ) && out@[i].count >= 1 && out@[i].rank as int == first_rank(
                values@,
                out@[i].key as int,
            ),
        forall|k: int| #[trigger] count_key_in(values@, k) > 0 <==> has_key(out@, k),
        values@.len() == 0 ==> out@.len() == 0,
{
    let ghost vs = values@;
    let mut recs: Vec<BinRecord> = Vec::new();
    let mut idx: usize = 0;
    while idx < values.len()
        invariant
            idx <= vs.len(),
            vs.len() <= u32::MAX,
            vs == values@,
            recs@ == group_spec(vs.take(idx as int)),
        decreases vs.len() - idx,
    {
        let x = values[idx];
        let k = x.key;
        let ghost prefix = vs.take(idx as int);
        let mut j: usize = 0;
        while j < recs.len() && recs[j].key != k
            invariant
                j <= recs@.len(),
                forall|m: int| 0 <= m < j ==> (#[trigger] recs@[m]).key != k,
            decreases recs@.len() - j,
        {
            j += 1;
        }
        proof {
            lemma_find_key_props(recs@, k as int);
            if j < recs@.len() {
                assert(recs@[j as int].key == k);
                assert(has_key(recs@, k as int));
            } else {
                assert(!has_key(recs@, k as int));
            }
            assert(j == find_key(recs@, k as int));
        }
        if j < recs.len() {
            let key_j = recs[j].key;
            let rank_j = recs[j].rank;
            let c = recs[j].count;
            proof {
                lemma_group_records(prefix);
                lemma_count_key_in_le_len(prefix, key_j as int);
                assert(c == count_key_in(prefix, key_j as int));
                assert(c < u32::MAX);
            }
            recs[j] = BinRecord { key: key_j, rank: rank_j, count: c + 1 };
            proof {
                assert(recs@ == bump_count(group_spec(prefix), j as int));
                lemma_group_step(vs, idx as int);
            }
        } else {
            recs.push(BinRecord { key: k, rank: x.rank, count: 1 });
            proof {
                lemma_group_step(vs, idx as int);
            }
        }
        idx += 1;
    }
    proof {
        assert(vs.take(vs.len() as int) =~= vs);
        assert(recs@ == group_spec(vs));
    }
    let ghost g = group_spec(vs);
    let mut out: Vec<BinRecord> = Vec::new();
    let mut i: usize = 0;
    while i < recs.len()
        invariant
            i <= recs@.len(),
            recs@ == g,
            out@ == sort_by_rank(g.take(i as int)),
        decreases recs@.len() - i,
    {
        let r = recs[i];
        let mut p: usize = 0;
        while p < out.len() && out[p].rank <= r.rank
            invariant
                p <= out@.len(),
                forall|m: int| 0 <= m < p ==> (#[trigger] out@[m]).rank <= r.rank,
            decreases out@.len() - p,
        {
            p += 1;
        }
        proof {
            lemma_place_is_insert(r, out@);
            let pos = place_pos(r, out@);
            if p < pos {
                assert(out@[p as int].rank <= r.rank);
                assert(out@[p as int].rank > r.rank);
            }
            if pos < p {
                assert(out@[pos].rank <= r.rank);
                assert(out@[pos].rank > r.rank);
            }
            assert(p == pos);
        }
        out.insert(p, r);
        proof {
            lemma_sort_step(g, i as int);
        }
        i += 1;
    }
    proof {
        assert(g.take(g.len() as int) =~= g);
        assert(out@ == sort_by_rank(g));
        lemma_group_records(vs);
        lemma_group_sum(vs);
        lemma_sort_multiset(g);
        lemma_sort_sorted(g);
        lemma_sort_unique(g);
        lemma_sort_sum(g);
        assert forall|i2: int|
            0 <= i2 < out@.len() implies (#[trigger] out@[i2]).count == count_key_in(
            vs,
            out@[i2].key as int,
        ) && out@[i2].count >= 1 && out@[i2].rank as int == first_rank(
            vs,
            out@[i2].key as int,
        ) by {
            assert(out@.contains(out@[i2]));
            assert(g.contains(out@[i2]));
            let w = choose|m: int| 0 <= m < g.len() && g[m] == out@[i2];
            assert(g[w] == out@[i2]);
        }
        assert forall|k: int| #[trigger] count_key_in(vs, k) > 0 <==> has_key(out@, k) by {
            if count_key_in(vs, k) > 0 {
                let wg = choose|m: int| 0 <= m < g.len() && g[m].key == k;
                assert(g.contains(g[wg]));
                assert(out@.contains(g[wg]));
                let wo = choose|m: int| 0 <= m < out@.len() && out@[m] == g[wg];
                assert(out@[wo].key == k);
                assert(has_key(out@, k));
            }
            if has_key(out@, k) {
                let wo = choose|m: int| 0 <= m < out@.len() && out@[m].key == k;
                assert(out@.contains(out@[wo]));
                assert(g.contains(out@[wo]));
                let wg = choose|m: int| 0 <= m < g.len() && g[m] == out@[wo];
                assert(g[wg].key == k);
                assert(has_key(g, k));
            }
        }
    }
    out
}

} // verus!
