//! General laws of the binning engine, stated over the model `spec_bins`
//! that `compute_bins` is proved to return.

use vstd::prelude::*;
use crate::model::{
    BinInput, BinRecord, count_key_in, first_rank, group_spec, has_key, sort_by_rank,
    sorted_by_rank, spec_bins, sum_counts,
};
use crate::props::{
    lemma_group_records, lemma_group_sum, lemma_sort_multiset, lemma_sort_sorted, lemma_sort_sum,
    lemma_sort_unique,
};

verus! {

/// Determinism: the engine's result is a function of its input alone, so two
/// results obtained from the same input are the same sequence.
pub proof fn lemma_bins_deterministic(s: Seq<BinInput>, out1: Seq<BinRecord>, out2: Seq<BinRecord>)
    requires
        out1 == spec_bins(s),
        out2 == spec_bins(s),
    ensures
        out1 == out2,
{
}

/// Count conservation: the counts of the output records total exactly the
/// number of input values.
pub proof fn lemma_count_conservation(s: Seq<BinInput>)
    requires
        s.len() <= u32::MAX,
    ensures
        sum_counts(spec_bins(s)) == s.len(),
{
    lemma_group_sum(s);
    lemma_sort_sum(group_spec(s));
}

/// Each value's bin key determines its bin rank and the rank determines the
/// key: distinct bins never share a center rank and one bin never spans two
/// ranks. This holds of any input whose ranks are an injective monotone
/// image of its keys, as they are when both derive from one positive width.
pub open spec fn keys_match_ranks(s: Seq<BinInput>) -> bool {
    forall|x: BinInput, y: BinInput|
        #[trigger] s.contains(x) && #[trigger] s.contains(y) ==> ((x.key == y.key) <==> (x.rank
            == y.rank))
}

/// Removing one element removes one tally mark of its key.
proof fn lemma_count_key_in_remove(s: Seq<BinInput>, i: int, k: int)
    requires
        0 <= i < s.len(),
    ensures
        count_key_in(s, k) == count_key_in(s.remove(i), k) + if s[i].key == k {
            1int
        } else {
            0int
        },
    decreases s.len(),
{
    if i == s.len() - 1 {
        assert(s.remove(i) =~= s.drop_last());
    } else {
        let dl = s.drop_last();
        lemma_count_key_in_remove(dl, i, k);
        assert(s.remove(i).drop_last() =~= dl.remove(i));
        assert(s.remove(i).last() == s.last());
        assert(dl[i] == s[i]);
    }
}

/// The tally of a key depends only on which values occur how often, not on
/// their order.
proof fn lemma_count_key_in_permutation(s1: Seq<BinInput>, s2: Seq<BinInput>, k: int)
    requires
        s1.to_multiset() == s2.to_multiset(),
    ensures
        count_key_in(s1, k) == count_key_in(s2, k),
    decreases s1.len(),
{
    broadcast use vstd::seq_lib::group_to_multiset_ensures;
    broadcast use vstd::multiset::group_multiset_axioms;

    vstd::seq_lib::to_multiset_len(s1);
    vstd::seq_lib::to_multiset_len(s2);
    if s1.len() == 0 {
        assert(s2.len() == 0);
    } else {
        let dl1 = s1.drop_last();
        let x = s1.last();
        assert(s1 =~= dl1.push(x));
        assert(s1.to_multiset() == dl1.push(x).to_multiset());
        assert(s2.to_multiset().count(x) > 0);
        assert(s2.contains(x));
        let i = choose|m: int| 0 <= m < s2.len() && s2[m] == x;
        assert(s2.remove(i).to_multiset() =~= s2.to_multiset().remove(x));
        assert(dl1.to_multiset() =~= s2.remove(i).to_multiset()) by {
            assert forall|y: BinInput|
                dl1.to_multiset().count(y) == s2.remove(i).to_multiset().count(y) by {
                assert(dl1.push(x).to_multiset().count(y) == dl1.to_multiset().insert(x).count(y));
            }
        }
        lemma_count_key_in_permutation(dl1, s2.remove(i), k);
        lemma_count_key_in_remove(s2, i, k);
    }
}

/// The rank a bin reports is the rank of one of the values with its key.
proof fn lemma_first_rank_witness(s: Seq<BinInput>, k: int)
    requires
        count_key_in(s, k) > 0,
    ensures
        exists|x: BinInput|
            #[trigger] s.contains(x) && x.key == k && x.rank as int == first_rank(s, k),
    decreases s.len(),
{
    let dl = s.drop_last();
    if count_key_in(dl, k) > 0 {
        lemma_first_rank_witness(dl, k);
        let x = choose|x: BinInput|
            #[trigger] dl.contains(x) && x.key == k && x.rank as int == first_rank(dl, k);
        let w = choose|m: int| 0 <= m < dl.len() && dl[m] == x;
        assert(s[w] == x);
        assert(s.contains(x));
    } else {
        assert(s.last().key == k);
        assert(s.contains(s.last()));
    }
}

/// Two rank-sorted sequences with pairwise distinct ranks and the same
/// members are the same sequence.
proof fn lemma_strictly_sorted_same_members(a: Seq<BinRecord>, b: Seq<BinRecord>)
    requires
        sorted_by_rank(a),
        sorted_by_rank(b),
        forall|i: int, j: int| 0 <= i < j < a.len() ==> a[i].rank != a[j].rank,
        forall|i: int, j: int| 0 <= i < j < b.len() ==> b[i].rank != b[j].rank,
        forall|x: BinRecord| #[trigger] a.contains(x) <==> b.contains(x),
    ensures
        a == b,
    decreases a.len(),
{
    if a.len() == 0 {
        if b.len() > 0 {
            assert(b.contains(b[0]));
            assert(a.contains(b[0]));
        }
        assert(a =~= b);
    } else {
        assert(a.contains(a[0]));
        assert(b.contains(a[0]));
        let j = choose|m: int| 0 <= m < b.len() && b[m] == a[0];
        assert(b.contains(b[0]));
        assert(a.contains(b[0]));
        let i = choose|m: int| 0 <= m < a.len() && a[m] == b[0];
        assert(b[0].rank <= b[j].rank);
        assert(a[0].rank <= a[i].rank);
        assert(a[0].rank == b[0].rank);
        assert(i == 0);
        assert(a[0] == b[0]);
        let at = a.drop_first();
        let bt = b.drop_first();
        assert(forall|m: int| 0 <= m < at.len() ==> at[m] == a[m + 1]);
        assert(forall|m: int| 0 <= m < bt.len() ==> bt[m] == b[m + 1]);
        assert forall|x: BinRecord| #[trigger] at.contains(x) <==> bt.contains(x) by {
            if at.contains(x) {
                let m = choose|m: int| 0 <= m < at.len() && at[m] == x;
                assert(a[m + 1] == x);
                assert(a.contains(x));
                assert(b.contains(x));
                let n = choose|n: int| 0 <= n < b.len() && b[n] == x;
                assert(x.rank > a[0].rank);
                assert(n != 0);
                assert(bt[n - 1] == x);
                assert(bt.contains(x));
            }
            if bt.contains(x) {
                let m = choose|m: int| 0 <= m < bt.len() && bt[m] == x;
                assert(b[m + 1] == x);
                assert(b.contains(x));
                assert(a.contains(x));
                let n = choose|n: int| 0 <= n < a.len() && a[n] == x;
                assert(x.rank > b[0].rank);
                assert(n != 0);
                assert(at[n - 1] == x);
                assert(at.contains(x));
            }
        }
        lemma_strictly_sorted_same_members(at, bt);
        assert(a.len() == b.len());
        assert forall|m: int| 0 <= m < a.len() implies a[m] == b[m] by {
            if m > 0 {
                assert(at[m - 1] == a[m]);
                assert(bt[m - 1] == b[m]);
            }
        }
        assert(a =~= b);
    }
}

/// Order independence: permuting the input does not change the output, as
/// long as keys and ranks identify the same bins. (When one key spans two
/// ranks, the reported rank is the first value's and so depends on the
/// order; when two keys share a rank, the tie order between their bins
/// does.)
pub proof fn lemma_order_independence(s1: Seq<BinInput>, s2: Seq<BinInput>)
    requires
        s1.len() <= u32::MAX,
        s1.to_multiset() == s2.to_multiset(),
        keys_match_ranks(s1),
    ensures
        spec_bins(s1) == spec_bins(s2),
{
    broadcast use vstd::seq_lib::group_to_multiset_ensures;

    vstd::seq_lib::to_multiset_len(s1);
    vstd::seq_lib::to_multiset_len(s2);
    assert(s2.len() == s1.len());
    // the two inputs hold the same values, so alignment carries over
    assert forall|x: BinInput| #[trigger] s2.contains(x) implies s1.contains(x) by {
        assert(s1.to_multiset().count(x) > 0);
    }
    assert(keys_match_ranks(s2));
    let t1 = spec_bins(s1);
    let t2 = spec_bins(s2);
    lemma_group_records(s1);
    lemma_group_records(s2);
    lemma_sort_multiset(group_spec(s1));
    lemma_sort_multiset(group_spec(s2));
    lemma_sort_sorted(group_spec(s1));
    lemma_sort_sorted(group_spec(s2));
    lemma_sort_unique(group_spec(s1));
    lemma_sort_unique(group_spec(s2));
    // each output record is the full tally of its key, with the rank all
    // values of that key share
    assert forall|r: BinRecord| #[trigger] t1.contains(r) <==> t2.contains(r) by {
        lemma_records_characterized(s1, r);
        lemma_records_characterized(s2, r);
        lemma_count_key_in_permutation(s1, s2, r.key as int);
        if count_key_in(s1, r.key as int) > 0 {
            lemma_first_rank_witness(s1, r.key as int);
            lemma_first_rank_witness(s2, r.key as int);
            let x1 = choose|x: BinInput|
                #[trigger] s1.contains(x) && x.key == r.key && x.rank as int == first_rank(
                    s1,
                    r.key as int,
                );
            let x2 = choose|x: BinInput|
                #[trigger] s2.contains(x) && x.key == r.key && x.rank as int == first_rank(
                    s2,
                    r.key as int,
                );
            assert(s1.contains(x2));
            assert(x1.rank == x2.rank);
            assert(first_rank(s1, r.key as int) == first_rank(s2, r.key as int));
        }
    }
    // distinct bins have distinct ranks, so each sorted output is the one
    // strictly rank-ordered arrangement of the same records
    lemma_ranks_strict(s1);
    lemma_ranks_strict(s2);
    lemma_strictly_sorted_same_members(t1, t2);
}

/// A record is in the output exactly when it is the full tally of its key:
/// the key occurs, the count is the key's tally, and the rank is the first
/// occurrence's rank.
proof fn lemma_records_characterized(s: Seq<BinInput>, r: BinRecord)
    requires
        s.len() <= u32::MAX,
    ensures
        spec_bins(s).contains(r) <==> (count_key_in(s, r.key as int) == r.count && r.count > 0
            && r.rank as int == first_rank(s, r.key as int)),
{
    let g = group_spec(s);
    let t = spec_bins(s);
    lemma_group_records(s);
    lemma_sort_multiset(g);
    if t.contains(r) {
        let w = choose|m: int| 0 <= m < g.len() && g[m] == r;
        assert(g[w] == r);
    }
    if count_key_in(s, r.key as int) == r.count && r.count > 0 && r.rank as int == first_rank(
        s,
        r.key as int,
    ) {
        assert(has_key(g, r.key as int));
        let w = choose|m: int| 0 <= m < g.len() && g[m].key == r.key;
        assert(g[w].count == count_key_in(s, g[w].key as int));
        assert(g[w].rank as int == first_rank(s, g[w].key as int));
        assert(g[w] == r);
        assert(g.contains(r));
    }
}

/// Under key-rank alignment the output's ranks are pairwise distinct.
proof fn lemma_ranks_strict(s: Seq<BinInput>)
    requires
        s.len() <= u32::MAX,
        keys_match_ranks(s),
    ensures
        forall|i: int, j: int|
            0 <= i < j < spec_bins(s).len() ==> spec_bins(s)[i].rank != spec_bins(s)[j].rank,
{
    let g = group_spec(s);
    let t = spec_bins(s);
    lemma_group_records(s);
    lemma_sort_multiset(g);
    lemma_sort_unique(g);
    assert forall|i: int, j: int| 0 <= i < j < t.len() implies t[i].rank != t[j].rank by {
        assert(t.contains(t[i]));
        assert(t.contains(t[j]));
        lemma_records_characterized(s, t[i]);
        lemma_records_characterized(s, t[j]);
        lemma_first_rank_witness(s, t[i].key as int);
        lemma_first_rank_witness(s, t[j].key as int);
        let xi = choose|x: BinInput|
            #[trigger] s.contains(x) && x.key == t[i].key && x.rank as int == first_rank(
                s,
                t[i].key as int,
            );
        let xj = choose|x: BinInput|
            #[trigger] s.contains(x) && x.key == t[j].key && x.rank as int == first_rank(
                s,
                t[j].key as int,
            );
        assert(t[i].key != t[j].key);
        assert(xi.key != xj.key);
        assert(xi.rank != xj.rank);
    }
}

} // verus!
