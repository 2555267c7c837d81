//! Proved properties of the model: what the grouping pass and the sorting
//! pass of `spec_bins` guarantee record by record.

use vstd::prelude::*;
use crate::model::{
    BinInput, BinRecord, bump_count, count_key_in, find_key, first_rank, group_spec, has_key,
    place_by_rank, place_pos, sort_by_rank, sorted_by_rank, sum_counts, unique_keys,
};

verus! {

/// `find_key` returns the index of the first record with key `k`, or the
/// length when no record has it.
pub proof fn lemma_find_key_props(recs: Seq<BinRecord>, k: int)
    ensures
        !has_key(recs, k) ==> find_key(recs, k) == recs.len(),
        has_key(recs, k) ==> 0 <= find_key(recs, k) < recs.len() && recs[find_key(recs, k)].key
            == k && (forall|m: int| 0 <= m < find_key(recs, k) ==> recs[m].key != k),
    decreases recs.len(),
{
    if recs.len() == 0 {
    } else if recs[0].key == k {
    } else {
        let rest = recs.drop_first();
        lemma_find_key_props(rest, k);
        assert(forall|i: int| 0 <= i < rest.len() ==> rest[i] == recs[i + 1]);
        if has_key(recs, k) {
            let w = choose|i: int| 0 <= i < recs.len() && recs[i].key == k;
            assert(rest[w - 1].key == k);
            assert(has_key(rest, k));
        }
        if has_key(rest, k) {
            let w = choose|i: int| 0 <= i < rest.len() && rest[i].key == k;
            assert(recs[w + 1].key == k);
            assert(has_key(recs, k));
        }
        if has_key(recs, k) {
            let f = find_key(recs, k);
            assert(f == 1 + find_key(rest, k));
            assert(recs[f].key == k);
            assert forall|m: int| 0 <= m < f implies recs[m].key != k by {
                if m > 0 {
                    assert(rest[m - 1] == recs[m]);
                    assert(rest[m - 1].key != k);
                }
            }
        }
    }
}

/// A key occurs at most as many times as there are inputs.
pub proof fn lemma_count_key_in_le_len(s: Seq<BinInput>, k: int)
    ensures
        0 <= count_key_in(s, k) <= s.len(),
    decreases s.len(),
{
    if s.len() > 0 {
        lemma_count_key_in_le_len(s.drop_last(), k);
    }
}

/// The grouping pass is exactly a tally by key: keys are unique, each
/// record's count is the number of inputs with its key, each record's rank
/// is the rank of the first such input, and a key has a record exactly when
/// some input carries it.
pub proof fn lemma_group_records(s: Seq<BinInput>)
    requires
        s.len() <= u32::MAX,
    ensures
        unique_keys(group_spec(s)),
        forall|idx: int|
            0 <= idx < group_spec(s).len() ==> {
                let r = #[trigger] group_spec(s)[idx];
                r.count == count_key_in(s, r.key as int) && r.count >= 1 && r.rank as int
                    == first_rank(s, r.key as int)
            },
        forall|k: int| #[trigger] count_key_in(s, k) > 0 <==> has_key(group_spec(s), k),
    decreases s.len(),
{
    if s.len() == 0 {
        assert(forall|k: int| !has_key(group_spec(s), k));
    } else {
        let dl = s.drop_last();
        let x = s.last();
        let prev = group_spec(dl);
        let g = group_spec(s);
        let kx = x.key as int;
        lemma_group_records(dl);
        if has_key(prev, kx) {
            lemma_find_key_props(prev, kx);
            let f = find_key(prev, kx);
            assert(g == bump_count(prev, f));
            assert(g.len() == prev.len());
            assert(forall|i: int| 0 <= i < g.len() ==> g[i].key == prev[i].key);
            assert(forall|i: int| 0 <= i < g.len() && i != f ==> g[i] == prev[i]);
            // the tally is bounded by the length, which the counter can
            // hold, so the addition in `bump_count` does not wrap
            assert(prev[f].count < u32::MAX) by {
                lemma_count_key_in_le_len(dl, kx);
            }
            assert(g[f].count == prev[f].count + 1);
            assert(g[f].rank == prev[f].rank);
            assert(unique_keys(g));
            assert forall|idx: int| 0 <= idx < g.len() implies {
                let r = #[trigger] g[idx];
                r.count == count_key_in(s, r.key as int) && r.count >= 1 && r.rank as int
                    == first_rank(s, r.key as int)
            } by {
                let r = g[idx];
                let rk = r.key as int;
                if idx == f {
                    assert(rk == kx);
                    assert(count_key_in(s, kx) == count_key_in(dl, kx) + 1);
                    assert(prev[idx].count == count_key_in(dl, kx));
                    assert(count_key_in(dl, kx) > 0);
                    assert(first_rank(s, kx) == first_rank(dl, kx));
                } else {
                    assert(r == prev[idx]);
                    assert(rk != kx);
                    assert(count_key_in(s, rk) == count_key_in(dl, rk));
                    assert(prev[idx].count == count_key_in(dl, rk));
                    assert(count_key_in(dl, rk) > 0);
                    assert(first_rank(s, rk) == first_rank(dl, rk));
                }
            }
            assert forall|k: int| #[trigger] count_key_in(s, k) > 0 <==> has_key(g, k) by {
                if k == kx {
                    assert(count_key_in(s, kx) == count_key_in(dl, kx) + 1);
                    assert(count_key_in(dl, kx) >= 0) by {
                        lemma_count_key_in_le_len(dl, kx);
                    }
                    assert(g[f].key == kx);
                    assert(has_key(g, k));
                } else {
                    assert(count_key_in(s, k) == count_key_in(dl, k));
                    if has_key(g, k) {
                        let w = choose|i: int| 0 <= i < g.len() && g[i].key == k;
                        assert(prev[w].key == k);
                        assert(has_key(prev, k));
                    }
                    if has_key(prev, k) {
                        let w = choose|i: int| 0 <= i < prev.len() && prev[i].key == k;
                        assert(g[w].key == k);
                        assert(has_key(g, k));
                    }
                }
            }
        } else {
            let newrec = BinRecord { key: x.key, rank: x.rank, count: 1 };
            assert(g == prev.push(newrec));
            assert(forall|i: int| 0 <= i < prev.len() ==> g[i] == prev[i]);
            assert(g[prev.len() as int] == newrec);
            assert(forall|i: int| 0 <= i < prev.len() ==> prev[i].key != x.key);
            assert(unique_keys(g));
            assert(count_key_in(dl, kx) <= 0);
            assert(count_key_in(dl, kx) == 0) by {
                lemma_count_key_in_le_len(dl, kx);
            }
            assert forall|idx: int| 0 <= idx < g.len() implies {
                let r = #[trigger] g[idx];
                r.count == count_key_in(s, r.key as int) && r.count >= 1 && r.rank as int
                    == first_rank(s, r.key as int)
            } by {
                let r = g[idx];
                let rk = r.key as int;
                if idx == prev.len() {
                    assert(r == newrec);
                    assert(count_key_in(s, kx) == count_key_in(dl, kx) + 1);
                    assert(first_rank(s, kx) == x.rank as int);
                } else {
                    assert(r == prev[idx]);
                    assert(rk != kx);
                    assert(count_key_in(s, rk) == count_key_in(dl, rk));
                    assert(count_key_in(dl, rk) > 0);
                    assert(first_rank(s, rk) == first_rank(dl, rk));
                }
            }
            assert forall|k: int| #[trigger] count_key_in(s, k) > 0 <==> has_key(g, k) by {
                if k == kx {
                    assert(count_key_in(s, kx) == 1);
                    assert(g[prev.len() as int].key == kx);
                    assert(has_key(g, k));
                } else {
                    assert(count_key_in(s, k) == count_key_in(dl, k));
                    if has_key(g, k) {
                        let w = choose|i: int| 0 <= i < g.len() && g[i].key == k;
                        assert(w != prev.len());
                        assert(prev[w].key == k);
                        assert(has_key(prev, k));
                    }
                    if has_key(prev, k) {
                        let w = choose|i: int| 0 <= i < prev.len() && prev[i].key == k;
                        assert(g[w].key == k);
                        assert(has_key(g, k));
                    }
                }
            }
        }
    }
}

/// Placing a record is inserting it at `place_pos`: before the first record
/// of strictly greater rank, after every record of equal or smaller rank.
pub proof fn lemma_place_is_insert(r: BinRecord, s: Seq<BinRecord>)
    ensures
        0 <= place_pos(r, s) <= s.len(),
        place_by_rank(r, s) == s.insert(place_pos(r, s), r),
        forall|m: int| 0 <= m < place_pos(r, s) ==> s[m].rank <= r.rank,
        place_pos(r, s) < s.len() ==> s[place_pos(r, s)].rank > r.rank,
    decreases s.len(),
{
    let pos = place_pos(r, s);
    if s.len() == 0 {
        assert(place_by_rank(r, s) =~= s.insert(0, r));
    } else if s[0].rank > r.rank {
        assert(place_by_rank(r, s) =~= s.insert(0, r));
    } else {
        let rest = s.drop_first();
        lemma_place_is_insert(r, rest);
        assert(forall|i: int| 0 <= i < rest.len() ==> rest[i] == s[i + 1]);
        assert(place_by_rank(r, s) =~= s.insert(pos, r)) by {
            rest.insert_ensures(pos - 1, r);
            s.insert_ensures(pos, r);
        }
        assert forall|m: int| 0 <= m < pos implies s[m].rank <= r.rank by {
            if m > 0 {
                assert(rest[m - 1].rank <= r.rank);
            }
        }
        if pos < s.len() {
            assert(s[pos].rank == rest[pos - 1].rank);
        }
    }
}

/// Placing a record adds exactly one copy of it and keeps everything else.
pub proof fn lemma_place_multiset(r: BinRecord, s: Seq<BinRecord>)
    ensures
        place_by_rank(r, s).to_multiset() == s.to_multiset().insert(r),
        place_by_rank(r, s).len() == s.len() + 1,
{
    broadcast use vstd::seq_lib::group_to_multiset_ensures;

    lemma_place_is_insert(r, s);
}

/// Sorting keeps exactly the records of its input.
pub proof fn lemma_sort_multiset(s: Seq<BinRecord>)
    ensures
        sort_by_rank(s).to_multiset() == s.to_multiset(),
        sort_by_rank(s).len() == s.len(),
        forall|x: BinRecord| #[trigger] sort_by_rank(s).contains(x) <==> s.contains(x),
    decreases s.len(),
{
    broadcast use vstd::seq_lib::group_to_multiset_ensures;
    broadcast use vstd::multiset::group_multiset_axioms;

    if s.len() == 0 {
        assert(s =~= Seq::<BinRecord>::empty());
    } else {
        let dl = s.drop_last();
        lemma_sort_multiset(dl);
        lemma_place_multiset(s.last(), sort_by_rank(dl));
        assert(s =~= dl.push(s.last()));
        assert(sort_by_rank(s).to_multiset() =~= s.to_multiset());
    }
    assert forall|x: BinRecord| #[trigger] sort_by_rank(s).contains(x) <==> s.contains(x) by {
        assert(sort_by_rank(s).to_multiset().count(x) == s.to_multiset().count(x));
    }
}

/// Placing into a rank-sorted sequence keeps it rank-sorted.
pub proof fn lemma_place_sorted(r: BinRecord, s: Seq<BinRecord>)
    requires
        sorted_by_rank(s),
    ensures
        sorted_by_rank(place_by_rank(r, s)),
{
    lemma_place_is_insert(r, s);
    let pos = place_pos(r, s);
    let t = place_by_rank(r, s);
    s.insert_ensures(pos, r);
    assert forall|i: int, j: int| 0 <= i < j < t.len() implies t[i].rank <= t[j].rank by {
        if i < pos && j < pos {
        } else if i == pos && j > pos {
            // t[i] is r; s[j - 1] has rank > r.rank or sits at or past pos
            assert(t[j] == s[j - 1]);
            assert(s[pos].rank > r.rank);
            assert(s[pos].rank <= s[j - 1].rank);
        } else if i < pos && j == pos {
            assert(t[i] == s[i]);
            assert(s[i].rank <= r.rank);
        } else if i < pos && j > pos {
            assert(t[i] == s[i]);
            assert(t[j] == s[j - 1]);
        } else if i > pos {
            assert(t[i] == s[i - 1]);
            assert(t[j] == s[j - 1]);
        }
    }
}

/// Sorting sorts: the result is non-decreasing in rank.
pub proof fn lemma_sort_sorted(s: Seq<BinRecord>)
    ensures
        sorted_by_rank(sort_by_rank(s)),
    decreases s.len(),
{
    if s.len() > 0 {
        lemma_sort_sorted(s.drop_last());
        lemma_place_sorted(s.last(), sort_by_rank(s.drop_last()));
    }
}

/// Sorting keeps grouping keys unique.
pub proof fn lemma_sort_unique(s: Seq<BinRecord>)
    requires
        unique_keys(s),
    ensures
        unique_keys(sort_by_rank(s)),
{
    broadcast use vstd::seq_lib::group_to_multiset_ensures;

    lemma_sort_multiset(s);
    let t = sort_by_rank(s);
    assert(s.no_duplicates());
    s.lemma_multiset_has_no_duplicates();
    t.lemma_multiset_has_no_duplicates_conv();
    assert forall|i: int, j: int| 0 <= i < j < t.len() implies t[i].key != t[j].key by {
        assert(t[i] != t[j]);
        assert(t.contains(t[i]));
        assert(t.contains(t[j]));
        let wi = choose|m: int| 0 <= m < s.len() && s[m] == t[i];
        let wj = choose|m: int| 0 <= m < s.len() && s[m] == t[j];
        assert(s[wi] == t[i] && s[wj] == t[j]);
        assert(wi != wj);
    }
}

/// Appending a record adds its count to the total.
pub proof fn lemma_sum_push(s: Seq<BinRecord>, r: BinRecord)
    ensures
        sum_counts(s.push(r)) == sum_counts(s) + r.count,
{
    assert(s.push(r).drop_last() =~= s);
    assert(s.push(r).last() == r);
}

/// The total count splits over concatenation.
pub proof fn lemma_sum_concat(a: Seq<BinRecord>, b: Seq<BinRecord>)
    ensures
        sum_counts(a + b) == sum_counts(a) + sum_counts(b),
    decreases b.len(),
{
    if b.len() == 0 {
        assert(a + b =~= a);
    } else {
        lemma_sum_concat(a, b.drop_last());
        assert((a + b).drop_last() =~= a + b.drop_last());
        assert((a + b).last() == b.last());
    }
}

/// Inserting a record adds its count to the total.
pub proof fn lemma_sum_insert(s: Seq<BinRecord>, i: int, r: BinRecord)
    requires
        0 <= i <= s.len(),
    ensures
        sum_counts(s.insert(i, r)) == sum_counts(s) + r.count,
{
    let front = s.subrange(0, i);
    let back = s.subrange(i, s.len() as int);
    assert(s.insert(i, r) == front.push(r) + back);
    lemma_sum_concat(front.push(r), back);
    lemma_sum_push(front, r);
    lemma_sum_concat(front, back);
    assert(s =~= front + back);
}

/// Raising one record's count by one raises the total by one.
pub proof fn lemma_sum_bump(s: Seq<BinRecord>, i: int)
    requires
        0 <= i < s.len(),
        s[i].count < u32::MAX,
    ensures
        sum_counts(bump_count(s, i)) == sum_counts(s) + 1,
{
    let r = BinRecord { key: s[i].key, rank: s[i].rank, count: (s[i].count + 1) as u32 };
    let t = s.update(i, r);
    assert(t =~= s.take(i).push(r) + s.skip(i + 1));
    assert(s =~= s.take(i).push(s[i]) + s.skip(i + 1));
    lemma_sum_concat(s.take(i).push(r), s.skip(i + 1));
    lemma_sum_concat(s.take(i).push(s[i]), s.skip(i + 1));
    lemma_sum_push(s.take(i), r);
    lemma_sum_push(s.take(i), s[i]);
}

/// The grouping pass conserves the number of inputs: the counts of the bins
/// total exactly the length of the input.
pub proof fn lemma_group_sum(s: Seq<BinInput>)
    requires
        s.len() <= u32::MAX,
    ensures
        sum_counts(group_spec(s)) == s.len(),
    decreases s.len(),
{
    if s.len() > 0 {
        let dl = s.drop_last();
        let x = s.last();
        let prev = group_spec(dl);
        lemma_group_sum(dl);
        if has_key(prev, x.key as int) {
            lemma_find_key_props(prev, x.key as int);
            let f = find_key(prev, x.key as int);
            lemma_group_records(dl);
            lemma_count_key_in_le_len(dl, x.key as int);
            assert(prev[f].count < u32::MAX);
            lemma_sum_bump(prev, f);
        } else {
            lemma_sum_push(prev, BinRecord { key: x.key, rank: x.rank, count: 1 });
        }
    }
}

/// Sorting conserves the total count.
pub proof fn lemma_sort_sum(s: Seq<BinRecord>)
    ensures
        sum_counts(sort_by_rank(s)) == sum_counts(s),
    decreases s.len(),
{
    if s.len() > 0 {
        let dl = s.drop_last();
        lemma_sort_sum(dl);
        lemma_place_is_insert(s.last(), sort_by_rank(dl));
        lemma_sum_insert(sort_by_rank(dl), place_pos(s.last(), sort_by_rank(dl)), s.last());
        assert(s =~= dl.push(s.last()));
        lemma_sum_push(dl, s.last());
    }
}

} // verus!
