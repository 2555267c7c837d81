use binner::bins::compute_bins;
use binner::model::{BinInput, BinRecord};

/// Reduce raw values to the integers the engine reads: the grouping key
/// `floor(v / width)` and the center rank `floor((v - origin) / width)`.
fn to_inputs(vals: &[f64], width: f64, origin: f64) -> Vec<BinInput> {
    let mut out = Vec::new();
    for &v in vals {
        out.push(BinInput { key: (v / width).floor() as i32, rank: ((v - origin) / width).floor() as i64 });
    }
    out
}

/// Recover the reported (center, count) pairs from the engine's records.
fn to_pairs(records: &[BinRecord], width: f64, origin: f64) -> Vec<(f64, u32)> {
    records.iter().map(|r| (width * (r.rank as f64 + 0.5) + origin, r.count)).collect()
}

fn bins(vals: &[f64], width: f64, origin: f64) -> Vec<(f64, u32)> {
    to_pairs(&compute_bins(&to_inputs(vals, width, origin)), width, origin)
}

#[test]
fn sequence() {
    // bin 10 numbers. bin edges start at binwdith / 2 intervals
    let vals = vec![1.0, 1.5, 2.0, 2.5, 3.0, 3.5, 4.0, 4.5, 5.0, 5.5];
    let out = vec![(1.5, 2), (2.5, 2), (3.5, 2), (4.5, 2), (5.5, 2)];
    assert_eq!(bins(&vals, 1.0, 1.0), out);
}

#[test]
fn unordered() {
    let vals = vec![1.0, 55.6, -15.2, 55.9];
    let out = vec![(-15.5, 1), (1.5, 1), (55.5, 2)];
    assert_eq!(bins(&vals, 1.0, 1.0), out);
}

#[test]
fn single_value_center() {
    // center formula: 2.0 * (floor(0.5 / 2.0) + 0.5) + 0.0 == 1.0
    assert_eq!(bins(&[0.5], 2.0, 0.0), vec![(1.0, 1)]);
}

#[test]
fn empty_input() {
    assert_eq!(bins(&[], 1.0, 0.0), Vec::new());
    assert_eq!(bins(&[], 2.5, -3.0), Vec::new());
    assert_eq!(bins(&[], 0.1, 7.0), Vec::new());
}

#[test]
fn deterministic() {
    let inputs = to_inputs(&[3.2, -1.5, 0.0, 3.9, 100.25], 0.5, 0.25);
    let first = compute_bins(&inputs);
    let second = compute_bins(&inputs);
    assert_eq!(first, second);
}

#[test]
fn order_independent() {
    let vals = [1.0, 55.6, -15.2, 55.9, 2.25, -15.4];
    let mut rev = vals;
    rev.reverse();
    assert_eq!(bins(&vals, 1.0, 1.0), bins(&rev, 1.0, 1.0));
}

#[test]
fn counts_total_input_length() {
    let vals = [4.0, 4.1, 4.2, -9.5, 0.0, 0.99, 12.3, 4.25];
    let records = compute_bins(&to_inputs(&vals, 1.0, 0.0));
    let total: u32 = records.iter().map(|r| r.count).sum();
    assert_eq!(total as usize, vals.len());
}

#[test]
fn keys_unique() {
    let vals = [1.0, 1.1, 1.2, 2.0, 2.9, 3.0, 3.0, -1.0, -0.5];
    let records = compute_bins(&to_inputs(&vals, 1.0, 0.0));
    for i in 0..records.len() {
        for j in 0..records.len() {
            if i != j {
                assert_ne!(records[i].key, records[j].key);
            }
        }
    }
}

#[test]
fn centers_sorted_ascending() {
    let vals = [9.9, -3.0, 0.5, 7.2, -8.8, 0.6, 5.5];
    let out = bins(&vals, 1.0, 0.0);
    for w in out.windows(2) {
        assert!(w[0].0 <= w[1].0);
    }
}

#[test]
fn duplicates_accumulate() {
    let vals = [2.5, 2.5, 2.5, 2.5];
    assert_eq!(bins(&vals, 1.0, 0.0), vec![(2.5, 4)]);
}

#[test]
fn negative_values() {
    let vals = [-0.5, -1.5, -0.25];
    // floor(-0.5) == -1 and floor(-0.25) == -1: they share a bin
    assert_eq!(bins(&vals, 1.0, 0.0), vec![(-1.5, 1), (-0.5, 2)]);
}

#[test]
fn origin_shift_uses_first_value() {
    // with origin 0.5, both values share grouping key floor(v) == 0 but sit
    // on different center ranks; the reported center follows the value that
    // opened the bin, so it depends on which comes first
    assert_eq!(bins(&[0.9, 0.1], 1.0, 0.5), vec![(1.0, 2)]);
    assert_eq!(bins(&[0.1, 0.9], 1.0, 0.5), vec![(0.0, 2)]);
}
