use ir_bench::stats::{aggregate_bins, count_bins, BinStats};

fn pairs(keys: &[i64]) -> Vec<(i64, usize)> {
    count_bins(&keys.to_vec()).counts().into_iter().map(|b| (b.bin, b.count)).collect()
}

#[test]
fn counts_frames_per_bin() {
    assert_eq!(pairs(&[3, 1, 3, 2, 3]), vec![(1, 1), (2, 1), (3, 3)]);
    assert_eq!(pairs(&[-5, 7, -5]), vec![(-5, 2), (7, 1)]);
    assert_eq!(pairs(&[]), Vec::<(i64, usize)>::new());
}

#[test]
fn counts_add_up_to_the_frames() {
    let keys: Vec<i64> = (0..200).map(|i| (i * 7 % 13) as i64).collect();
    let total: usize = count_bins(&keys).counts().iter().map(|b| b.count).sum();
    assert_eq!(total, keys.len());
}

fn row(s: &BinStats) -> (i64, usize, u128, usize, usize) {
    (s.bin, s.runs, s.total, s.min, s.max)
}

#[test]
fn aggregates_bins_over_runs() {
    let runs = vec![count_bins(&vec![1, 3, 3]), count_bins(&vec![3, 3, 3, 3, 5])];
    let rows: Vec<_> = aggregate_bins(&runs).iter().map(row).collect();
    assert_eq!(rows, vec![(1, 1, 1, 1, 1), (3, 2, 6, 2, 4), (5, 1, 1, 1, 1)]);
}

#[test]
fn no_runs_no_bins() {
    assert!(aggregate_bins(&Vec::new()).is_empty());
    assert!(aggregate_bins(&vec![count_bins(&Vec::new())]).is_empty());
}
