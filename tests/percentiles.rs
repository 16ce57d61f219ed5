use lite_rpc_core::percentiles::{percentile_index, percentile_indexes};

fn buckets(values: &[f64]) -> Vec<f64> {
    percentile_indexes(values.len()).iter().map(|&i| values[i]).collect()
}

#[test]
fn percentile_boundary() {
    let values = vec![30.0, 33.0, 43.0, 53.0, 56.0, 67.0, 68.0, 72.0];
    let v = buckets(&values);
    assert_eq!(v.len(), 21);
    assert_eq!(v[5], 43.0);
    assert_eq!(v[20], 72.0);
}

#[test]
fn percentile_small_list() {
    let values = vec![1.0, 2.0, 3.0, 4.0, 5.0];
    let v = buckets(&values);
    assert_eq!(v[0], 1.0);
    assert_eq!(v[10], 3.0);
    assert_eq!(v[15], 4.0);
    assert_eq!(v[18], 5.0);
    assert_eq!(v[20], 5.0);
}

#[test]
fn percentile_non_integer_index() {
    let values = vec![3.0, 5.0, 5.0, 6.0, 7.0, 7.0, 8.0, 10.0, 10.0];
    assert_eq!(buckets(&values)[5], 5.0);
}

#[test]
fn percentile_large_list() {
    let values: Vec<f64> = (0..1000).map(|i| i as f64).collect();
    assert_eq!(buckets(&values)[19], 950.0);
    assert_eq!(percentile_index(1000, 100), 999);
}

#[test]
fn percentile_of_empty_list() {
    assert!(percentile_indexes(0).is_empty());
}
