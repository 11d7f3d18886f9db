use simula_sim::metrics::MetricStore;
use simula_sim::statistics::{median_pair, sorted_copy, total_order_key};

fn bits(v: &[f64]) -> Vec<u64> {
    v.iter().map(|x| x.to_bits()).collect()
}

fn median(v: &[f64]) -> Option<f64> {
    median_pair(&bits(v)).map(|(a, b)| (f64::from_bits(a) + f64::from_bits(b)) / 2.0)
}

#[test]
fn median_of_even_count_averages_the_central_values() {
    assert_eq!(median_pair(&bits(&[4.0, 1.0, 3.0, 2.0])), Some((2.0f64.to_bits(), 3.0f64.to_bits())));
    assert_eq!(median(&[1.0, 2.0, 3.0, 4.0]), Some(2.5));
}

#[test]
fn median_of_odd_count_is_the_central_value() {
    assert_eq!(median(&[1.0, 3.0, 5.0]), Some(3.0));
    assert_eq!(median(&[5.0, 1.0, 3.0]), Some(3.0));
}

#[test]
fn empty_series_has_no_median() {
    assert_eq!(median_pair(&Vec::new()), None);
}

#[test]
fn sorted_copy_orders_negatives_and_keeps_input() {
    let input = bits(&[2.5, -1.0, 0.0, -3.5, 7.0, -0.0]);
    let out = sorted_copy(&input);
    let vals: Vec<f64> = out.iter().map(|b| f64::from_bits(*b)).collect();
    assert_eq!(vals, vec![-3.5, -1.0, -0.0, 0.0, 2.5, 7.0]);
    assert!(out[2] == (-0.0f64).to_bits() && out[3] == 0.0f64.to_bits());
    assert_eq!(input, bits(&[2.5, -1.0, 0.0, -3.5, 7.0, -0.0]));
}

#[test]
fn total_order_key_matches_total_cmp() {
    let xs = [-f64::INFINITY, -2.0, -0.5, -0.0, 0.0, 1e-300, 0.5, 3.0, f64::INFINITY];
    for a in xs {
        for b in xs {
            assert_eq!(total_order_key(a.to_bits()).cmp(&total_order_key(b.to_bits())), a.total_cmp(&b));
        }
    }
    assert_eq!(total_order_key(1.0f64.to_bits()), 1.0f64.to_bits() | (1u64 << 63));
}

#[test]
fn metric_store_appends_by_name() {
    let mut s = MetricStore::new();
    let loss = "loss".to_string();
    let acc = "accuracy".to_string();
    s.record(&loss, 1);
    s.record(&acc, 9);
    s.append(&loss, &vec![2, 3]);
    assert_eq!(s.get(&loss), Some(vec![1, 2, 3]));
    assert_eq!(s.get(&acc), Some(vec![9]));
    assert_eq!(s.get(&"reward".to_string()), None);
    assert_eq!(s.names(), vec![loss.clone(), acc.clone()]);
    assert_eq!(s.len(), 2);
    assert_eq!(s.series_at(1).values, vec![9]);

    let mut t = MetricStore::new();
    t.record(&acc, 4);
    t.absorb(&s);
    assert_eq!(t.get(&acc), Some(vec![4, 9]));
    assert_eq!(t.get(&loss), Some(vec![1, 2, 3]));
}
