use load_balancer::services::statistics::is_overloaded;
use statrs::statistics::{Data, OrderStatistics};

/// The rule computed as floats with statrs: some value further from the
/// median than ten median absolute deviations (at least 1).
fn overloaded_with_floats(values: &[u64]) -> bool {
    let connections: Vec<f64> = values.iter().map(|&x| x as f64).collect();
    let mut dataset = Data::new(connections.clone());
    let median = dataset.median();
    let deviations: Vec<f64> = connections.iter().map(|x| (x - median).abs()).collect();
    let mad = Data::new(deviations).median().max(1.0);
    connections.iter().any(|&x| (x - median).abs() > 10.0 * mad)
}

#[test]
fn uniform_load_is_not_overloaded() {
    assert!(!is_overloaded(&vec![10, 10, 10]));
    assert!(!is_overloaded(&vec![0, 0, 0, 0]));
    assert!(!is_overloaded(&vec![7]));
    assert!(!is_overloaded(&vec![]));
}

#[test]
fn single_outlier_is_overloaded() {
    assert!(is_overloaded(&vec![10, 10, 1000]));
    assert!(is_overloaded(&vec![10, 22, 10]));
    // eleven away with a zero MAD: 11 > 10 * 1
    assert!(is_overloaded(&vec![5, 5, 16, 5]));
    // exactly ten away is not more than ten
    assert!(!is_overloaded(&vec![5, 5, 15, 5]));
}

#[test]
fn two_hosts_are_never_outliers() {
    assert!(!is_overloaded(&vec![0, 1000]));
    assert!(!is_overloaded(&vec![3, 4_000_000_000]));
}

#[test]
fn spread_load_scales_with_deviation() {
    // median 20, deviations 10,10,0,10,40 -> MAD 10; 60 is 40 away, under 100
    assert!(!is_overloaded(&vec![10, 30, 20, 10, 60]));
    // 200 is 180 away, over 100
    assert!(is_overloaded(&vec![10, 30, 20, 10, 200]));
}

#[test]
fn integer_rule_agrees_with_statrs() {
    let mut seed: u64 = 0x2545_f491_4f6c_dd1d;
    for round in 0..2000u64 {
        seed ^= seed << 13;
        seed ^= seed >> 7;
        seed ^= seed << 17;
        let len = (seed % 9) as usize;
        let mut values = Vec::new();
        let mut s = seed;
        for _ in 0..len {
            s = s.wrapping_mul(6364136223846793005).wrapping_add(1442695040888963407);
            let v = if round % 3 == 0 { (s >> 33) % 40 } else { (s >> 33) % 5000 };
            values.push(v);
        }
        assert_eq!(is_overloaded(&values), overloaded_with_floats(&values), "{:?}", values);
    }
    let big: Vec<u64> = vec![u32::MAX as u64, 0, u32::MAX as u64 - 1, 17, u32::MAX as u64];
    assert_eq!(is_overloaded(&big), overloaded_with_floats(&big));
}

#[test]
fn overload_ignores_order_and_common_shift() {
    let base = vec![10, 10, 1000, 10];
    let permuted = vec![1000, 10, 10, 10];
    let shifted: Vec<u64> = base.iter().map(|x| x + 500).collect();
    assert_eq!(is_overloaded(&base), is_overloaded(&permuted));
    assert_eq!(is_overloaded(&base), is_overloaded(&shifted));
    assert!(is_overloaded(&shifted));
    let calm = vec![3, 9, 5, 7];
    let calm_shifted: Vec<u64> = calm.iter().map(|x| x + 1_000_000).collect();
    assert!(!is_overloaded(&calm));
    assert!(!is_overloaded(&calm_shifted));
    assert!(!is_overloaded(&vec![9, 3, 7, 5]));
}
