use hcluster::cluster::Country;
use hcluster::engine::Analyze;
use hcluster::standardize::{avg, isqrt, std_countries, std_val};

fn country(name: &str, attrs: Vec<i64>) -> Country {
    Country { name: name.to_string(), attrs }
}

#[test]
fn isqrt_exact_values() {
    assert_eq!(isqrt(0), 0);
    assert_eq!(isqrt(1), 1);
    assert_eq!(isqrt(3), 1);
    assert_eq!(isqrt(4), 2);
    assert_eq!(isqrt(54_000_000), 7348);
    assert_eq!(isqrt(u64::MAX as u128), 4_294_967_295);
}

#[test]
fn avg_truncates_towards_zero() {
    assert_eq!(avg(&vec![1000, 2000, 3000]), 2000);
    assert_eq!(avg(&vec![1, 2]), 1);
    assert_eq!(avg(&vec![-3, -4]), -3);
    assert_eq!(avg(&vec![7]), 7);
}

#[test]
fn std_val_exact_value() {
    // Column 1.0, 2.0, 3.0 (scale 1000): population standard deviation is
    // sqrt(2/3) = 0.81649..., truncated to 816 fixed-point units.
    assert_eq!(std_val(&vec![1000, 2000, 3000]), 816);
    // A constant column has zero standard deviation.
    assert_eq!(std_val(&vec![42, 42, 42]), 0);
}

#[test]
fn standardization_keeps_shape() {
    let mut v = vec![
        country("A", vec![1000, 5000]),
        country("B", vec![2000, 5000]),
        country("C", vec![3000, 5000]),
    ];
    std_countries(&mut v);
    assert_eq!(v.len(), 3);
    assert_eq!(v[0].name, "A");
    assert_eq!(v[1].name, "B");
    assert_eq!(v[2].name, "C");
    for c in &v {
        assert_eq!(c.attrs.len(), 2);
    }
}

#[test]
fn standardized_column_has_zero_mean_and_unit_deviation() {
    let mut v = vec![
        country("A", vec![1000]),
        country("B", vec![2000]),
        country("C", vec![3000]),
    ];
    std_countries(&mut v);
    // z-scores of (1, 2, 3) are (-1.2247, 0, 1.2247); truncated fixed point.
    assert_eq!(v[0].attrs, vec![-1224]);
    assert_eq!(v[1].attrs, vec![0]);
    assert_eq!(v[2].attrs, vec![1224]);
    let column: Vec<i64> = v.iter().map(|c| c.attrs[0]).collect();
    let mean = avg(&column);
    assert!(mean.abs() <= 1, "standardized mean {mean} is not near zero");
    let sd = std_val(&column);
    assert!(
        (sd - 1000).abs() <= 2,
        "standardized deviation {sd} is not near one (scale 1000)"
    );
}

#[test]
fn zero_variance_column_becomes_all_zeros() {
    let mut v = vec![
        country("A", vec![5000, 1000]),
        country("B", vec![5000, 2000]),
        country("C", vec![5000, 3000]),
    ];
    std_countries(&mut v);
    for c in &v {
        assert_eq!(c.attrs[0], 0);
    }
    // The non-constant column is still transformed.
    assert_eq!(v[0].attrs[1], -1224);
    assert_eq!(v[2].attrs[1], 1224);
}

#[test]
fn standardization_of_empty_inputs_is_a_no_op() {
    let mut v: Vec<Country> = Vec::new();
    std_countries(&mut v);
    assert!(v.is_empty());
    let mut v = vec![country("A", vec![]), country("B", vec![])];
    std_countries(&mut v);
    assert_eq!(v.len(), 2);
    assert_eq!(v[0].attrs.len(), 0);
}

#[test]
fn single_entity_standardizes_to_zero() {
    let mut v = vec![country("A", vec![7000, -3000])];
    std_countries(&mut v);
    assert_eq!(v[0].attrs, vec![0, 0]);
}

#[test]
fn engine_standardizes_before_clustering() {
    // After standardization both columns carry the same spread, so the
    // nearest pair is decided by the standardized values, not the raw ones.
    let v = vec![
        country("A", vec![1000, 1000]),
        country("B", vec![2000, 2000]),
        country("C", vec![3000, 3000]),
    ];
    let a = Analyze::new(v, true).unwrap();
    assert_eq!(a.clusters.len(), 3);
    assert_eq!(a.clusters[0].countries[0].attrs, vec![-1224, -1224]);
    assert_eq!(a.clusters[1].countries[0].attrs, vec![0, 0]);
    assert_eq!(a.clusters[2].countries[0].attrs, vec![1224, 1224]);
}
