use vdj_em::dist::{normalize_distribution_vec, normalize_vec, EmError, Grid};
use vdj_em::rat::{q_add, Q};

fn q(num: u64, den: u64) -> Q {
    Q::new(num, den)
}

/// Exact rational sum of a slice.
fn sum(v: &[Q]) -> Q {
    let mut acc = Q::zero();
    for e in v {
        acc = q_add(&acc, e).expect("sum fits");
    }
    acc
}

fn is_one(a: &Q) -> bool {
    a.num == a.den
}

fn same_value(a: &Q, b: &Q) -> bool {
    (a.num as u128) * (b.den as u128) == (b.num as u128) * (a.den as u128)
}

#[test]
fn normalized_slice_sums_to_one() {
    let v = vec![q(3, 2), q(1, 4), q(5, 1), q(0, 1)];
    let out = normalize_vec(&v).expect("normalizes");
    assert_eq!(out.len(), 4);
    assert!(is_one(&sum(&out)));
    // entries keep their relative proportions: 3/2 : 1/4 = 6 : 1
    assert!(same_value(&out[0], &q(6, 27)));
    assert!(same_value(&out[1], &q(1, 27)));
    assert!(same_value(&out[3], &q(0, 1)));
}

#[test]
fn all_zero_slice_becomes_uniform() {
    let v = vec![q(0, 1), q(0, 5), q(0, 7)];
    let out = normalize_vec(&v).expect("normalizes");
    for e in &out {
        assert_eq!(e.num, 1);
        assert_eq!(e.den, 3);
    }
    assert!(is_one(&sum(&out)));
}

#[test]
fn empty_slice_normalizes_to_empty() {
    let v: Vec<Q> = Vec::new();
    let out = normalize_vec(&v).expect("normalizes");
    assert!(out.is_empty());
}

#[test]
fn axis_out_of_range_is_the_only_normalization_error() {
    let v = vec![q(1, 2)];
    assert_eq!(
        normalize_distribution_vec(&v, Some(1)),
        Err(EmError::NormalizationAxis(1))
    );
    assert_eq!(
        normalize_distribution_vec(&v, Some(7)),
        Err(EmError::NormalizationAxis(7))
    );
    // axis 0 and "whole array" are in range for rank 1
    assert!(normalize_distribution_vec(&v, Some(0)).is_ok());
    assert!(normalize_distribution_vec(&v, None).is_ok());
}

#[test]
fn grid_axis_out_of_range() {
    let g = Grid {
        slices: vec![vec![q(1, 1), q(1, 1)]],
        width: 2,
    };
    match g.normalize_distribution(2) {
        Err(EmError::NormalizationAxis(2)) => (),
        other => panic!("expected axis error, got {:?}", other.is_ok()),
    }
    assert!(g.normalize_distribution(0).is_ok());
    assert!(g.normalize_distribution(1).is_ok());
}

#[test]
fn grid_normalize_within_each_slice() {
    let g = Grid {
        slices: vec![vec![q(1, 1), q(3, 1)], vec![q(0, 1), q(0, 1)]],
        width: 2,
    };
    let out = g.normalize_distribution(1).expect("normalizes");
    assert!(same_value(&out.slices[0][0], &q(1, 4)));
    assert!(same_value(&out.slices[0][1], &q(3, 4)));
    // degenerate slice becomes uniform
    assert_eq!(out.slices[1][0], q(1, 2));
    assert_eq!(out.slices[1][1], q(1, 2));
}

#[test]
fn grid_normalize_across_slices() {
    let g = Grid {
        slices: vec![vec![q(1, 1), q(0, 1)], vec![q(3, 1), q(0, 1)]],
        width: 2,
    };
    let out = g.normalize_distribution(0).expect("normalizes");
    // first column 1:3, second column degenerate -> uniform over 2 slices
    assert!(same_value(&out.slices[0][0], &q(1, 4)));
    assert!(same_value(&out.slices[1][0], &q(3, 4)));
    assert_eq!(out.slices[0][1], q(1, 2));
    assert_eq!(out.slices[1][1], q(1, 2));
}

#[test]
fn overflow_is_reported_not_mangled() {
    let big = u64::MAX;
    let v = vec![q(1, big), q(1, big - 1)];
    assert_eq!(normalize_vec(&v), Err(EmError::Overflow));
}
