use kwik::math;
use kwik::math::set::{IsMultiset, Subset, Superset};
use kwik::math::stats::{check_lag, AcfError, Zipf};

#[test]
fn it_identifies_subsets() {
    let a = [1u64, 2, 3];
    let b = [1u64, 2, 3, 4];
    let c = [1u64, 2, 3];
    let d = [1u64, 3, 4, 5];

    assert!(a[..].is_subset(&b[..]));
    assert!(a[..].is_subset(&c[..]));
    assert!(!a[..].is_subset(&d[..]));
}

#[test]
fn it_identifies_supersets() {
    let a = [1u64, 2, 3, 4];
    let b = [1u64, 2, 3];
    let c = [1u64, 2, 3, 4];
    let d = [1u64, 3, 5];

    assert!(a[..].is_superset(&b[..]));
    assert!(a[..].is_superset(&c[..]));
    assert!(!a[..].is_superset(&d[..]));
}

#[test]
fn it_identifies_multisets() {
    let a = [1u64, 2, 3, 2];
    let b = [1u64, 2, 3, 4];

    assert!(a[..].is_multiset());
    assert!(!b[..].is_multiset());
}

#[test]
fn it_returns_coefficient_error_for_empty_values() {
    assert!(matches!(check_lag(0, 0), Err(AcfError::EmptyValues)));
}

#[test]
fn it_returns_coefficient_error_for_invalid_lag() {
    assert!(matches!(check_lag(3, 3), Err(AcfError::InvalidLag)));
}

#[test]
fn acf_accepts_smaller_lags() {
    assert!(check_lag(6, 0).is_ok());
    assert!(check_lag(6, 5).is_ok());
    assert!(matches!(check_lag(6, 6), Err(AcfError::InvalidLag)));
}

#[test]
fn acf_error_messages() {
    assert_eq!(AcfError::EmptyValues.message(), "empty values");
    assert_eq!(AcfError::InvalidLag.message(), "lag smaller than number of values");
}

#[test]
fn math_min_and_max() {
    assert_eq!(math::min::<u64>(&[3, 4, 1, 2]), Some(&1));
    assert_eq!(math::max::<u64>(&[3, 4, 1, 2]), Some(&4));
    assert_eq!(math::min::<u64>(&[]), None);
    assert_eq!(math::max::<u32>(&[7]), Some(&7));
}

#[test]
fn zipf_counts_and_sorts_frequencies() {
    let mut zipf = Zipf::<u64>::new();
    assert!(zipf.is_empty());

    for value in [1u64, 1, 2, 1, 2, 3, 1] {
        zipf.insert(value);
    }

    assert_eq!(zipf.len(), 3);
    assert_eq!(zipf.frequencies(), vec![4, 2, 1]);
}

#[test]
fn zipf_frequencies_of_late_heavy_value() {
    let mut zipf = Zipf::<u32>::default();

    for value in [5u32, 6, 7, 7, 7, 6] {
        zipf.insert(value);
    }

    assert_eq!(zipf.frequencies(), vec![3, 2, 1]);
}
