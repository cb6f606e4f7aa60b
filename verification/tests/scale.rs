use velogos::scale::{find_scaler, scale_series, scale_value};

/// A maximum of 50 against a span of 40 must shrink strictly below 40.
#[test]
fn scaler_shrinks_over_target() {
    let s = find_scaler(50, 40);
    assert!(50 * (s.num as u128) < 40 * s.den, "factor does not fit: {}/{}", s.num, s.den);
    assert!(scale_value(50, s) < 40);
}

/// A maximum of 10 against a span of 40 already fits: the factor is one.
#[test]
fn scaler_keeps_fitting_series() {
    let s = find_scaler(10, 40);
    assert_eq!(s.num as u128, s.den);
    assert_eq!(scale_value(10, s), 10);
    assert_eq!(scale_value(3, s), 3);
}

/// The boundary case: maximum equal to the span still shrinks below it.
#[test]
fn scaler_boundary_equal() {
    let s = find_scaler(40, 40);
    assert!(scale_value(40, s) < 40);
}

#[test]
fn scale_series_applies_factor() {
    let s = find_scaler(8, 8);
    let out = scale_series(&vec![1, 5, 3, 8, 2], s);
    assert_eq!(out, vec![0, 4, 2, 7, 1]);
}

#[test]
fn scaler_zero_maximum() {
    let s = find_scaler(0, 40);
    assert_eq!(s.num as u128, s.den);
}

/// Even a span of a single cell gets a positive factor, and everything
/// scales to the one row below it.
#[test]
fn scaler_single_cell_span() {
    let s = find_scaler(10, 1);
    assert!(s.num >= 1);
    assert!(s.num as u128 <= s.den);
    assert_eq!(scale_value(10, s), 0);
    assert_eq!(scale_value(3, s), 0);
}
