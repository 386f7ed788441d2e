use random_picker::{check, is_fair, is_negative, is_positive, is_zero, same_value, usable_indexes, Error};

fn bits(ws: &[f64]) -> Vec<u64> {
    ws.iter().map(|w| w.to_bits()).collect()
}

#[test]
fn classifies_encodings() {
    assert!(is_negative((-1.0f64).to_bits()));
    assert!(is_negative(f64::NEG_INFINITY.to_bits()));
    assert!(!is_negative((-0.0f64).to_bits()));
    assert!(!is_negative(f64::NAN.to_bits()));
    assert!(is_zero(0.0f64.to_bits()));
    assert!(is_zero((-0.0f64).to_bits()));
    assert!(!is_zero(1e-300f64.to_bits()));
    assert!(is_positive(1.1f64.to_bits()));
    assert!(is_positive(f64::INFINITY.to_bits()));
    assert!(is_positive(f64::MIN_POSITIVE.to_bits()));
    assert!(!is_positive(0.0f64.to_bits()));
    assert!(!is_positive(f64::NAN.to_bits()));
    assert!(same_value(0.0f64.to_bits(), (-0.0f64).to_bits()));
    assert!(same_value(2.5f64.to_bits(), 2.5f64.to_bits()));
    assert!(!same_value(f64::NAN.to_bits(), f64::NAN.to_bits()));
    assert!(!same_value(1.0f64.to_bits(), 1.1f64.to_bits()));
}

#[test]
fn check_rejects_negative_and_accepts_positive() {
    // a = -1; b = 0; c = 2
    assert!(matches!(check(&bits(&[-1.0, 0.0, 2.0]), false), Err(Error::InvalidTable)));
    // a = 1
    assert!(check(&bits(&[1.0, 0.0, 2.0]), false).is_ok());
    // inversion with a zero weight
    assert!(matches!(check(&bits(&[1.0, 0.0, 2.0]), true), Err(Error::InvalidTable)));
    // b = 0.1
    assert!(check(&bits(&[1.0, 0.1, 2.0]), true).is_ok());
}

#[test]
fn check_rejects_empty_and_all_zero() {
    assert!(matches!(check(&Vec::new(), false), Err(Error::InvalidTable)));
    assert!(matches!(check(&bits(&[0.0, 0.0]), false), Err(Error::InvalidTable)));
    assert!(matches!(check(&bits(&[-0.5]), true), Err(Error::InvalidTable)));
}

#[test]
fn fairness_needs_validity_and_equal_weights() {
    assert!(!is_fair(&bits(&[-1.0, 1.0, 1.1]), false));
    assert!(!is_fair(&bits(&[1.0, 1.0, 1.1]), false));
    assert!(is_fair(&bits(&[1.0, 1.0, 1.0]), false));
    assert!(is_fair(&bits(&[3.0]), false));
    assert!(!is_fair(&bits(&[f64::NAN, 1.0]), false));
    assert!(!is_fair(&Vec::new(), false));
}

#[test]
fn usable_indexes_filter_or_keep() {
    let ws = bits(&[0.0, 1.0, 1.1, 0.0, 5.0]);
    assert_eq!(usable_indexes(&ws, false).unwrap(), vec![1, 2, 4]);
    let ws = bits(&[0.5, 1.0, 4.0]);
    assert_eq!(usable_indexes(&ws, true).unwrap(), vec![0, 1, 2]);
    assert!(matches!(usable_indexes(&bits(&[0.0, 1.0]), true), Err(Error::InvalidTable)));
    assert!(matches!(usable_indexes(&bits(&[-2.0, 1.0]), false), Err(Error::InvalidTable)));
}

#[test]
fn error_messages() {
    assert_eq!(Error::InvalidTable.message(), "Invalid probability table");
    assert_eq!(Error::InvalidAmount.message(), "Invalid amount of items to be picked up");
    assert_eq!(Error::RandError("x".to_string()).message(), "RNG Error");
    assert_eq!(Error::ThreadError.message(), "Thread error during calculation");
}
