//! Callsign validation and canonicalization.

use plusendi::StationId;

#[test]
fn valid_callsign() {
    let x = StationId::new("KC1GSL").unwrap();
    assert_eq!(x.as_bytes(), &b"KC1GSL".to_vec());
}

#[test]
fn normalized_callsign() {
    let x = StationId::new("kc1gsl").unwrap();
    assert_eq!(x.as_bytes(), &b"KC1GSL".to_vec());
    assert_eq!(x, StationId::new("KC1GSL").unwrap());
}

#[test]
fn invalid_callsign_rejected() {
    assert!(StationId::new("").is_err());
    assert!(StationId::new("123456").is_err());
    assert!(StationId::new("QQQQ").is_err());
    assert!(StationId::new("K1").is_err());
}

#[test]
fn embedded_callsign_accepted() {
    // the validator looks for the callsign shape anywhere in the string
    let x = StationId::new("de kc1gsl/p").unwrap();
    assert_eq!(x.as_bytes(), &b"DE KC1GSL/P".to_vec());
}
