use cozo::status::{RdbStatus, StatusCode, StatusSeverity, StatusSubCode};

fn with_code(code: StatusCode) -> RdbStatus {
    RdbStatus {
        code,
        subcode: StatusSubCode::kNone,
        severity: StatusSeverity::kNoError,
        message: String::new(),
    }
}

#[test]
fn default_status_is_ok() {
    let s = RdbStatus::default();
    assert!(s.is_ok());
    assert!(!s.is_not_found());
    assert!(s.is_ok_or_not_found());
    assert_eq!(s.subcode, StatusSubCode::kNone);
    assert_eq!(s.severity, StatusSeverity::kNoError);
}

#[test]
fn status_predicates() {
    let nf = with_code(StatusCode::kNotFound);
    assert!(!nf.is_ok());
    assert!(nf.is_not_found());
    assert!(nf.is_ok_or_not_found());
    let c = with_code(StatusCode::kCorruption);
    assert!(!c.is_ok_or_not_found());
}

#[test]
fn status_description() {
    let mut s = with_code(StatusCode::kBusy);
    assert_eq!(s.describe(), "RocksDB error: kBusy");
    s.message = "disk full".to_string();
    assert_eq!(s.describe(), "RocksDB error: disk full");
}
