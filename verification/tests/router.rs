use epistemos_labs::router::{count_route, verify_links, Route, RouteLog, ValidationError};
use sha2::{Digest, Sha256};

fn uniform() -> [u64; 5] {
    [0.2f64.to_bits(); 5]
}

fn log() -> RouteLog {
    RouteLog::new(uniform(), 0.25f64.to_bits(), 0.70f64.to_bits())
}

fn signals(value: f64) -> [u64; 5] {
    [value.to_bits(); 5]
}

#[test]
fn route_names() {
    assert_eq!(Route::Continue.name(), "Continue");
    assert_eq!(Route::Recall.name(), "Recall");
    assert_eq!(Route::Escalate.name(), "Escalate");
    assert_ne!(ValidationError::InvalidWeight, ValidationError::InvalidThresholds);
}

#[test]
fn digest_covers_the_canonical_text() {
    let mut log = log();
    let record = log.append(signals(0.9), 0.9f64.to_bits(), Route::Escalate).clone();
    assert_eq!(record.version, 1);
    assert_eq!(record.sequence, 0);
    assert_eq!(record.previous_digest, "0".repeat(64));
    let mut canonical = format!("interrupt-router-v1|0|{}|", "0".repeat(64));
    for value in [0.9f64; 5].iter().chain([0.2f64; 5].iter()) {
        canonical.push_str(&format!("{:016x}|", value.to_bits()));
    }
    canonical.push_str(&format!(
        "{:016x}|{:016x}|{:016x}|Escalate",
        0.25f64.to_bits(),
        0.70f64.to_bits(),
        0.9f64.to_bits()
    ));
    let expected: String = Sha256::digest(canonical.as_bytes())
        .iter()
        .map(|b| format!("{b:02x}"))
        .collect();
    assert_eq!(record.digest, expected);
    let next = log.append(signals(0.1), 0.1f64.to_bits(), Route::Continue).clone();
    assert_eq!(next.sequence, 1);
    assert_eq!(next.previous_digest, record.digest);
}

#[test]
fn chains_built_by_appending_verify_and_edits_do_not() {
    let mut left = log();
    let mut right = log();
    for (value, route) in [(0.1, Route::Continue), (0.4, Route::Recall), (0.9, Route::Escalate)] {
        left.append(signals(value), value.to_bits(), route);
        right.append(signals(value), value.to_bits(), route);
    }
    assert_eq!(left.records(), right.records());
    assert!(verify_links(left.records()));
    let mut records = left.records().to_vec();
    records[0].signal_bits[3] = 0.0f64.to_bits();
    assert!(!verify_links(&records));
    let mut records = left.records().to_vec();
    records[1].sequence = 3;
    assert!(!verify_links(&records));
    let mut records = left.records().to_vec();
    records.remove(0);
    assert!(!verify_links(&records));
    assert!(verify_links(&[]));
}

#[test]
fn escalations_are_counted() {
    let mut log = log();
    for (value, route) in [
        (0.9, Route::Escalate),
        (0.9, Route::Escalate),
        (0.1, Route::Continue),
        (0.1, Route::Continue),
    ] {
        log.append(signals(value), value.to_bits(), route);
    }
    assert_eq!(count_route(log.records(), Route::Escalate), 2);
    assert_eq!(count_route(log.records(), Route::Recall), 0);
}
