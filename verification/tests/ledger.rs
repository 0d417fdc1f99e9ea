use epistemos_labs::ledger::{Ledger, LedgerEntry, ResidencyTier};

fn entry(id: &str) -> LedgerEntry {
    LedgerEntry {
        id: id.into(),
        tier: ResidencyTier::Warm,
        term_bits: [0.1f64.to_bits(), 2.0f64.to_bits(), 0.5f64.to_bits(), 0.2f64.to_bits(), 0.4f64.to_bits(), 1.0f64.to_bits()],
    }
}

fn ids(ledger: &Ledger) -> Vec<String> {
    ledger.entries().iter().map(|e| e.id.clone()).collect()
}

#[test]
fn entries_stay_in_id_order() {
    let mut ledger = Ledger::default();
    for id in ["m", "c", "x", "a"] {
        assert_eq!(ledger.admit_entry(entry(id), Ok(())), Ok(()));
    }
    assert_eq!(ids(&ledger), vec!["a", "c", "m", "x"]);
}

#[test]
fn duplicate_ids_are_refused_without_change() {
    let mut ledger = Ledger::default();
    ledger.admit_entry(entry("a"), Ok(())).unwrap();
    assert_eq!(
        ledger.admit_entry(entry("a"), Ok(())),
        Err("duplicate ledger id".to_string())
    );
    assert_eq!(ids(&ledger), vec!["a"]);
}

#[test]
fn failed_checks_pass_through_without_change() {
    let mut ledger = Ledger::default();
    let message = "a exceeds budget by 0.100000".to_string();
    assert_eq!(
        ledger.admit_entry(entry("a"), Err(message.clone())),
        Err(message)
    );
    assert!(ledger.entries().is_empty());
}

#[test]
fn admission_order_does_not_matter() {
    let mut first = Ledger::default();
    let mut second = Ledger::default();
    for id in ["b", "a", "c"] {
        first.admit_entry(entry(id), Ok(())).unwrap();
    }
    for id in ["c", "b", "a"] {
        second.admit_entry(entry(id), Ok(())).unwrap();
    }
    assert_eq!(first.entries(), second.entries());
}
