use epistemos_labs::ladder::{
    hex, replay, Decision, Entry, Health, LadderError, PolicyBits, ReceiptLog, Tier,
};
use sha2::{Digest, Sha256};

fn policy() -> PolicyBits {
    PolicyBits {
        t1: 0.85f64.to_bits(),
        t2: 0.75f64.to_bits(),
        t3: 0.70f64.to_bits(),
        healthy_high_tier_rate: 0.85f64.to_bits(),
        failing_unaccepted_rate: 0.20f64.to_bits(),
    }
}

fn expected_receipt(previous: &[u8], sequence: u64, score: f64, escalate: bool, code: u8) -> Vec<u8> {
    let p = policy();
    let mut hasher = Sha256::new();
    hasher.update(b"confidence-ladder-monitor/v1\0");
    hasher.update(previous);
    hasher.update(sequence.to_be_bytes());
    hasher.update(score.to_bits().to_be_bytes());
    hasher.update([u8::from(escalate), code]);
    for v in [p.t1, p.t2, p.t3, p.healthy_high_tier_rate, p.failing_unaccepted_rate] {
        hasher.update(v.to_be_bytes());
    }
    hasher.finalize().to_vec()
}

#[test]
fn tier_and_decision_names_and_codes() {
    assert_eq!(Tier::T1.code(), "T1");
    assert_eq!(Tier::T2.code(), "T2");
    assert_eq!(Tier::T3.code(), "T3");
    assert!(Decision::Accepted(Tier::T3).is_accepted());
    assert!(!Decision::Escalated.is_accepted());
    assert!(!Decision::Empty.is_accepted());
    assert_eq!(LadderError::UnorderedTiers.message(), "tier thresholds must satisfy T1 >= T2 >= T3");
    assert_eq!(LadderError::ScoreOutOfRange.message(), "score must be in [0, 1]");
    assert_ne!(Health::Healthy, Health::Failing);
}

#[test]
fn hex_spells_each_byte_in_two_lower_case_digits() {
    assert_eq!(hex(&[0x00, 0x0f, 0xab, 0xff]), "000fabff");
    assert_eq!(hex(&[]), "");
}

#[test]
fn receipts_chain_over_sha256() {
    let mut log = ReceiptLog::new(policy());
    assert_eq!(log.head_hash(), "0".repeat(64));
    let first = log.record(0.9f64.to_bits(), false, Decision::Accepted(Tier::T1));
    let h1 = expected_receipt(&[0u8; 32], 1, 0.9, false, 1);
    assert_eq!(first.sequence, 1);
    assert_eq!(first.previous_hash, "0".repeat(64));
    assert_eq!(first.receipt_hash, hex(&h1));
    let second = log.record(0.4f64.to_bits(), true, Decision::Escalated);
    let h2 = expected_receipt(&h1, 2, 0.4, true, 4);
    assert_eq!(second.sequence, 2);
    assert_eq!(second.previous_hash, hex(&h1));
    assert_eq!(second.receipt_hash, hex(&h2));
    assert_eq!(log.head_hash(), hex(&h2));
    assert_eq!(log.entries().len(), 2);
    assert!(log.verify());
}

#[test]
fn same_observations_give_the_same_head_and_flags_change_it() {
    let mut left = ReceiptLog::new(policy());
    let mut right = ReceiptLog::new(policy());
    for (score, escalate, decision) in [
        (0.91, false, Decision::Accepted(Tier::T1)),
        (0.73, false, Decision::Accepted(Tier::T3)),
        (0.5, true, Decision::Escalated),
    ] {
        left.record(f64::to_bits(score), escalate, decision);
        right.record(f64::to_bits(score), escalate, decision);
    }
    assert_eq!(left.head_hash(), right.head_hash());
    assert_eq!(left.entries(), right.entries());
    let mut normal = ReceiptLog::new(policy());
    normal.record(0.5f64.to_bits(), false, Decision::Empty);
    let mut escalated = ReceiptLog::new(policy());
    escalated.record(0.5f64.to_bits(), true, Decision::Escalated);
    assert_ne!(normal.head_hash(), escalated.head_hash());
    let mut changed_policy = policy();
    changed_policy.t3 = 0.60f64.to_bits();
    let mut changed = ReceiptLog::new(changed_policy);
    changed.record(0.5f64.to_bits(), false, Decision::Empty);
    assert_ne!(normal.head_hash(), changed.head_hash());
}

#[test]
fn edited_entries_do_not_replay() {
    let mut log = ReceiptLog::new(policy());
    log.record(0.9f64.to_bits(), false, Decision::Accepted(Tier::T1));
    log.record(0.72f64.to_bits(), false, Decision::Accepted(Tier::T3));
    let head = hex_to_bytes(&log.head_hash());
    let entries: Vec<Entry> = log.entries().to_vec();
    assert!(replay(policy(), &entries, &head));
    let mut edited = entries.clone();
    edited[0].score_bits = 0.95f64.to_bits();
    assert!(!replay(policy(), &edited, &head));
    let mut renumbered = entries.clone();
    renumbered[1].sequence = 7;
    assert!(!replay(policy(), &renumbered, &head));
    assert!(!replay(policy(), &entries[..1], &head));
}

#[test]
fn decision_counts_partition_the_log() {
    let mut log = ReceiptLog::new(policy());
    for decision in [
        Decision::Accepted(Tier::T1),
        Decision::Accepted(Tier::T2),
        Decision::Accepted(Tier::T3),
        Decision::Escalated,
        Decision::Empty,
        Decision::Accepted(Tier::T1),
    ] {
        log.record(0.5f64.to_bits(), false, decision);
    }
    assert_eq!(log.count(Decision::Accepted(Tier::T1)), 2);
    assert_eq!(log.count(Decision::Escalated), 1);
    let total: usize = [
        Decision::Accepted(Tier::T1),
        Decision::Accepted(Tier::T2),
        Decision::Accepted(Tier::T3),
        Decision::Escalated,
        Decision::Empty,
    ]
    .iter()
    .map(|d| log.count(*d))
    .sum();
    assert_eq!(total, log.entries().len());
}

fn hex_to_bytes(text: &str) -> Vec<u8> {
    (0..text.len())
        .step_by(2)
        .map(|i| u8::from_str_radix(&text[i..i + 2], 16).unwrap())
        .collect()
}
