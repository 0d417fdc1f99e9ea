use epistemos_labs::kernel::{stable_hash, verify_replay, Action, Capability, Kernel, Outcome, Policy};

fn action(capability: Capability, name: &str) -> Action {
    Action {
        capability,
        resource: name.into(),
        payload_digest: stable_hash(name.as_bytes()),
    }
}

#[test]
fn same_inputs_produce_same_chain() {
    let policy = Policy::default()
        .allow(Capability::Read)
        .allow(Capability::Write);
    let mut left = Kernel::new(policy.clone());
    let mut right = Kernel::new(policy);
    for item in [
        action(Capability::Read, "vault/a"),
        action(Capability::Write, "vault/b"),
    ] {
        left.decide(item.clone());
        right.decide(item);
    }
    assert_eq!(left.receipts(), right.receipts());
    assert!(verify_replay(left.receipts()).is_ok());
}

#[test]
fn denied_actions_are_still_receipted() {
    let mut kernel = Kernel::new(Policy::default().allow(Capability::Read));
    let receipt = kernel.decide(action(Capability::Network, "remote"));
    assert!(matches!(receipt.outcome, Outcome::Denied(_)));
    assert!(verify_replay(kernel.receipts()).is_ok());
}

#[test]
fn tampering_breaks_replay() {
    let mut kernel = Kernel::new(Policy::default().allow(Capability::Read));
    kernel.decide(action(Capability::Read, "vault/a"));
    let mut receipts = kernel.receipts().to_vec();
    receipts[0].action.resource = "vault/changed".into();
    assert!(verify_replay(&receipts).is_err());
}

#[test]
fn stable_hash_is_fnv1a() {
    assert_eq!(stable_hash(b""), 0xcbf29ce484222325);
    assert_eq!(stable_hash(b"a"), 0xaf63dc4c8601ec8c);
}

#[test]
fn receipt_hash_covers_the_canonical_line() {
    let mut kernel = Kernel::new(Policy::default().allow(Capability::Read));
    let first = kernel.decide(action(Capability::Read, "vault/a")).clone();
    assert_eq!(first.sequence, 0);
    assert_eq!(first.previous_hash, 0);
    assert_eq!(first.outcome, Outcome::Allowed);
    let canonical = format!(
        "v1|0|read|vault/a|{:016x}|allowed|{:016x}",
        stable_hash(b"vault/a"),
        0u64
    );
    assert_eq!(first.hash, stable_hash(canonical.as_bytes()));
    let second = kernel.decide(action(Capability::Execute, "bin/x")).clone();
    assert_eq!(second.sequence, 1);
    assert_eq!(second.previous_hash, first.hash);
    assert_eq!(
        second.outcome,
        Outcome::Denied("capability is outside the admitted set")
    );
    let canonical = format!(
        "v1|1|execute|bin/x|{:016x}|denied:capability is outside the admitted set|{:016x}",
        stable_hash(b"bin/x"),
        first.hash
    );
    assert_eq!(second.hash, stable_hash(canonical.as_bytes()));
}

#[test]
fn replay_names_the_first_fault() {
    let mut kernel = Kernel::new(Policy::default().allow(Capability::Read));
    kernel.decide(action(Capability::Read, "vault/a"));
    kernel.decide(action(Capability::Read, "vault/b"));
    let mut receipts = kernel.receipts().to_vec();
    receipts[1].sequence = 5;
    assert_eq!(
        verify_replay(&receipts),
        Err("sequence mismatch at 1".to_string())
    );
    let mut receipts = kernel.receipts().to_vec();
    receipts[1].previous_hash ^= 1;
    assert_eq!(verify_replay(&receipts), Err("chain mismatch at 1".to_string()));
    let mut receipts = kernel.receipts().to_vec();
    receipts[0].action.payload_digest ^= 1;
    assert_eq!(
        verify_replay(&receipts),
        Err("receipt mismatch at 0".to_string())
    );
}

#[test]
fn policy_admits_only_allowed_capabilities() {
    let policy = Policy::default().allow(Capability::Read).allow(Capability::Read);
    assert!(policy.admits(&action(Capability::Read, "x")));
    assert!(!policy.admits(&action(Capability::Write, "x")));
}
