use epistemos_labs::collections::TextSet;
use epistemos_labs::scope::{verify, Request, Risk, ScopeManifest, Verdict};

fn manifest() -> ScopeManifest {
    ScopeManifest {
        scope_id: "local-research".into(),
        allowed_actions: TextSet::from_vec(vec!["read".into(), "index".into()]),
        allowed_roots: vec!["vault".into()],
        maximum_risk: Risk::Medium,
    }
}

#[test]
fn admits_bounded_evidenced_request() {
    let request = Request {
        action: "read".into(),
        resource: "vault/a.md".into(),
        risk: Risk::Low,
        evidence_ids: vec!["ticket-1".into()],
    };
    let proof = manifest().admit_request(&request);
    assert_eq!(proof.verdict, Verdict::Admit);
    assert!(verify(&manifest(), &request, &proof));
}

#[test]
fn path_prefix_confusion_is_denied() {
    let request = Request {
        action: "read".into(),
        resource: "vault-escape/a".into(),
        risk: Risk::Low,
        evidence_ids: vec!["ticket-1".into()],
    };
    assert!(matches!(
        manifest().admit_request(&request).verdict,
        Verdict::Deny(_)
    ));
}

#[test]
fn evidence_order_does_not_change_receipt() {
    let mut one = Request {
        action: "read".into(),
        resource: "vault/a".into(),
        risk: Risk::Low,
        evidence_ids: vec!["b".into(), "a".into()],
    };
    let first = manifest().admit_request(&one);
    one.evidence_ids.reverse();
    assert_eq!(first, manifest().admit_request(&one));
}

#[test]
fn every_denial_reason_is_listed_in_order() {
    let request = Request {
        action: "delete".into(),
        resource: "elsewhere/x".into(),
        risk: Risk::Critical,
        evidence_ids: vec![],
    };
    let proof = manifest().admit_request(&request);
    assert_eq!(
        proof.verdict,
        Verdict::Deny(vec![
            "action is outside scope",
            "resource is outside scope",
            "risk exceeds the admitted ceiling",
            "request has no evidence reference",
        ])
    );
    assert!(verify(&manifest(), &request, &proof));
    assert_eq!(proof.scope_id, "local-research");
}

#[test]
fn root_itself_and_trailing_slashes_are_contained() {
    let mut m = manifest();
    m.allowed_roots = vec!["vault/".into()];
    let request = Request {
        action: "index".into(),
        resource: "vault".into(),
        risk: Risk::Medium,
        evidence_ids: vec!["t".into()],
    };
    assert_eq!(m.admit_request(&request).verdict, Verdict::Admit);
}

#[test]
fn forged_proofs_are_refused() {
    let request = Request {
        action: "read".into(),
        resource: "vault/a.md".into(),
        risk: Risk::High,
        evidence_ids: vec!["ticket-1".into()],
    };
    let mut proof = manifest().admit_request(&request);
    assert!(matches!(proof.verdict, Verdict::Deny(_)));
    proof.verdict = Verdict::Admit;
    assert!(!verify(&manifest(), &request, &proof));
    let mut proof = manifest().admit_request(&request);
    proof.receipt_id ^= 1;
    assert!(!verify(&manifest(), &request, &proof));
}

fn fnv(bytes: &[u8]) -> u64 {
    let mut value = 0xcbf29ce484222325u64;
    for byte in bytes {
        value ^= *byte as u64;
        value = value.wrapping_mul(0x100000001b3);
    }
    value
}

#[test]
fn digests_cover_the_canonical_request_and_verdict() {
    let request = Request {
        action: "read".into(),
        resource: "vault/a.md".into(),
        risk: Risk::Low,
        evidence_ids: vec!["t2".into(), "t1".into()],
    };
    let proof = manifest().admit_request(&request);
    let digest = fnv(b"v1|read|vault/a.md|Low|t1,t2");
    assert_eq!(proof.request_digest, digest);
    assert_eq!(
        proof.receipt_id,
        fnv(format!("v1|local-research|{digest:016x}|Admit").as_bytes())
    );
    let denied = Request {
        action: "read".into(),
        resource: "vault/a.md".into(),
        risk: Risk::Low,
        evidence_ids: vec![],
    };
    let proof = manifest().admit_request(&denied);
    let digest = fnv(b"v1|read|vault/a.md|Low|");
    assert_eq!(
        proof.receipt_id,
        fnv(format!("v1|local-research|{digest:016x}|Deny([\"request has no evidence reference\"])").as_bytes())
    );
}
