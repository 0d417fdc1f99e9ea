use sha2::{Digest, Sha256};
use epistemos_labs::belnap::{
    evaluate, verify, BelnapValue, Evidence, GateDecision, GateError, Stance,
};

fn evidence(id: &str, stance: Stance) -> Evidence {
    Evidence {
        id: id.into(),
        source_digest: format!("sha256:{id}"),
        stance,
    }
}

#[test]
fn evidence_gate_covers_all_four_values() {
    assert_eq!(evaluate("c", vec![]).unwrap().value, BelnapValue::Neither);
    assert_eq!(
        evaluate("c", vec![evidence("a", Stance::Supports)])
            .unwrap()
            .value,
        BelnapValue::True
    );
    assert_eq!(
        evaluate("c", vec![evidence("a", Stance::Refutes)])
            .unwrap()
            .value,
        BelnapValue::False
    );
    assert_eq!(
        evaluate(
            "c",
            vec![
                evidence("a", Stance::Supports),
                evidence("b", Stance::Refutes)
            ]
        )
        .unwrap()
        .value,
        BelnapValue::Both
    );
}

#[test]
fn gate_abstains_on_conflict_and_unknown_only() {
    for value in BelnapValue::ALL {
        assert_eq!(
            GateDecision::from_value(value).abstains(),
            !value.is_classical()
        );
    }
}

#[test]
fn receipt_is_order_independent_and_replayable() {
    let left = evaluate(
        "claim",
        vec![
            evidence("b", Stance::Refutes),
            evidence("a", Stance::Supports),
        ],
    )
    .unwrap();
    let right = evaluate(
        "claim",
        vec![
            evidence("a", Stance::Supports),
            evidence("b", Stance::Refutes),
        ],
    )
    .unwrap();
    assert_eq!(left, right);
    assert!(verify(&left));
}

#[test]
fn tampering_breaks_verification() {
    let mut receipt = evaluate("claim", vec![evidence("a", Stance::Supports)]).unwrap();
    receipt.evidence[0].source_digest = "changed".into();
    assert!(!verify(&receipt));
}

#[test]
fn duplicate_evidence_is_rejected() {
    assert_eq!(
        evaluate(
            "claim",
            vec![
                evidence("a", Stance::Supports),
                evidence("a", Stance::Refutes)
            ]
        ),
        Err(GateError::DuplicateEvidenceId("a".into()))
    );
}

#[test]
fn both_lattices_satisfy_core_algebra_laws() {
    for a in BelnapValue::ALL {
        assert_eq!(a.not().not(), a);
        for b in BelnapValue::ALL {
            assert_eq!(a.truth_join(b), b.truth_join(a));
            assert_eq!(a.truth_meet(b), b.truth_meet(a));
            assert_eq!(a.information_join(b), b.information_join(a));
            assert_eq!(a.information_meet(b), b.information_meet(a));
            assert_eq!(a.truth_join(a.truth_meet(b)), a);
            assert_eq!(a.information_join(a.information_meet(b)), a);
            for c in BelnapValue::ALL {
                assert_eq!(a.truth_join(b).truth_join(c), a.truth_join(b.truth_join(c)));
                assert_eq!(
                    a.information_join(b).information_join(c),
                    a.information_join(b.information_join(c))
                );
            }
        }
    }
}

#[test]
fn blank_claim_and_blank_fields_are_refused() {
    assert_eq!(evaluate("  ", vec![]), Err(GateError::EmptyClaim));
    assert_eq!(
        evaluate("c", vec![evidence(" ", Stance::Supports)]),
        Err(GateError::EmptyEvidenceId)
    );
    let blank_digest = Evidence {
        id: "a".into(),
        source_digest: "\t".into(),
        stance: Stance::Supports,
    };
    assert_eq!(
        evaluate("c", vec![blank_digest]),
        Err(GateError::EmptySourceDigest)
    );
}

#[test]
fn decisions_follow_the_four_values() {
    assert_eq!(
        GateDecision::from_value(BelnapValue::True),
        GateDecision::AssertSupported
    );
    assert_eq!(
        GateDecision::from_value(BelnapValue::False),
        GateDecision::RejectRefuted
    );
    assert_eq!(
        GateDecision::from_value(BelnapValue::Both),
        GateDecision::AbstainConflict
    );
    assert_eq!(
        GateDecision::from_value(BelnapValue::Neither),
        GateDecision::AbstainUnknown
    );
    assert_eq!(BelnapValue::True.not(), BelnapValue::False);
    assert_eq!(BelnapValue::Both.not(), BelnapValue::Both);
    assert_eq!(
        BelnapValue::True.information_join(BelnapValue::False),
        BelnapValue::Both
    );
    assert_eq!(
        BelnapValue::True.information_meet(BelnapValue::False),
        BelnapValue::Neither
    );
}

#[test]
fn receipt_digest_is_a_sha256_hex_string_and_sorts_evidence() {
    let receipt = evaluate(
        "claim",
        vec![
            evidence("b", Stance::Refutes),
            evidence("a", Stance::Supports),
        ],
    )
    .unwrap();
    assert_eq!(receipt.version, 1);
    assert_eq!(receipt.evidence[0].id, "a");
    assert_eq!(receipt.evidence[1].id, "b");
    assert_eq!(receipt.decision, GateDecision::AbstainConflict);
    assert_eq!(receipt.digest.len(), 64);
    assert!(receipt.digest.chars().all(|c| c.is_ascii_hexdigit() && !c.is_ascii_uppercase()));
    let other = evaluate("claim2", vec![evidence("a", Stance::Supports)]).unwrap();
    assert_ne!(receipt.digest, other.digest);
}

fn sha256_hex(text: &str) -> String {
    Sha256::digest(text.as_bytes())
        .iter()
        .map(|b| format!("{b:02x}"))
        .collect()
}

#[test]
fn receipt_digest_covers_the_canonical_text() {
    let receipt = evaluate("claim", vec![evidence("a", Stance::Supports)]).unwrap();
    let canonical = "belnap-gate-v1|5:claim|True|AssertSupported|1:a|8:sha256:a|Supports|";
    assert_eq!(receipt.digest, sha256_hex(canonical));
}
