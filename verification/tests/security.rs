use epistemos_labs::security::{
    analyze, credential_in_line, excerpt, sql_concat_in_line, verify_evidence, weak_token_in_line,
    FindingKind, Scope, SourceFile,
};

fn scope() -> Scope {
    Scope {
        engagement_id: "lab-1".into(),
        authorized: true,
        allowed_files: vec!["app.rs".into()],
    }
}

fn fnv(bytes: &[u8]) -> u64 {
    let mut value = 0xcbf29ce484222325u64;
    for byte in bytes {
        value ^= *byte as u64;
        value = value.wrapping_mul(0x100000001b3);
    }
    value
}

#[test]
fn refuses_unauthorized_runs() {
    let mut denied = scope();
    denied.authorized = false;
    assert!(analyze(&denied, &[]).is_err());
}

#[test]
fn refuses_scope_drift() {
    let file = SourceFile {
        path: "other.rs".into(),
        text: String::new(),
    };
    assert!(analyze(&scope(), &[file]).is_err());
}

#[test]
fn finding_carries_replayable_redacted_evidence() {
    let file = SourceFile {
        path: "app.rs".into(),
        text: "let api_key = \"demo-secret\";".into(),
    };
    let report = analyze(&scope(), std::slice::from_ref(&file)).unwrap();
    assert_eq!(report.findings.len(), 1);
    assert!(!report.findings[0].evidence.excerpt.contains("demo-secret"));
    assert!(verify_evidence(&file, &report.findings[0].evidence));
}

#[test]
fn environment_lookup_is_not_flagged_as_embedded() {
    let file = SourceFile {
        path: "app.rs".into(),
        text: "let api_key = env::var(\"API_KEY\");".into(),
    };
    assert!(analyze(&scope(), &[file]).unwrap().findings.is_empty());
}

#[test]
fn refusal_messages_name_the_reason() {
    let mut denied = scope();
    denied.authorized = false;
    assert_eq!(
        analyze(&denied, &[]),
        Err("written authorization flag is required".to_string())
    );
    let file = SourceFile {
        path: "other.rs".into(),
        text: String::new(),
    };
    assert_eq!(
        analyze(&scope(), &[file]),
        Err("other.rs is outside the engagement scope".to_string())
    );
}

#[test]
fn evidence_has_exact_excerpt_and_digest() {
    let file = SourceFile {
        path: "app.rs".into(),
        text: "fn main() {}\n  let API_KEY = \"demo-secret\";".into(),
    };
    let report = analyze(&scope(), std::slice::from_ref(&file)).unwrap();
    assert_eq!(report.engagement_id, "lab-1");
    assert_eq!(report.findings.len(), 1);
    let finding = &report.findings[0];
    assert_eq!(finding.kind, FindingKind::EmbeddedCredential);
    assert_eq!(finding.evidence.path, "app.rs");
    assert_eq!(finding.evidence.line, 2);
    assert_eq!(finding.evidence.excerpt, "let API_KEY=<redacted>");
    assert_eq!(
        finding.evidence.digest,
        fnv(b"app.rs|2|let API_KEY=<redacted>")
    );
    assert_eq!(
        finding.remediation,
        "Move credentials to a secret store and rotate the exposed value."
    );
}

#[test]
fn sql_and_token_findings_are_sorted_by_line_then_kind() {
    let file = SourceFile {
        path: "app.rs".into(),
        text: "let token = rand::random(); let q = \"SELECT \" + x;\nlet q2 = format!(\"select {}\", y);"
            .into(),
    };
    let report = analyze(&scope(), std::slice::from_ref(&file)).unwrap();
    let kinds: Vec<(usize, FindingKind)> = report
        .findings
        .iter()
        .map(|f| (f.evidence.line, f.kind))
        .collect();
    assert_eq!(
        kinds,
        vec![
            (1, FindingKind::InsecureRandomToken),
            (1, FindingKind::SqlStringConstruction),
            (2, FindingKind::SqlStringConstruction),
        ]
    );
    for finding in &report.findings {
        assert!(verify_evidence(&file, &finding.evidence));
    }
}

#[test]
fn tampered_evidence_is_refused() {
    let file = SourceFile {
        path: "app.rs".into(),
        text: "let secret_key = 42;".into(),
    };
    let report = analyze(&scope(), std::slice::from_ref(&file)).unwrap();
    let mut evidence = report.findings[0].evidence.clone();
    evidence.line = 2;
    assert!(!verify_evidence(&file, &evidence));
    let mut evidence = report.findings[0].evidence.clone();
    evidence.digest ^= 1;
    assert!(!verify_evidence(&file, &evidence));
    let mut evidence = report.findings[0].evidence.clone();
    evidence.line = 0;
    assert!(!verify_evidence(&file, &evidence));
}

#[test]
fn detectors_read_the_lower_case_form() {
    assert!(credential_in_line("API_KEY = 1", "api_key = 1"));
    assert!(!credential_in_line("API_KEY: 1", "api_key: 1"));
    assert!(!credential_in_line("k = getenv()", "api_key = getenv()"));
    assert!(sql_concat_in_line("q = a + b", "select x"));
    assert!(!sql_concat_in_line("q = a", "select x"));
    assert!(weak_token_in_line("token = math.random()"));
    assert_eq!(excerpt("  my_key = 5", true), "my_key=<redacted>");
    assert_eq!(excerpt("  plain line  ", false), "plain line");
    assert_eq!(excerpt(&"x".repeat(200), false).len(), 160);
}
