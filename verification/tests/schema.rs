use epistemos_labs::collections::{TextMap, TextSet};
use epistemos_labs::schema::{replay, Document, Patch, Schema};

fn schema() -> Schema {
    Schema {
        required: TextSet::from_vec(vec!["id".into(), "version".into()]),
        defaults: TextMap::from_pairs(vec![("version".into(), "1".into())]),
    }
}

fn document(pairs: &[(&str, &str)]) -> Document {
    Document::from_pairs(
        pairs
            .iter()
            .map(|(k, v)| (k.to_string(), v.to_string()))
            .collect(),
    )
}

#[test]
fn repair_converges_and_replays() {
    let original: [(String, String); 1] = [("id".into(), "doc-1".into())];
    let mut document: Document = Document::from_pairs(original.clone().into_iter().collect());
    let witness = schema().repair(&mut document, 4);
    assert!(witness.converged);
    assert_eq!(
        replay(&Document::from_pairs(original.into_iter().collect()), &witness),
        document
    );
}

#[test]
fn missing_default_cannot_be_hidden() {
    let mut document = Document::new();
    let witness = schema().repair(&mut document, 4);
    assert!(!witness.converged);
    assert_eq!(schema().missing(&document), vec!["id"]);
}

#[test]
fn zero_round_budget_changes_nothing() {
    let mut document = Document::new();
    let witness = schema().repair(&mut document, 0);
    assert!(witness.rounds.is_empty());
    assert!(!witness.converged);
}

#[test]
fn repair_records_one_round_of_default_patches() {
    let mut doc = document(&[("id", "doc-1")]);
    let witness = schema().repair(&mut doc, 4);
    assert_eq!(
        witness.rounds,
        vec![vec![Patch {
            field: "version".into(),
            before: None,
            after: "1".into(),
        }]]
    );
    assert_eq!(doc, document(&[("id", "doc-1"), ("version", "1")]));
    assert_eq!(doc.get("version"), Some(&"1".to_string()));
}

#[test]
fn repair_is_idempotent_and_keeps_existing_fields() {
    let mut doc = document(&[("id", "doc-1"), ("extra", "x"), ("version", "7")]);
    let before = document(&[("id", "doc-1"), ("extra", "x"), ("version", "7")]);
    let witness = schema().repair(&mut doc, 4);
    assert!(witness.rounds.is_empty());
    assert!(witness.converged);
    assert_eq!(doc, before);
    let mut again = document(&[("id", "doc-1")]);
    schema().repair(&mut again, 4);
    let snapshot = again.clone();
    let second = schema().repair(&mut again, 4);
    assert!(second.rounds.is_empty());
    assert_eq!(again, snapshot);
}

#[test]
fn missing_lists_required_fields_in_order() {
    let doc = document(&[("other", "y")]);
    assert_eq!(schema().missing(&doc), vec!["id", "version"]);
}
