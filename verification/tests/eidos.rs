use epistemos_labs::eidos::{rank_citations, score_milli, Citation, Document, Eidos};

fn corpus() -> Eidos {
    let mut eidos = Eidos::default();
    eidos.insert(Document {
        id: "a".into(),
        text: "Deterministic receipts can be replayed.".into(),
    });
    eidos.insert(Document {
        id: "b".into(),
        text: "Closed citations point into admitted local text.".into(),
    });
    eidos
}

#[test]
fn retrieval_is_deterministic_and_closed() {
    let eidos = corpus();
    let first = eidos.retrieve("deterministic replay", 2);
    assert_eq!(first, eidos.retrieve("deterministic replay", 2));
    assert!(eidos.validate(&first).is_ok());
}

#[test]
fn fabricated_quote_is_rejected() {
    let eidos = corpus();
    let mut packet = eidos.retrieve("closed citations", 1);
    packet.citations[0].quote.push_str(" invented");
    assert!(eidos.validate(&packet).is_err());
}

#[test]
fn corpus_mutation_invalidates_old_packet() {
    let mut eidos = corpus();
    let packet = eidos.retrieve("receipts", 1);
    eidos.insert(Document {
        id: "c".into(),
        text: "new text".into(),
    });
    assert!(eidos.validate(&packet).is_err());
}

#[test]
fn retrieval_scores_and_ranks_whole_documents() {
    let eidos = corpus();
    let packet = eidos.retrieve("Closed TEXT receipts", 5);
    assert_eq!(packet.query, "Closed TEXT receipts");
    let ids: Vec<&str> = packet
        .citations
        .iter()
        .map(|c| c.document_id.as_str())
        .collect();
    assert_eq!(ids, vec!["b", "a"]);
    assert_eq!(packet.citations[0].score_milli, 666);
    assert_eq!(packet.citations[1].score_milli, 333);
    assert_eq!(packet.citations[0].byte_start, 0);
    assert_eq!(
        packet.citations[0].byte_end,
        "Closed citations point into admitted local text.".len()
    );
    assert_eq!(
        packet.citations[0].quote,
        "Closed citations point into admitted local text."
    );
    let limited = eidos.retrieve("Closed TEXT receipts", 1);
    assert_eq!(limited.citations.len(), 1);
    assert!(eidos.retrieve("nothing matches", 5).citations.is_empty());
}

#[test]
fn validation_reports_the_first_fault() {
    let eidos = corpus();
    let mut packet = eidos.retrieve("closed", 1);
    packet.corpus_digest ^= 1;
    assert_eq!(
        eidos.validate(&packet),
        Err("corpus digest changed".to_string())
    );
    let mut packet = eidos.retrieve("closed", 1);
    packet.citations[0].document_id = "zz".into();
    assert_eq!(
        eidos.validate(&packet),
        Err("missing document zz".to_string())
    );
    let mut packet = eidos.retrieve("closed", 1);
    packet.citations[0].byte_end = 1000;
    assert_eq!(
        eidos.validate(&packet),
        Err("citation boundary is invalid".to_string())
    );
    let mut packet = eidos.retrieve("closed", 1);
    packet.citations[0].byte_end = 6;
    assert_eq!(
        eidos.validate(&packet),
        Err("quote mismatch for b".to_string())
    );
    packet.citations[0].quote = "Closed".into();
    assert!(eidos.validate(&packet).is_ok());
}

#[test]
fn checked_retrieval_matches_retrieval_when_scores_fit() {
    let eidos = corpus();
    assert_eq!(
        eidos.try_retrieve("deterministic replay", 2),
        Some(eidos.retrieve("deterministic replay", 2))
    );
}

#[test]
fn scores_are_thousandths_rounded_down() {
    assert_eq!(score_milli(2, 3), 666);
    assert_eq!(score_milli(1, 0), 1000);
    assert_eq!(score_milli(0, 5), 0);
}

#[test]
fn citations_rank_by_score_then_id() {
    let citation = |id: &str, score: u32| Citation {
        document_id: id.into(),
        byte_start: 0,
        byte_end: 0,
        quote: String::new(),
        score_milli: score,
    };
    let ranked = rank_citations(
        vec![citation("b", 10), citation("a", 10), citation("c", 20)],
        2,
    );
    let ids: Vec<&str> = ranked.iter().map(|c| c.document_id.as_str()).collect();
    assert_eq!(ids, vec!["c", "a"]);
}
