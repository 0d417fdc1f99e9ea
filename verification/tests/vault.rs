use epistemos_labs::collections::TextSet;
use epistemos_labs::vault::{evaluate, rank, synthetic_50, Case, Fraction, Note};

fn ratio(f: Fraction) -> f64 {
    f.numerator as f64 / f.denominator as f64
}

#[test]
fn tie_breaks_by_stable_id() {
    let notes = vec![
        Note {
            id: "b".into(),
            text: "same".into(),
        },
        Note {
            id: "a".into(),
            text: "same".into(),
        },
    ];
    assert_eq!(rank(&notes, "same", 2), vec!["a", "b"]);
}

#[test]
fn missed_relevant_note_is_visible() {
    let result = evaluate(
        &[],
        &Case {
            query: "x".into(),
            relevant: TextSet::from_vec(vec!["a".into()]),
        },
        5,
    );
    assert_eq!(ratio(result.recall), 0.0);
    assert_eq!(ratio(result.reciprocal_rank), 0.0);
}

#[test]
fn synthetic_cases_each_find_their_note_first() {
    let (notes, cases) = synthetic_50();
    assert_eq!(notes.len(), 50);
    assert_eq!(cases.len(), 50);
    assert_eq!(notes[7].id, "note-07");
    assert_eq!(
        notes[7].text,
        "research record for topic07 deterministic vault fixture"
    );
    assert_eq!(cases[42].query, "topic42");
    for (index, case) in cases.iter().enumerate() {
        let result = evaluate(&notes, case, 5);
        assert_eq!(result.ranked, vec![notes[index].id.clone()]);
        assert_eq!(result.recall, Fraction { numerator: 1, denominator: 1 });
        assert_eq!(
            result.reciprocal_rank,
            Fraction { numerator: 1, denominator: 1 }
        );
    }
}

#[test]
fn more_shared_tokens_rank_first_and_limit_applies() {
    let notes = vec![
        Note {
            id: "one".into(),
            text: "alpha".into(),
        },
        Note {
            id: "two".into(),
            text: "Alpha, BETA!".into(),
        },
        Note {
            id: "none".into(),
            text: "gamma".into(),
        },
    ];
    assert_eq!(rank(&notes, "alpha beta", 5), vec!["two", "one"]);
    assert_eq!(rank(&notes, "alpha beta", 1), vec!["two"]);
    assert!(rank(&notes, "delta", 5).is_empty());
    let mut reversed = notes.clone();
    reversed.reverse();
    assert_eq!(rank(&reversed, "alpha beta", 5), rank(&notes, "alpha beta", 5));
}

#[test]
fn recall_and_reciprocal_rank_are_exact_fractions() {
    let notes = vec![
        Note {
            id: "a".into(),
            text: "x y".into(),
        },
        Note {
            id: "b".into(),
            text: "x".into(),
        },
        Note {
            id: "c".into(),
            text: "x".into(),
        },
    ];
    let case = Case {
        query: "x y".into(),
        relevant: TextSet::from_vec(vec!["b".into(), "z".into(), "c".into()]),
    };
    let result = evaluate(&notes, &case, 2);
    assert_eq!(result.ranked, vec!["a", "b"]);
    assert_eq!(result.recall, Fraction { numerator: 1, denominator: 3 });
    assert_eq!(
        result.reciprocal_rank,
        Fraction { numerator: 1, denominator: 2 }
    );
    let empty = Case {
        query: "x".into(),
        relevant: TextSet::new(),
    };
    let result = evaluate(&notes, &empty, 2);
    assert_eq!(result.recall, Fraction { numerator: 1, denominator: 1 });
    assert_eq!(
        result.reciprocal_rank,
        Fraction { numerator: 0, denominator: 1 }
    );
}

#[test]
fn scored_pairs_rank_by_count_then_id() {
    let ranked = epistemos_labs::vault::rank_scored(
        vec![(1, "b".into()), (2, "c".into()), (1, "a".into()), (2, "b".into())],
        3,
    );
    assert_eq!(ranked, vec!["b", "c", "a"]);
}
