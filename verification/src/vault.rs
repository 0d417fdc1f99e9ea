//! A small recall benchmark over a note vault: notes are ranked for a query by
//! the number of lower-cased alphanumeric tokens they share with it, ties
//! broken by note id, and each case is scored by recall and reciprocal rank,
//! kept as exact fractions.

use vstd::prelude::*;

use crate::collections::{views, TextSet};
use crate::order::{lemma_sort_map, lemma_sort_permutes, sort_by, sort_with};
use crate::text::{decimal, digit_char, push_decimal, push_str, text_less, text_lt};
use crate::tokens::{overlap, shared_count, tokens};

verus! {

broadcast use vstd::seq_lib::group_to_multiset_ensures;

/// A note of the vault.
#[derive(Clone, Debug)]
pub struct Note {
    pub id: String,
    pub text: String,
}

/// A benchmark case: a query and the ids of the notes relevant to it.
#[derive(Clone, Debug)]
pub struct Case {
    pub query: String,
    pub relevant: TextSet,
}

/// An exact non-negative ratio.
#[derive(Clone, Copy, Debug, PartialEq, Eq)]
pub struct Fraction {
    pub numerator: usize,
    pub denominator: usize,
}

/// The outcome of one case: the ranked note ids, the share of relevant notes
/// that were ranked, and the reciprocal of the first relevant note's rank.
#[derive(Clone, Debug, PartialEq)]
pub struct CaseResult {
    pub ranked: Vec<String>,
    pub recall: Fraction,
    pub reciprocal_rank: Fraction,
}

/// The notes sharing a token with the query, as (shared token count, id)
/// pairs in vault order.
pub open spec fn scored(notes: Seq<Note>, query: Seq<char>) -> Seq<(nat, Seq<char>)>
    decreases notes.len(),
{
    if notes.len() == 0 {
        Seq::empty()
    } else {
        let rest = scored(notes.drop_last(), query);
        let note = notes.last();
        let s = overlap(query, note.text@);
        if s > 0 {
            rest.push((s, note.id@))
        } else {
            rest
        }
    }
}

/// Scored notes by rank: more shared tokens first, then by id, byte-wise.
pub open spec fn by_score() -> spec_fn((nat, Seq<char>), (nat, Seq<char>)) -> bool {
    |a: (nat, Seq<char>), b: (nat, Seq<char>)| a.0 > b.0 || (a.0 == b.0 && text_lt(a.1, b.1))
}

/// The ids of the notes a query ranks: the scored notes stably sorted by
/// rank, at most `limit` of them.
pub open spec fn ranking(notes: Seq<Note>, query: Seq<char>, limit: nat) -> Seq<Seq<char>> {
    top_ids(scored(notes, query), limit)
}

/// The ids of scored notes stably sorted by rank, at most `limit` of them.
pub open spec fn top_ids(scored: Seq<(nat, Seq<char>)>, limit: nat) -> Seq<Seq<char>> {
    let sorted = sort_by(scored, by_score());
    let kept = if limit < sorted.len() {
        sorted.take(limit as int)
    } else {
        sorted
    };
    kept.map_values(|p: (nat, Seq<char>)| p.1)
}

/// How many of the ids are in `relevant` (each occurrence counts).
pub open spec fn hits(ids: Seq<Seq<char>>, relevant: Set<Seq<char>>) -> nat
    decreases ids.len(),
{
    if ids.len() == 0 {
        0
    } else {
        hits(ids.drop_last(), relevant) + if relevant.contains(ids.last()) {
            1nat
        } else {
            0nat
        }
    }
}

/// The position of the first of the first `n` ids that is in `relevant`.
pub open spec fn first_hit(ids: Seq<Seq<char>>, relevant: Set<Seq<char>>, n: int) -> Option<nat>
    decreases n,
{
    if n <= 0 {
        None
    } else {
        match first_hit(ids, relevant, n - 1) {
            Some(k) => Some(k),
            None => if relevant.contains(ids[n - 1]) {
                Some((n - 1) as nat)
            } else {
                None
            },
        }
    }
}

/// Recall: the share of the relevant notes that were found; a case with no
/// relevant notes has recall one.
pub open spec fn recall_of(found: nat, relevant: nat) -> Fraction {
    if relevant == 0 {
        Fraction { numerator: 1, denominator: 1 }
    } else {
        Fraction { numerator: found as usize, denominator: relevant as usize }
    }
}

/// Reciprocal rank: one over the rank of the first relevant note, or zero
/// when none was ranked.
pub open spec fn reciprocal_of(first: Option<nat>) -> Fraction {
    match first {
        Some(i) => Fraction { numerator: 1, denominator: (i + 1) as usize },
        None => Fraction { numerator: 0, denominator: 1 },
    }
}

/// The scored pair of an exec (score, id) pair.
pub open spec fn score_view(p: (usize, String)) -> (nat, Seq<char>) {
    (p.0 as nat, p.1@)
}

/// `score_view` as a function value.
pub open spec fn score_view_fn() -> spec_fn((usize, String)) -> (nat, Seq<char>) {
    |p: (usize, String)| score_view(p)
}

/// The exec order on (score, id) pairs that `by_score` describes.
spec fn by_score_exec() -> spec_fn((usize, String), (usize, String)) -> bool {
    |a: (usize, String), b: (usize, String)| a.0 > b.0 || (a.0 == b.0 && text_lt(a.1@, b.1@))
}

/// Ranks the notes for a query: those sharing at least one lower-cased
/// alphanumeric token with it, by the number of shared tokens (most first),
/// ties broken by id; at most `limit` ids.
pub fn rank(notes: &[Note], query: &str, limit: usize) -> (r: Vec<String>)
    ensures
        views(r@) == ranking(notes@, query@, limit as nat),
{
    let query_tokens = tokens(query);
    let mut pairs: Vec<(usize, String)> = Vec::new();
    let mut i: usize = 0;
    while i < notes.len()
        invariant
            i <= notes.len(),
            query_tokens.contents() == crate::tokens::token_set(query@),
            pairs@.map_values(score_view_fn()) == scored(notes@.take(i as int), query@),
        decreases notes.len() - i,
    {
        let note = &notes[i];
        let note_tokens = tokens(note.text.as_str());
        let shared = shared_count(&query_tokens, &note_tokens);
        assert(shared == overlap(query@, note.text@));
        assert(notes@.take(i + 1).drop_last() =~= notes@.take(i as int));
        assert(notes@.take(i + 1).last() == notes@[i as int]);
        if shared > 0 {
            let ghost before = pairs@;
            let id = note.id.clone();
            pairs.push((shared, id));
            assert(score_view_fn()((shared, id)) == (overlap(query@, note.text@), note.id@));
            assert(pairs@.map_values(score_view_fn()) =~= before.map_values(score_view_fn()).push(score_view_fn()((shared, id))));
        }
        i = i + 1;
    }
    assert(notes@.take(i as int) =~= notes@);
    rank_scored(pairs, limit)
}

/// Ranks scored notes, given as (shared token count, id) pairs: stably by
/// count, most first, then by id; at most `limit` ids.
pub fn rank_scored(pairs: Vec<(usize, String)>, limit: usize) -> (r: Vec<String>)
    ensures
        views(r@) == top_ids(pairs@.map_values(score_view_fn()), limit as nat),
{
    let ghost input = pairs@.map_values(score_view_fn());
    let less = |a: &(usize, String), b: &(usize, String)| -> (r: bool)
        ensures
            r == (a.0 > b.0 || (a.0 == b.0 && text_lt(a.1@, b.1@))),
        { a.0 > b.0 || (a.0 == b.0 && text_less(a.1.as_str(), b.1.as_str())) };
    let sorted = sort_with(pairs, &less, Ghost(by_score_exec()));
    proof {
        lemma_sort_map(pairs@, score_view_fn(), by_score_exec(), by_score());
        lemma_sort_permutes(pairs@, by_score_exec());
    }
    let ghost s = sort_by(input, by_score());
    assert(sorted@.map_values(score_view_fn()) == s);
    let mut out: Vec<String> = Vec::new();
    let mut k: usize = 0;
    while k < sorted.len() && k < limit
        invariant
            k <= sorted.len(),
            k <= limit,
            sorted@.map_values(score_view_fn()) == s,
            views(out@) == s.take(k as int).map_values(|p: (nat, Seq<char>)| p.1),
        decreases sorted.len() - k,
    {
        let ghost before = views(out@);
        let id = sorted[k].1.clone();
        out.push(id);
        assert(s[k as int] == score_view_fn()(sorted@[k as int]));
        assert(s[k as int].1 == id@);
        assert(views(out@) =~= before.push(id@));
        assert(s.take(k + 1) =~= s.take(k as int).push(s[k as int]));
        assert(views(out@) =~= s.take(k + 1).map_values(|p: (nat, Seq<char>)| p.1));
        k = k + 1;
    }
    assert(views(out@) =~= top_ids(input, limit as nat)) by {
        if limit < s.len() {
            assert(k == limit);
        } else {
            assert(k == s.len());
            assert(s.take(k as int) =~= s);
        }
    }
    out
}

/// The reciprocal rank's position is the first relevant one: `first_hit`
/// gives a position exactly when some of the first `n` ids is relevant, the id
/// there is relevant, and no id before it is.
pub proof fn lemma_first_hit_is_first(ids: Seq<Seq<char>>, relevant: Set<Seq<char>>, n: int)
    requires
        0 <= n <= ids.len(),
    ensures
        first_hit(ids, relevant, n) is Some == (exists|j: int|
            0 <= j < n && relevant.contains(#[trigger] ids[j])),
        first_hit(ids, relevant, n) matches Some(k) ==> {
            &&& k < n
            &&& relevant.contains(ids[k as int])
            &&& forall|j: int| 0 <= j < k ==> !relevant.contains(#[trigger] ids[j])
        },
    decreases n,
{
    if n > 0 {
        lemma_first_hit_is_first(ids, relevant, n - 1);
        if first_hit(ids, relevant, n - 1) is None && !relevant.contains(ids[n - 1]) {
            assert forall|j: int| 0 <= j < n implies !relevant.contains(#[trigger] ids[j]) by {
                if j < n - 1 {
                    assert(!(exists|j2: int| 0 <= j2 < n - 1 && relevant.contains(#[trigger] ids[j2])));
                }
            }
        }
        if first_hit(ids, relevant, n - 1) is None && relevant.contains(ids[n - 1]) {
            assert forall|j: int| 0 <= j < n - 1 implies !relevant.contains(#[trigger] ids[j]) by {
                assert(!(exists|j2: int| 0 <= j2 < n - 1 && relevant.contains(#[trigger] ids[j2])));
            }
        }
    }
}

/// Recall's numerator counts exactly the ranked ids that are relevant.
pub proof fn lemma_hits_count(ids: Seq<Seq<char>>, relevant: Set<Seq<char>>)
    ensures
        hits(ids, relevant) == ids.filter(|x: Seq<char>| relevant.contains(x)).len(),
    decreases ids.len(),
{
    reveal(Seq::filter);
    if ids.len() > 0 {
        lemma_hits_count(ids.drop_last(), relevant);
    }
}

proof fn lemma_first_hit_bound(ids: Seq<Seq<char>>, relevant: Set<Seq<char>>, n: int)
    ensures
        first_hit(ids, relevant, n) matches Some(k) ==> k < n,
    decreases n,
{
    if n > 0 {
        lemma_first_hit_bound(ids, relevant, n - 1);
    }
}

proof fn lemma_hits_bound(ids: Seq<Seq<char>>, relevant: Set<Seq<char>>)
    ensures
        hits(ids, relevant) <= ids.len(),
    decreases ids.len(),
{
    if ids.len() > 0 {
        lemma_hits_bound(ids.drop_last(), relevant);
    }
}

/// Scores one case: ranks the notes for its query, then counts the ranked ids
/// that are relevant (recall, over the number of relevant ids) and finds the
/// first relevant one (reciprocal rank).
pub fn evaluate(notes: &[Note], case: &Case, limit: usize) -> (r: CaseResult)
    ensures
        views(r.ranked@) == ranking(notes@, case.query@, limit as nat),
        r.recall == recall_of(
            hits(views(r.ranked@), case.relevant.contents()),
            case.relevant.contents().len(),
        ),
        r.reciprocal_rank == reciprocal_of(
            first_hit(views(r.ranked@), case.relevant.contents(), r.ranked@.len() as int),
        ),
{
    let ranked = rank(notes, case.query.as_str(), limit);
    let ghost ids = views(ranked@);
    let ghost rel = case.relevant.contents();
    let mut found: usize = 0;
    let mut first: Option<usize> = None;
    let mut i: usize = 0;
    while i < ranked.len()
        invariant
            i <= ranked.len(),
            ids == views(ranked@),
            rel == case.relevant.contents(),
            found == hits(ids.take(i as int), rel),
            found <= i,
            first == match first_hit(ids, rel, i as int) {
                Some(k) => Some(k as usize),
                None => None::<usize>,
            },
        decreases ranked.len() - i,
    {
        assert(ids.take(i + 1).drop_last() =~= ids.take(i as int));
        assert(ids.take(i + 1).last() == ids[i as int]);
        if case.relevant.contains(ranked[i].as_str()) {
            found = found + 1;
            if first.is_none() {
                first = Some(i);
            }
        }
        proof {
            lemma_first_hit_bound(ids, rel, i as int);
        }
        i = i + 1;
    }
    assert(ids.take(i as int) =~= ids);
    let total = case.relevant.len();
    let recall = if total == 0 {
        Fraction { numerator: 1, denominator: 1 }
    } else {
        Fraction { numerator: found, denominator: total }
    };
    proof {
        lemma_first_hit_bound(ids, rel, i as int);
    }
    let reciprocal_rank = match first {
        Some(k) => Fraction { numerator: 1, denominator: k + 1 },
        None => Fraction { numerator: 0, denominator: 1 },
    };
    CaseResult { ranked, recall, reciprocal_rank }
}

/// A number below one hundred as two decimal digits.
pub open spec fn two_digits(n: nat) -> Seq<char> {
    seq![digit_char(n / 10), digit_char(n % 10)]
}

/// The id of the `n`th synthetic note.
pub open spec fn synthetic_id(n: nat) -> Seq<char> {
    "note-"@ + two_digits(n)
}

/// The marker token of the `n`th synthetic note, which is also its query.
pub open spec fn synthetic_marker(n: nat) -> Seq<char> {
    "topic"@ + two_digits(n)
}

/// The text of the `n`th synthetic note.
pub open spec fn synthetic_text(n: nat) -> Seq<char> {
    "research record for "@ + synthetic_marker(n) + " deterministic vault fixture"@
}

fn push_two_digits(s: &mut String, n: u64)
    requires
        n < 100,
    ensures
        final(s)@ == old(s)@ + two_digits(n as nat),
{
    push_decimal(s, n / 10);
    push_decimal(s, n % 10);
    assert(final(s)@ =~= old(s)@ + two_digits(n as nat));
}

/// The fixed fifty-case benchmark: note `n` reads "research record for
/// topicNN deterministic vault fixture" under id "note-NN", and case `n`
/// queries "topicNN" with that one note relevant.
pub fn synthetic_50() -> (r: (Vec<Note>, Vec<Case>))
    ensures
        r.0.len() == 50,
        r.1.len() == 50,
        forall|n: int|
            0 <= n < 50 ==> {
                &&& (#[trigger] r.0@[n]).id@ == synthetic_id(n as nat)
                &&& r.0@[n].text@ == synthetic_text(n as nat)
            },
        forall|n: int|
            0 <= n < 50 ==> {
                &&& (#[trigger] r.1@[n]).query@ == synthetic_marker(n as nat)
                &&& r.1@[n].relevant.contents() == set![synthetic_id(n as nat)]
            },
{
    let mut notes: Vec<Note> = Vec::new();
    let mut cases: Vec<Case> = Vec::new();
    let mut index: u64 = 0;
    while index < 50
        invariant
            index <= 50,
            notes.len() == index,
            cases.len() == index,
            forall|n: int|
                0 <= n < index ==> {
                    &&& (#[trigger] notes@[n]).id@ == synthetic_id(n as nat)
                    &&& notes@[n].text@ == synthetic_text(n as nat)
                },
            forall|n: int|
                0 <= n < index ==> {
                    &&& (#[trigger] cases@[n]).query@ == synthetic_marker(n as nat)
                    &&& cases@[n].relevant.contents() == set![synthetic_id(n as nat)]
                },
        decreases 50 - index,
    {
        let mut id = String::new();
        push_str(&mut id, "note-");
        push_two_digits(&mut id, index);
        let mut marker = String::new();
        push_str(&mut marker, "topic");
        push_two_digits(&mut marker, index);
        let mut text = String::new();
        push_str(&mut text, "research record for ");
        push_str(&mut text, marker.as_str());
        push_str(&mut text, " deterministic vault fixture");
        assert(text@ =~= synthetic_text(index as nat));
        let mut relevant = TextSet::new();
        relevant.insert(id.clone());
        assert(relevant.contents() =~= set![synthetic_id(index as nat)]);
        notes.push(Note { id, text });
        cases.push(Case { query: marker, relevant });
        index = index + 1;
    }
    (notes, cases)
}

/// What one note adds to the scored notes of a query.
pub open spec fn contribution(query: Seq<char>, note: Note) -> vstd::multiset::Multiset<(nat, Seq<char>)> {
    let s = overlap(query, note.text@);
    if s > 0 {
        vstd::multiset::Multiset::singleton((s, note.id@))
    } else {
        vstd::multiset::Multiset::empty()
    }
}

proof fn lemma_scored_last(notes: Seq<Note>, query: Seq<char>)
    requires
        notes.len() > 0,
    ensures
        scored(notes, query).to_multiset() == scored(notes.drop_last(), query).to_multiset().add(
            contribution(query, notes.last()),
        ),
{
    let rest = scored(notes.drop_last(), query);
    let note = notes.last();
    let sc = overlap(query, note.text@);
    if sc > 0 {
        assert(rest.push((sc, note.id@)).to_multiset() =~= rest.to_multiset().add(
            contribution(query, note),
        ));
    } else {
        assert(rest.to_multiset() =~= rest.to_multiset().add(contribution(query, note)));
    }
}

proof fn lemma_scored_remove(notes: Seq<Note>, query: Seq<char>, j: int)
    requires
        0 <= j < notes.len(),
    ensures
        scored(notes, query).to_multiset() == scored(notes.remove(j), query).to_multiset().add(
            contribution(query, notes[j]),
        ),
    decreases notes.len(),
{
    lemma_scored_last(notes, query);
    let init = notes.drop_last();
    if j == notes.len() - 1 {
        assert(notes.remove(j) =~= init);
    } else {
        lemma_scored_remove(init, query, j);
        let r = notes.remove(j);
        assert(r.drop_last() =~= init.remove(j));
        assert(r.last() == notes.last());
        assert(init[j] == notes[j]);
        lemma_scored_last(r, query);
        let base = scored(init.remove(j), query).to_multiset();
        let cj = contribution(query, notes[j]);
        let cl = contribution(query, notes.last());
        assert(base.add(cj).add(cl) =~= base.add(cl).add(cj));
    }
}

proof fn lemma_scored_permutation(a: Seq<Note>, b: Seq<Note>, query: Seq<char>)
    requires
        a.to_multiset() == b.to_multiset(),
    ensures
        scored(a, query).to_multiset() == scored(b, query).to_multiset(),
    decreases a.len(),
{
    if a.len() == 0 {
        assert(b.to_multiset().len() == 0);
        assert(b.len() == 0);
        assert(scored(a, query) =~= scored(b, query));
    } else {
        let x = a.last();
        assert(a.to_multiset().count(x) > 0) by {
            assert(a.contains(x)) by {
                assert(a[a.len() - 1] == x);
            }
        }
        assert(b.contains(x));
        let j = choose|j: int| 0 <= j < b.len() && b[j] == x;
        assert(a.drop_last().to_multiset() =~= b.remove(j).to_multiset()) by {
            assert(a =~= a.drop_last().push(x));
            vstd::seq_lib::to_multiset_remove(b, j);
        }
        lemma_scored_permutation(a.drop_last(), b.remove(j), query);
        lemma_scored_last(a, query);
        lemma_scored_remove(b, query, j);
    }
}

proof fn lemma_by_score_total()
    ensures
        crate::order::strict_weak_order(by_score()),
        forall|s: Seq<(nat, Seq<char>)>| crate::order::comparable_items(s, by_score()),
{
    let lt = by_score();
    assert forall|a: (nat, Seq<char>)| !#[trigger] lt(a, a) by {
        crate::text::lemma_text_lt_irreflexive(a.1);
    }
    assert forall|a: (nat, Seq<char>), b: (nat, Seq<char>), c: (nat, Seq<char>)|
        #[trigger] lt(a, b) && #[trigger] lt(b, c) implies lt(a, c) by {
        if a.0 == b.0 && b.0 == c.0 {
            crate::text::lemma_text_lt_transitive(a.1, b.1, c.1);
        }
    }
    assert forall|a: (nat, Seq<char>), b: (nat, Seq<char>), c: (nat, Seq<char>)|
        #[trigger] lt(a, b) implies lt(a, c) || #[trigger] lt(c, b) by {
        if a.0 == b.0 && c.0 == a.0 {
            if c.1 == a.1 {
            } else {
                crate::text::lemma_text_lt_total(a.1, c.1);
                if text_lt(c.1, a.1) {
                    crate::text::lemma_text_lt_transitive(c.1, a.1, b.1);
                }
            }
        }
    }
    assert forall|s: Seq<(nat, Seq<char>)>| crate::order::comparable_items(s, by_score()) by {
        assert forall|x: (nat, Seq<char>), y: (nat, Seq<char>)|
            s.contains(x) && s.contains(y) && x != y implies #[trigger] lt(x, y) || #[trigger] lt(
            y,
            x,
        ) by {
            if x.0 == y.0 {
                crate::text::lemma_text_lt_total(x.1, y.1);
            }
        }
    }
}

/// Ranked notes come in order: the shared token counts never rise along the
/// ranking, and among equal counts the ids never fall byte-wise.
pub proof fn lemma_ranking_order(scored: Seq<(nat, Seq<char>)>)
    ensures
        forall|i: int, j: int|
            0 <= i < j < sort_by(scored, by_score()).len() ==> {
                let a = #[trigger] sort_by(scored, by_score())[i];
                let b = #[trigger] sort_by(scored, by_score())[j];
                a.0 > b.0 || (a.0 == b.0 && !text_lt(b.1, a.1))
            },
{
    lemma_by_score_total();
    crate::order::lemma_sort_sorted(scored, by_score());
}

/// Ranking does not depend on the order of the notes in the vault: any
/// rearrangement of the same notes ranks the same ids in the same order.
pub proof fn lemma_ranking_ignores_note_order(
    a: Seq<Note>,
    b: Seq<Note>,
    query: Seq<char>,
    limit: nat,
)
    requires
        a.to_multiset() == b.to_multiset(),
    ensures
        ranking(a, query, limit) == ranking(b, query, limit),
{
    lemma_scored_permutation(a, b, query);
    lemma_by_score_total();
    crate::order::lemma_sort_canonical(scored(a, query), scored(b, query), by_score());
}

} // verus!
