//! Four-valued (Belnap) evidence aggregation with deterministic abstention
//! receipts.
//!
//! Evidence may support a claim, refute it, do both, or do neither; an evidence gate
//! maps those cases onto Belnap's four values and refuses to manufacture
//! certainty when evidence conflicts or is absent. Every decision is bound to a
//! SHA-256 digest of a canonical, length-prefixed rendering of the claim, the
//! evidence in id order, the value and the decision.

use vstd::prelude::*;

use crate::digest::{sha256, sha256_digest};
use crate::order::{
    comparable_items, lemma_sort_canonical, lemma_sort_permutes, sort_by, sort_with,
    strict_weak_order,
};
use crate::text::{
    blank, bytes_lt, decimal, hex_bytes, is_blank, lemma_bytes_lt_irreflexive,
    lemma_bytes_lt_total, lemma_bytes_lt_transitive, lemma_decimal_digits,
    lemma_decimal_injective, lemma_utf8_append, lemma_utf8_injective, lemma_utf8_nonempty, push_decimal,
    push_hex_bytes, push_str, text_eq, text_less, text_lt, utf8,
};

verus! {

broadcast use vstd::seq_lib::group_to_multiset_ensures;

/// One of Belnap's four truth values.
#[derive(Clone, Copy, Debug, Eq, Hash, Ord, PartialEq, PartialOrd, Structural)]
pub enum BelnapValue {
    True,
    False,
    Both,
    Neither,
}

impl BelnapValue {
    /// The four values.
    pub const ALL: [BelnapValue; 4] = [
        BelnapValue::True,
        BelnapValue::False,
        BelnapValue::Both,
        BelnapValue::Neither,
    ];

    /// Whether the value carries support.
    pub open spec fn supported(self) -> bool {
        self is True || self is Both
    }

    /// Whether the value carries refutation.
    pub open spec fn refuted(self) -> bool {
        self is False || self is Both
    }

    /// The value with the given support and refutation bits.
    pub open spec fn of_bits(supported: bool, refuted: bool) -> BelnapValue {
        if supported && refuted {
            BelnapValue::Both
        } else if supported {
            BelnapValue::True
        } else if refuted {
            BelnapValue::False
        } else {
            BelnapValue::Neither
        }
    }

    /// Negation: support and refutation trade places.
    pub open spec fn negation(self) -> BelnapValue {
        Self::of_bits(self.refuted(), self.supported())
    }

    /// Meet under the truth ordering.
    pub open spec fn meet_truth(self, other: BelnapValue) -> BelnapValue {
        Self::of_bits(self.supported() && other.supported(), self.refuted() || other.refuted())
    }

    /// Join under the truth ordering.
    pub open spec fn join_truth(self, other: BelnapValue) -> BelnapValue {
        Self::of_bits(self.supported() || other.supported(), self.refuted() && other.refuted())
    }

    /// Join under the information ordering.
    pub open spec fn join_information(self, other: BelnapValue) -> BelnapValue {
        Self::of_bits(self.supported() || other.supported(), self.refuted() || other.refuted())
    }

    /// Meet under the information ordering.
    pub open spec fn meet_information(self, other: BelnapValue) -> BelnapValue {
        Self::of_bits(self.supported() && other.supported(), self.refuted() && other.refuted())
    }

    /// Whether the value is one of the two classical values.
    pub open spec fn classical(self) -> bool {
        self is True || self is False
    }

    fn bits(self) -> (r: (bool, bool))
        ensures
            r == (self.supported(), self.refuted()),
    {
        match self {
            BelnapValue::True => (true, false),
            BelnapValue::False => (false, true),
            BelnapValue::Both => (true, true),
            BelnapValue::Neither => (false, false),
        }
    }

    fn from_bits(supported: bool, refuted: bool) -> (r: BelnapValue)
        ensures
            r == Self::of_bits(supported, refuted),
    {
        match (supported, refuted) {
            (true, false) => BelnapValue::True,
            (false, true) => BelnapValue::False,
            (true, true) => BelnapValue::Both,
            (false, false) => BelnapValue::Neither,
        }
    }

    /// Negation: support and refutation trade places.
    pub fn not(self) -> (r: BelnapValue)
        ensures
            r == self.negation(),
    {
        let (supported, refuted) = self.bits();
        Self::from_bits(refuted, supported)
    }

    /// Meet under the truth ordering: support decreases, refutation increases.
    pub fn truth_meet(self, other: BelnapValue) -> (r: BelnapValue)
        ensures
            r == self.meet_truth(other),
    {
        let (a_support, a_refute) = self.bits();
        let (b_support, b_refute) = other.bits();
        Self::from_bits(a_support && b_support, a_refute || b_refute)
    }

    /// Join under the truth ordering: support increases, refutation decreases.
    pub fn truth_join(self, other: BelnapValue) -> (r: BelnapValue)
        ensures
            r == self.join_truth(other),
    {
        let (a_support, a_refute) = self.bits();
        let (b_support, b_refute) = other.bits();
        Self::from_bits(a_support || b_support, a_refute && b_refute)
    }

    /// Pool information from two sources (componentwise evidence union).
    pub fn information_join(self, other: BelnapValue) -> (r: BelnapValue)
        ensures
            r == self.join_information(other),
    {
        let (a_support, a_refute) = self.bits();
        let (b_support, b_refute) = other.bits();
        Self::from_bits(a_support || b_support, a_refute || b_refute)
    }

    /// Keep only evidence shared by both sources.
    pub fn information_meet(self, other: BelnapValue) -> (r: BelnapValue)
        ensures
            r == self.meet_information(other),
    {
        let (a_support, a_refute) = self.bits();
        let (b_support, b_refute) = other.bits();
        Self::from_bits(a_support && b_support, a_refute && b_refute)
    }

    /// Whether the value is `True` or `False`.
    pub fn is_classical(self) -> (r: bool)
        ensures
            r == self.classical(),
    {
        matches!(self, BelnapValue::True | BelnapValue::False)
    }
}

/// A value is determined by its support and refutation bits.
pub proof fn lemma_bits_determine_value(a: BelnapValue)
    ensures
        BelnapValue::of_bits(a.supported(), a.refuted()) == a,
{
}

/// Negation is an involution.
pub proof fn lemma_negation_involutive(a: BelnapValue)
    ensures
        a.negation().negation() == a,
{
}

/// Both orderings are lattices: meet and join are commutative, associative,
/// idempotent and absorb each other.
pub proof fn lemma_lattice_laws(a: BelnapValue, b: BelnapValue, c: BelnapValue)
    ensures
        a.meet_truth(b) == b.meet_truth(a),
        a.join_truth(b) == b.join_truth(a),
        a.meet_truth(b).meet_truth(c) == a.meet_truth(b.meet_truth(c)),
        a.join_truth(b).join_truth(c) == a.join_truth(b.join_truth(c)),
        a.meet_truth(a) == a,
        a.join_truth(a) == a,
        a.join_truth(a.meet_truth(b)) == a,
        a.meet_truth(a.join_truth(b)) == a,
        a.meet_information(b) == b.meet_information(a),
        a.join_information(b) == b.join_information(a),
        a.meet_information(b).meet_information(c) == a.meet_information(b.meet_information(c)),
        a.join_information(b).join_information(c) == a.join_information(b.join_information(c)),
        a.meet_information(a) == a,
        a.join_information(a) == a,
        a.join_information(a.meet_information(b)) == a,
        a.meet_information(a.join_information(b)) == a,
{
}

/// Negation exchanges truth meet and join (De Morgan) and preserves the
/// information operations.
pub proof fn lemma_negation_laws(a: BelnapValue, b: BelnapValue)
    ensures
        a.meet_truth(b).negation() == a.negation().join_truth(b.negation()),
        a.join_truth(b).negation() == a.negation().meet_truth(b.negation()),
        a.join_information(b).negation() == a.negation().join_information(b.negation()),
        a.meet_information(b).negation() == a.negation().meet_information(b.negation()),
{
}

/// The truth order of Belnap's lattice: `False` at the bottom, `True` at the
/// top, `Both` and `Neither` in between and incomparable.
pub open spec fn truth_le(a: BelnapValue, b: BelnapValue) -> bool {
    a == b || a is False || b is True
}

/// The information order: `Neither` at the bottom, `Both` at the top, `True`
/// and `False` in between and incomparable.
pub open spec fn information_le(a: BelnapValue, b: BelnapValue) -> bool {
    a == b || a is Neither || b is Both
}

/// Truth meet and join are the greatest lower and least upper bounds in the
/// truth order; so `True` meet `False` is `False` and their join is `True`.
pub proof fn lemma_truth_bounds(a: BelnapValue, b: BelnapValue, c: BelnapValue)
    ensures
        truth_le(a.meet_truth(b), a),
        truth_le(a.meet_truth(b), b),
        truth_le(c, a) && truth_le(c, b) ==> truth_le(c, a.meet_truth(b)),
        truth_le(a, a.join_truth(b)),
        truth_le(b, a.join_truth(b)),
        truth_le(a, c) && truth_le(b, c) ==> truth_le(a.join_truth(b), c),
        a.meet_truth(b).supported() == (a.supported() && b.supported()),
        a.meet_truth(b).refuted() == (a.refuted() || b.refuted()),
        a.join_truth(b).supported() == (a.supported() || b.supported()),
        a.join_truth(b).refuted() == (a.refuted() && b.refuted()),
{
}

/// Information join and meet are the least upper and greatest lower bounds in
/// the information order: joining pools support and refutation, meeting keeps
/// what both share.
pub proof fn lemma_information_bounds(a: BelnapValue, b: BelnapValue, c: BelnapValue)
    ensures
        information_le(a, a.join_information(b)),
        information_le(b, a.join_information(b)),
        information_le(a, c) && information_le(b, c) ==> information_le(a.join_information(b), c),
        information_le(a.meet_information(b), a),
        information_le(a.meet_information(b), b),
        information_le(c, a) && information_le(c, b) ==> information_le(c, a.meet_information(b)),
        a.join_information(b).supported() == (a.supported() || b.supported()),
        a.join_information(b).refuted() == (a.refuted() || b.refuted()),
        a.meet_information(b).supported() == (a.supported() && b.supported()),
        a.meet_information(b).refuted() == (a.refuted() && b.refuted()),
{
}

/// Negation swaps support and refutation: it reverses the truth order, keeps
/// the information order, exchanges `True` and `False` and fixes `Both` and
/// `Neither`.
pub proof fn lemma_negation_order(a: BelnapValue, b: BelnapValue)
    ensures
        truth_le(a, b) == truth_le(b.negation(), a.negation()),
        information_le(a, b) == information_le(a.negation(), b.negation()),
        a.negation().supported() == a.refuted(),
        a.negation().refuted() == a.supported(),
        a is True ==> a.negation() is False,
        a is False ==> a.negation() is True,
        a is Both ==> a.negation() is Both,
        a is Neither ==> a.negation() is Neither,
{
}

/// A value is classical exactly when exactly one of support and refutation
/// holds.
pub proof fn lemma_classical_bits(a: BelnapValue)
    ensures
        a.classical() == (a.supported() != a.refuted()),
{
}

/// A gate asserts exactly on support without refutation, rejects exactly
/// on refutation without support, and abstains on conflict (both) or on
/// ignorance (neither).
pub proof fn lemma_decision_of_bits(v: BelnapValue)
    ensures
        (GateDecision::of_value(v) is AssertSupported) == (v.supported() && !v.refuted()),
        (GateDecision::of_value(v) is RejectRefuted) == (!v.supported() && v.refuted()),
        (GateDecision::of_value(v) is AbstainConflict) == (v.supported() && v.refuted()),
        (GateDecision::of_value(v) is AbstainUnknown) == (!v.supported() && !v.refuted()),
{
}

/// Whether an item of evidence supports or refutes the claim.
#[derive(Clone, Copy, Debug, Eq, PartialEq, Structural)]
pub enum Stance {
    Supports,
    Refutes,
}

/// One admitted item of evidence.
#[derive(Clone, Debug, Eq, PartialEq)]
pub struct Evidence {
    pub id: String,
    pub source_digest: String,
    pub stance: Stance,
}

/// What an evidence gate does with a claim.
#[derive(Clone, Copy, Debug, Eq, PartialEq, Structural)]
pub enum GateDecision {
    AssertSupported,
    RejectRefuted,
    AbstainConflict,
    AbstainUnknown,
}

impl GateDecision {
    /// The decision for a value.
    pub open spec fn of_value(value: BelnapValue) -> GateDecision {
        match value {
            BelnapValue::True => GateDecision::AssertSupported,
            BelnapValue::False => GateDecision::RejectRefuted,
            BelnapValue::Both => GateDecision::AbstainConflict,
            BelnapValue::Neither => GateDecision::AbstainUnknown,
        }
    }

    /// Whether the decision is an abstention.
    pub open spec fn abstention(self) -> bool {
        self is AbstainConflict || self is AbstainUnknown
    }

    /// The decision for a value: support asserts, refutation rejects,
    /// conflict and absence abstain.
    pub fn from_value(value: BelnapValue) -> (r: GateDecision)
        ensures
            r == Self::of_value(value),
    {
        match value {
            BelnapValue::True => GateDecision::AssertSupported,
            BelnapValue::False => GateDecision::RejectRefuted,
            BelnapValue::Both => GateDecision::AbstainConflict,
            BelnapValue::Neither => GateDecision::AbstainUnknown,
        }
    }

    /// Whether the decision is an abstention.
    pub fn abstains(self) -> (r: bool)
        ensures
            r == self.abstention(),
    {
        matches!(self, GateDecision::AbstainConflict | GateDecision::AbstainUnknown)
    }
}

/// A gate abstains exactly on the two non-classical values.
pub proof fn lemma_abstains_iff_not_classical(value: BelnapValue)
    ensures
        GateDecision::of_value(value).abstention() == !value.classical(),
{
}

/// A replayable record of one gate decision.
#[derive(Clone, Debug, Eq, PartialEq)]
pub struct GateReceipt {
    pub version: u8,
    pub claim_id: String,
    pub evidence: Vec<Evidence>,
    pub value: BelnapValue,
    pub decision: GateDecision,
    pub digest: String,
}

/// Why a claim was not evaluated.
#[derive(Clone, Debug, Eq, PartialEq)]
pub enum GateError {
    EmptyClaim,
    EmptyEvidenceId,
    EmptySourceDigest,
    DuplicateEvidenceId(String),
}

/// The order of evidence in a receipt: by id, byte-wise.
pub open spec fn by_id() -> spec_fn(Evidence, Evidence) -> bool {
    |a: Evidence, b: Evidence| text_lt(a.id@, b.id@)
}

/// Evidence in canonical order: stably sorted by id.
pub open spec fn canonical_order(evidence: Seq<Evidence>) -> Seq<Evidence> {
    sort_by(evidence, by_id())
}

/// Whether an earlier item carries the same id as item `i`.
pub open spec fn repeats_id(s: Seq<Evidence>, i: int) -> bool {
    exists|j: int| 0 <= j < i && #[trigger] s[j].id@ == s[i].id@
}

/// What is wrong with item `i`, if anything: a blank id, a blank source
/// digest, or an id already seen.
pub open spec fn item_fault(s: Seq<Evidence>, i: int) -> Option<GateError> {
    if is_blank(s[i].id@) {
        Some(GateError::EmptyEvidenceId)
    } else if is_blank(s[i].source_digest@) {
        Some(GateError::EmptySourceDigest)
    } else if repeats_id(s, i) {
        Some(GateError::DuplicateEvidenceId(s[i].id))
    } else {
        None
    }
}

/// The fault of the first faulty item among the first `n`.
pub open spec fn first_fault(s: Seq<Evidence>, n: int) -> Option<GateError>
    decreases n,
{
    if n <= 0 {
        None
    } else {
        match first_fault(s, n - 1) {
            Some(e) => Some(e),
            None => item_fault(s, n - 1),
        }
    }
}

/// Once an item is faulty, the first fault stays the same further on.
pub proof fn lemma_first_fault_settles(s: Seq<Evidence>, m: int, n: int)
    requires
        0 <= m <= n,
        first_fault(s, m) is Some,
    ensures
        first_fault(s, n) == first_fault(s, m),
    decreases n - m,
{
    if n > m {
        lemma_first_fault_settles(s, m, n - 1);
    }
}

/// The fault of the first faulty item of `s`.
pub open spec fn evidence_fault(s: Seq<Evidence>) -> Option<GateError> {
    first_fault(s, s.len() as int)
}

/// Whether some item has the stance.
pub open spec fn has_stance(s: Seq<Evidence>, stance: Stance) -> bool {
    exists|i: int| 0 <= i < s.len() && #[trigger] s[i].stance == stance
}

/// The value the evidence establishes.
pub open spec fn value_of_evidence(s: Seq<Evidence>) -> BelnapValue {
    BelnapValue::of_bits(has_stance(s, Stance::Supports), has_stance(s, Stance::Refutes))
}

/// The evidence supports the claim exactly when some item supports it, and
/// refutes it exactly when some item refutes it.
pub proof fn lemma_value_of_evidence(s: Seq<Evidence>)
    ensures
        value_of_evidence(s).supported() == (exists|i: int|
            0 <= i < s.len() && #[trigger] s[i].stance == Stance::Supports),
        value_of_evidence(s).refuted() == (exists|i: int|
            0 <= i < s.len() && #[trigger] s[i].stance == Stance::Refutes),
{
}

/// A length-prefixed field: the UTF-8 length in decimal, `:`, the text, `|`.
pub open spec fn field_text(f: Seq<char>) -> Seq<char> {
    decimal(utf8(f).len()) + ":"@ + f + "|"@
}

proof fn lemma_prefix_longer(a: Seq<char>, b: Seq<char>, x: Seq<char>, y: Seq<char>)
    requires
        a + x == b + y,
        a.len() < b.len(),
    ensures
        utf8(a).len() < utf8(b).len(),
{
    let k = a.len() as int;
    assert(b.take(k) =~= (a + x).take(k));
    assert((a + x).take(k) =~= a);
    assert(b =~= b.take(k) + b.skip(k));
    lemma_utf8_append(b.take(k), b.skip(k));
    lemma_utf8_nonempty(b.skip(k));
}

/// A length-prefixed field reads back unambiguously: a field followed by
/// anything equals another field followed by anything only when the two
/// fields and the two rests are equal.
pub proof fn lemma_field_text_injective(a: Seq<char>, b: Seq<char>, x: Seq<char>, y: Seq<char>)
    requires
        field_text(a) + x == field_text(b) + y,
    ensures
        a == b,
        x == y,
{
    reveal_strlit(":");
    reveal_strlit("|");
    let da = decimal(utf8(a).len());
    let db = decimal(utf8(b).len());
    lemma_decimal_digits(utf8(a).len());
    lemma_decimal_digits(utf8(b).len());
    let s = field_text(a) + x;
    let ra = a + ("|"@ + x);
    let rb = b + ("|"@ + y);
    assert(s =~= da + (seq![':'] + ra));
    assert(s =~= db + (seq![':'] + rb));
    if da.len() < db.len() {
        assert(s[da.len() as int] == ':');
        assert(s[da.len() as int] == db[da.len() as int]);
    } else if db.len() < da.len() {
        assert(s[db.len() as int] == ':');
        assert(s[db.len() as int] == da[db.len() as int]);
    }
    assert(da =~= s.take(da.len() as int));
    assert(db =~= s.take(db.len() as int));
    lemma_decimal_injective(utf8(a).len(), utf8(b).len());
    assert(ra =~= s.skip(da.len() as int + 1));
    assert(rb =~= s.skip(db.len() as int + 1));
    if a.len() < b.len() {
        lemma_prefix_longer(a, b, "|"@ + x, "|"@ + y);
    } else if b.len() < a.len() {
        lemma_prefix_longer(b, a, "|"@ + y, "|"@ + x);
    }
    assert(a =~= ra.take(a.len() as int));
    assert(b =~= rb.take(b.len() as int));
    assert("|"@ + x =~= ra.skip(a.len() as int));
    assert("|"@ + y =~= rb.skip(b.len() as int));
    assert(x =~= ("|"@ + x).drop_first());
    assert(y =~= ("|"@ + y).drop_first());
}

/// The name of a value.
pub open spec fn value_name(v: BelnapValue) -> Seq<char> {
    match v {
        BelnapValue::True => "True"@,
        BelnapValue::False => "False"@,
        BelnapValue::Both => "Both"@,
        BelnapValue::Neither => "Neither"@,
    }
}

/// The name of a decision.
pub open spec fn decision_name(d: GateDecision) -> Seq<char> {
    match d {
        GateDecision::AssertSupported => "AssertSupported"@,
        GateDecision::RejectRefuted => "RejectRefuted"@,
        GateDecision::AbstainConflict => "AbstainConflict"@,
        GateDecision::AbstainUnknown => "AbstainUnknown"@,
    }
}

/// The name of a stance.
pub open spec fn stance_name(s: Stance) -> Seq<char> {
    match s {
        Stance::Supports => "Supports"@,
        Stance::Refutes => "Refutes"@,
    }
}

/// The canonical rendering of the evidence items, in order.
pub open spec fn evidence_text(s: Seq<Evidence>) -> Seq<char>
    decreases s.len(),
{
    if s.len() == 0 {
        Seq::empty()
    } else {
        evidence_text(s.drop_last()) + field_text(s.last().id@) + field_text(
            s.last().source_digest@,
        ) + stance_name(s.last().stance) + "|"@
    }
}

/// The canonical rendering that a receipt digest commits to.
pub open spec fn canonical_text(
    version: u8,
    claim: Seq<char>,
    value: BelnapValue,
    decision: GateDecision,
    evidence: Seq<Evidence>,
) -> Seq<char> {
    "belnap-gate-v"@ + decimal(version as nat) + "|"@ + field_text(claim) + value_name(value)
        + "|"@ + decision_name(decision) + "|"@ + evidence_text(evidence)
}

/// The rendering of one evidence item.
pub open spec fn item_text(e: Evidence) -> Seq<char> {
    field_text(e.id@) + field_text(e.source_digest@) + stance_name(e.stance) + "|"@
}

proof fn lemma_evidence_text_front(s: Seq<Evidence>)
    requires
        s.len() > 0,
    ensures
        evidence_text(s) == item_text(s[0]) + evidence_text(s.drop_first()),
    decreases s.len(),
{
    if s.len() == 1 {
        assert(s.drop_last() =~= Seq::<Evidence>::empty());
        assert(s.drop_first() =~= Seq::<Evidence>::empty());
        assert(evidence_text(s) =~= item_text(s[0]) + evidence_text(s.drop_first()));
    } else {
        lemma_evidence_text_front(s.drop_last());
        assert(s.drop_last().drop_first() =~= s.drop_first().drop_last());
        assert(s.drop_first().last() == s.last());
        assert(s.drop_last()[0] == s[0]);
        assert(evidence_text(s) =~= item_text(s[0]) + evidence_text(s.drop_first()));
    }
}

/// Two texts without a bar, each followed by a bar and a rest, agree only
/// when the texts and the rests agree.
proof fn lemma_bar_split(n1: Seq<char>, n2: Seq<char>, x: Seq<char>, y: Seq<char>)
    requires
        n1 + ("|"@ + x) == n2 + ("|"@ + y),
        !n1.contains('|'),
        !n2.contains('|'),
    ensures
        n1 == n2,
        x == y,
{
    reveal_strlit("|");
    let s = n1 + ("|"@ + x);
    if n1.len() < n2.len() {
        assert(s[n1.len() as int] == '|');
        assert(s[n1.len() as int] == n2[n1.len() as int]);
        assert(n2.contains('|'));
    } else if n2.len() < n1.len() {
        assert(s[n2.len() as int] == '|');
        assert(s[n2.len() as int] == n1[n2.len() as int]);
        assert(n1.contains('|'));
    }
    assert(n1 =~= s.take(n1.len() as int));
    assert(n2 =~= s.take(n2.len() as int));
    assert(x =~= s.skip(n1.len() as int + 1));
    assert(y =~= s.skip(n2.len() as int + 1));
}

proof fn lemma_value_names(a: BelnapValue, b: BelnapValue)
    ensures
        !value_name(a).contains('|'),
        value_name(a) == value_name(b) ==> a == b,
{
    reveal_strlit("True");
    reveal_strlit("False");
    reveal_strlit("Both");
    reveal_strlit("Neither");
    assert(!value_name(a).contains('|')) by {
        if value_name(a).contains('|') {
            let i = choose|i: int| 0 <= i < value_name(a).len() && value_name(a)[i] == '|';
        }
    }
    if value_name(a) == value_name(b) && a != b {
        assert(value_name(a)[0] == value_name(b)[0]);
        assert(value_name(a).len() == value_name(b).len());
    }
}

proof fn lemma_decision_names(a: GateDecision, b: GateDecision)
    ensures
        !decision_name(a).contains('|'),
        decision_name(a) == decision_name(b) ==> a == b,
{
    reveal_strlit("AssertSupported");
    reveal_strlit("RejectRefuted");
    reveal_strlit("AbstainConflict");
    reveal_strlit("AbstainUnknown");
    assert(!decision_name(a).contains('|')) by {
        if decision_name(a).contains('|') {
            let i = choose|i: int| 0 <= i < decision_name(a).len() && decision_name(a)[i] == '|';
        }
    }
    if decision_name(a) == decision_name(b) && a != b {
        assert(decision_name(a)[0] == decision_name(b)[0]);
        assert(decision_name(a)[6] == decision_name(b)[6]);
    }
}

proof fn lemma_stance_names(a: Stance, b: Stance)
    ensures
        !stance_name(a).contains('|'),
        stance_name(a) == stance_name(b) ==> a == b,
{
    reveal_strlit("Supports");
    reveal_strlit("Refutes");
    assert(!stance_name(a).contains('|')) by {
        if stance_name(a).contains('|') {
            let i = choose|i: int| 0 <= i < stance_name(a).len() && stance_name(a)[i] == '|';
        }
    }
    if stance_name(a) == stance_name(b) && a != b {
        assert(stance_name(a)[0] == stance_name(b)[0]);
    }
}

proof fn lemma_item_parts(e: Evidence, r: Seq<char>)
    ensures
        item_text(e) + r == field_text(e.id@) + (field_text(e.source_digest@) + (stance_name(
            e.stance,
        ) + ("|"@ + r))),
{
    let (f1, f2, n, bar) = (field_text(e.id@), field_text(e.source_digest@), stance_name(e.stance), "|"@);
    assert(item_text(e) == f1 + f2 + n + bar);
    assert(f1 + f2 + n + bar + r =~= f1 + (f2 + (n + (bar + r))));
}

proof fn lemma_evidence_text_nonempty(e: Seq<Evidence>)
    requires
        e.len() > 0,
    ensures
        evidence_text(e).len() > 0,
{
    lemma_evidence_text_front(e);
    lemma_decimal_digits(utf8(e[0].id@).len());
    assert(field_text(e[0].id@).len() > 0);
}

proof fn lemma_evidence_text_injective(e1: Seq<Evidence>, e2: Seq<Evidence>)
    requires
        evidence_text(e1) == evidence_text(e2),
    ensures
        e1.len() == e2.len(),
        forall|i: int|
            0 <= i < e1.len() ==> {
                &&& (#[trigger] e1[i]).id@ == e2[i].id@
                &&& e1[i].source_digest@ == e2[i].source_digest@
                &&& e1[i].stance == e2[i].stance
            },
    decreases e1.len(),
{
    if e1.len() == 0 && e2.len() > 0 {
        lemma_evidence_text_nonempty(e2);
    } else if e2.len() == 0 && e1.len() > 0 {
        lemma_evidence_text_nonempty(e1);
    } else if e1.len() > 0 {
        let a = e1[0];
        let b = e2[0];
        let r1 = evidence_text(e1.drop_first());
        let r2 = evidence_text(e2.drop_first());
        lemma_evidence_text_front(e1);
        lemma_evidence_text_front(e2);
        lemma_item_parts(a, r1);
        lemma_item_parts(b, r2);
        let x1 = field_text(a.source_digest@) + (stance_name(a.stance) + ("|"@ + r1));
        let x2 = field_text(b.source_digest@) + (stance_name(b.stance) + ("|"@ + r2));
        lemma_field_text_injective(a.id@, b.id@, x1, x2);
        lemma_field_text_injective(
            a.source_digest@,
            b.source_digest@,
            stance_name(a.stance) + ("|"@ + r1),
            stance_name(b.stance) + ("|"@ + r2),
        );
        lemma_stance_names(a.stance, b.stance);
        lemma_stance_names(b.stance, a.stance);
        lemma_bar_split(stance_name(a.stance), stance_name(b.stance), r1, r2);
        lemma_evidence_text_injective(e1.drop_first(), e2.drop_first());
        assert forall|i: int| 0 <= i < e1.len() implies {
            &&& (#[trigger] e1[i]).id@ == e2[i].id@
            &&& e1[i].source_digest@ == e2[i].source_digest@
            &&& e1[i].stance == e2[i].stance
        } by {
            if i > 0 {
                assert(e1[i] == e1.drop_first()[i - 1]);
                assert(e2[i] == e2.drop_first()[i - 1]);
            }
        }
    }
}

proof fn lemma_canonical_parts(
    version: u8,
    claim: Seq<char>,
    value: BelnapValue,
    decision: GateDecision,
    evidence: Seq<Evidence>,
)
    ensures
        canonical_text(version, claim, value, decision, evidence) == "belnap-gate-v"@ + (decimal(
            version as nat,
        ) + ("|"@ + (field_text(claim) + (value_name(value) + ("|"@ + (decision_name(decision)
            + ("|"@ + evidence_text(evidence)))))))),
{
    let (h, d, bar, f, v, n, e) = (
        "belnap-gate-v"@,
        decimal(version as nat),
        "|"@,
        field_text(claim),
        value_name(value),
        decision_name(decision),
        evidence_text(evidence),
    );
    assert(canonical_text(version, claim, value, decision, evidence) == h + d + bar + f + v + bar
        + n + bar + e);
    assert(h + d + bar + f + v + bar + n + bar + e =~= h + (d + (bar + (f + (v + (bar + (n + (bar
        + e))))))));
}

proof fn lemma_drop_prefix(h: Seq<char>, x: Seq<char>, y: Seq<char>)
    requires
        h + x == h + y,
    ensures
        x == y,
{
    assert(x =~= (h + x).skip(h.len() as int));
    assert(y =~= (h + y).skip(h.len() as int));
}

proof fn lemma_decimal_has_no_bar(n: nat)
    ensures
        !decimal(n).contains('|'),
{
    lemma_decimal_digits(n);
    if decimal(n).contains('|') {
        let i = choose|i: int| 0 <= i < decimal(n).len() && decimal(n)[i] == '|';
        assert('0' <= decimal(n)[i] <= '9');
    }
}

/// The canonical rendering is unambiguous: two receipts with the same
/// rendering have the same version, claim, value, decision and evidence
/// (ids, source digests and stances, in order).
pub proof fn lemma_canonical_text_injective(
    version1: u8,
    claim1: Seq<char>,
    value1: BelnapValue,
    decision1: GateDecision,
    evidence1: Seq<Evidence>,
    version2: u8,
    claim2: Seq<char>,
    value2: BelnapValue,
    decision2: GateDecision,
    evidence2: Seq<Evidence>,
)
    requires
        canonical_text(version1, claim1, value1, decision1, evidence1) == canonical_text(
            version2,
            claim2,
            value2,
            decision2,
            evidence2,
        ),
    ensures
        version1 == version2,
        claim1 == claim2,
        value1 == value2,
        decision1 == decision2,
        evidence1.len() == evidence2.len(),
        forall|i: int|
            0 <= i < evidence1.len() ==> {
                &&& (#[trigger] evidence1[i]).id@ == evidence2[i].id@
                &&& evidence1[i].source_digest@ == evidence2[i].source_digest@
                &&& evidence1[i].stance == evidence2[i].stance
            },
{
    lemma_canonical_parts(version1, claim1, value1, decision1, evidence1);
    lemma_canonical_parts(version2, claim2, value2, decision2, evidence2);
    let e1 = evidence_text(evidence1);
    let e2 = evidence_text(evidence2);
    let n1 = decision_name(decision1) + ("|"@ + e1);
    let n2 = decision_name(decision2) + ("|"@ + e2);
    let v1 = value_name(value1) + ("|"@ + n1);
    let v2 = value_name(value2) + ("|"@ + n2);
    let f1 = field_text(claim1) + v1;
    let f2 = field_text(claim2) + v2;
    lemma_drop_prefix(
        "belnap-gate-v"@,
        decimal(version1 as nat) + ("|"@ + f1),
        decimal(version2 as nat) + ("|"@ + f2),
    );
    lemma_decimal_has_no_bar(version1 as nat);
    lemma_decimal_has_no_bar(version2 as nat);
    lemma_bar_split(decimal(version1 as nat), decimal(version2 as nat), f1, f2);
    lemma_decimal_injective(version1 as nat, version2 as nat);
    lemma_field_text_injective(claim1, claim2, v1, v2);
    lemma_value_names(value1, value2);
    lemma_value_names(value2, value1);
    lemma_bar_split(value_name(value1), value_name(value2), n1, n2);
    lemma_decision_names(decision1, decision2);
    lemma_decision_names(decision2, decision1);
    lemma_bar_split(decision_name(decision1), decision_name(decision2), e1, e2);
    lemma_evidence_text_injective(evidence1, evidence2);
}

/// The digest of a receipt: lower-case hex of the SHA-256 of the UTF-8 bytes of
/// its canonical rendering.
pub open spec fn digest_text(
    version: u8,
    claim: Seq<char>,
    value: BelnapValue,
    decision: GateDecision,
    evidence: Seq<Evidence>,
) -> Seq<char> {
    hex_bytes(sha256(utf8(canonical_text(version, claim, value, decision, evidence))))
}

/// Whether a gate evaluates `claim` on `evidence` (rather than failing).
pub open spec fn admissible(claim: Seq<char>, evidence: Seq<Evidence>) -> bool {
    !is_blank(claim) && evidence_fault(canonical_order(evidence)) is None
}

/// Whether a receipt with these parts is what evaluating its claim on its
/// evidence gives.
pub open spec fn receipt_replays(
    version: u8,
    claim: Seq<char>,
    evidence: Seq<Evidence>,
    value: BelnapValue,
    decision: GateDecision,
    digest: Seq<char>,
) -> bool {
    let sorted = canonical_order(evidence);
    let v = value_of_evidence(sorted);
    &&& version == 1
    &&& decision == GateDecision::of_value(value)
    &&& admissible(claim, evidence)
    &&& v == value
    &&& digest == digest_text(1, claim, v, GateDecision::of_value(v), sorted)
}

fn value_name_str(v: BelnapValue) -> (r: &'static str)
    ensures
        r@ == value_name(v),
{
    match v {
        BelnapValue::True => "True",
        BelnapValue::False => "False",
        BelnapValue::Both => "Both",
        BelnapValue::Neither => "Neither",
    }
}

fn decision_name_str(d: GateDecision) -> (r: &'static str)
    ensures
        r@ == decision_name(d),
{
    match d {
        GateDecision::AssertSupported => "AssertSupported",
        GateDecision::RejectRefuted => "RejectRefuted",
        GateDecision::AbstainConflict => "AbstainConflict",
        GateDecision::AbstainUnknown => "AbstainUnknown",
    }
}

fn stance_name_str(s: Stance) -> (r: &'static str)
    ensures
        r@ == stance_name(s),
{
    match s {
        Stance::Supports => "Supports",
        Stance::Refutes => "Refutes",
    }
}

/// Appends a length-prefixed field.
fn put_field(target: &mut String, field: &str)
    ensures
        final(target)@ == old(target)@ + field_text(field@),
{
    let n = field.as_bytes().len();
    push_decimal(target, n as u64);
    push_str(target, ":");
    push_str(target, field);
    push_str(target, "|");
    assert(final(target)@ =~= old(target)@ + field_text(field@));
}

/// The digest of a receipt's canonical rendering.
fn receipt_digest(receipt: &GateReceipt) -> (r: String)
    ensures
        r@ == digest_text(
            receipt.version,
            receipt.claim_id@,
            receipt.value,
            receipt.decision,
            receipt.evidence@,
        ),
{
    let mut canonical = String::new();
    push_str(&mut canonical, "belnap-gate-v");
    push_decimal(&mut canonical, receipt.version as u64);
    push_str(&mut canonical, "|");
    put_field(&mut canonical, receipt.claim_id.as_str());
    push_str(&mut canonical, value_name_str(receipt.value));
    push_str(&mut canonical, "|");
    push_str(&mut canonical, decision_name_str(receipt.decision));
    push_str(&mut canonical, "|");
    let ghost head = canonical@;
    let mut i: usize = 0;
    while i < receipt.evidence.len()
        invariant
            i <= receipt.evidence.len(),
            canonical@ == head + evidence_text(receipt.evidence@.take(i as int)),
        decreases receipt.evidence.len() - i,
    {
        let item = &receipt.evidence[i];
        put_field(&mut canonical, item.id.as_str());
        put_field(&mut canonical, item.source_digest.as_str());
        push_str(&mut canonical, stance_name_str(item.stance));
        push_str(&mut canonical, "|");
        assert(receipt.evidence@.take(i + 1).drop_last() =~= receipt.evidence@.take(i as int));
        assert(canonical@ =~= head + evidence_text(receipt.evidence@.take(i + 1)));
        i = i + 1;
    }
    assert(receipt.evidence@.take(i as int) =~= receipt.evidence@);
    assert(canonical@ =~= canonical_text(
        receipt.version,
        receipt.claim_id@,
        receipt.value,
        receipt.decision,
        receipt.evidence@,
    ));
    let hash = sha256_digest(canonical.as_str().as_bytes());
    let mut digest = String::new();
    push_hex_bytes(&mut digest, hash.as_slice());
    assert(digest@ =~= hex_bytes(hash@));
    digest
}

/// A copy of the evidence items.
fn copy_evidence(evidence: &Vec<Evidence>) -> (r: Vec<Evidence>)
    ensures
        r@ == evidence@,
{
    let mut r: Vec<Evidence> = Vec::new();
    let mut i: usize = 0;
    while i < evidence.len()
        invariant
            i <= evidence.len(),
            r@ == evidence@.take(i as int),
        decreases evidence.len() - i,
    {
        let item = &evidence[i];
        r.push(Evidence { id: item.id.clone(), source_digest: item.source_digest.clone(), stance: item.stance });
        assert(r@ =~= evidence@.take(i + 1));
        i = i + 1;
    }
    assert(evidence@.take(i as int) =~= evidence@);
    r
}

/// Evaluates a claim on its evidence.
///
/// The claim must not be blank. The evidence is sorted by id; the first item
/// (in that order) with a blank id, a blank source digest or an id already
/// seen fails the evaluation. Otherwise the value records whether any item
/// supports and whether any refutes, the decision follows the value, and the
/// digest commits to the whole receipt.
pub fn evaluate(claim_id: &str, evidence: Vec<Evidence>) -> (r: Result<GateReceipt, GateError>)
    ensures
        is_blank(claim_id@) ==> r == Err::<GateReceipt, GateError>(GateError::EmptyClaim),
        !is_blank(claim_id@) && evidence_fault(canonical_order(evidence@)) is Some ==> r == Err::<
            GateReceipt,
            GateError,
        >(evidence_fault(canonical_order(evidence@))->0),
        admissible(claim_id@, evidence@) <==> r is Ok,
        r matches Ok(receipt) ==> {
            let sorted = canonical_order(evidence@);
            &&& receipt.version == 1
            &&& receipt.claim_id@ == claim_id@
            &&& receipt.evidence@ == sorted
            &&& receipt.value == value_of_evidence(sorted)
            &&& receipt.decision == GateDecision::of_value(receipt.value)
            &&& receipt.digest@ == digest_text(
                1,
                claim_id@,
                receipt.value,
                receipt.decision,
                sorted,
            )
        },
{
    if blank(claim_id) {
        return Err(GateError::EmptyClaim);
    }
    let less = |a: &Evidence, b: &Evidence| -> (r: bool)
        ensures
            r == text_lt(a.id@, b.id@),
        { text_less(a.id.as_str(), b.id.as_str()) };
    let ordered = sort_with(evidence, &less, Ghost(by_id()));
    let ghost sorted = ordered@;
    let mut i: usize = 0;
    while i < ordered.len()
        invariant
            i <= ordered.len(),
            ordered@ == sorted,
            sorted == canonical_order(evidence@),
            !is_blank(claim_id@),
            first_fault(sorted, i as int) is None,
        decreases ordered.len() - i,
    {
        let item = &ordered[i];
        if blank(item.id.as_str()) {
            proof {
                assert(item_fault(sorted, i as int) == Some(GateError::EmptyEvidenceId));
                assert(first_fault(sorted, i + 1) == Some(GateError::EmptyEvidenceId));
                lemma_first_fault_settles(sorted, i + 1, sorted.len() as int);
            }
            return Err(GateError::EmptyEvidenceId);
        }
        if blank(item.source_digest.as_str()) {
            proof {
                assert(item_fault(sorted, i as int) == Some(GateError::EmptySourceDigest));
                assert(first_fault(sorted, i + 1) == Some(GateError::EmptySourceDigest));
                lemma_first_fault_settles(sorted, i + 1, sorted.len() as int);
            }
            return Err(GateError::EmptySourceDigest);
        }
        let mut j: usize = 0;
        while j < i
            invariant
                j <= i < ordered.len(),
                ordered@ == sorted,
                *item == sorted[i as int],
                !is_blank(sorted[i as int].id@),
                !is_blank(sorted[i as int].source_digest@),
                sorted == canonical_order(evidence@),
                !is_blank(claim_id@),
                first_fault(sorted, i as int) is None,
                forall|k: int| 0 <= k < j ==> sorted[k].id@ != sorted[i as int].id@,
            decreases i - j,
        {
            if text_eq(ordered[j].id.as_str(), item.id.as_str()) {
                let dup = item.id.clone();
                proof {
                    assert(repeats_id(sorted, i as int));
                    assert(item_fault(sorted, i as int) == Some(GateError::DuplicateEvidenceId(dup)));
                    assert(first_fault(sorted, i + 1) == Some(GateError::DuplicateEvidenceId(dup)));
                    lemma_first_fault_settles(sorted, i + 1, sorted.len() as int);
                }
                return Err(GateError::DuplicateEvidenceId(dup));
            }
            j = j + 1;
        }
        proof {
            if repeats_id(sorted, i as int) {
                let w = choose|w: int| 0 <= w < i && #[trigger] sorted[w].id@ == sorted[i as int].id@;
                assert(sorted[w].id@ != sorted[i as int].id@);
            }
        }
        i = i + 1;
    }
    let mut supported = false;
    let mut refuted = false;
    let mut k: usize = 0;
    while k < ordered.len()
        invariant
            k <= ordered.len(),
            ordered@ == sorted,
            supported == exists|m: int| 0 <= m < k && #[trigger] sorted[m].stance == Stance::Supports,
            refuted == exists|m: int| 0 <= m < k && #[trigger] sorted[m].stance == Stance::Refutes,
        decreases ordered.len() - k,
    {
        match ordered[k].stance {
            Stance::Supports => {
                supported = true;
            },
            Stance::Refutes => {
                refuted = true;
            },
        }
        k = k + 1;
    }
    let value = BelnapValue::from_bits(supported, refuted);
    let decision = GateDecision::from_value(value);
    let mut receipt = GateReceipt {
        version: 1,
        claim_id: claim_id.to_owned(),
        evidence: ordered,
        value,
        decision,
        digest: String::new(),
    };
    receipt.digest = receipt_digest(&receipt);
    Ok(receipt)
}

/// Whether a receipt replays: its version is 1, its decision follows its
/// value, and evaluating its claim on its evidence again gives the same value
/// and digest.
pub fn verify(receipt: &GateReceipt) -> (r: bool)
    ensures
        r == receipt_replays(
            receipt.version,
            receipt.claim_id@,
            receipt.evidence@,
            receipt.value,
            receipt.decision,
            receipt.digest@,
        ),
{
    if receipt.version != 1 || receipt.decision != GateDecision::from_value(receipt.value) {
        return false;
    }
    let rebuilt = evaluate(receipt.claim_id.as_str(), copy_evidence(&receipt.evidence));
    match rebuilt {
        Ok(rebuilt) => rebuilt.value == receipt.value && text_eq(
            rebuilt.digest.as_str(),
            receipt.digest.as_str(),
        ),
        Err(_) => false,
    }
}

/// Ordering evidence by id is a strict weak order.
proof fn lemma_by_id_strict_weak()
    ensures
        strict_weak_order(by_id()),
{
    let lt = by_id();
    assert forall|a: Evidence| !#[trigger] lt(a, a) by {
        lemma_bytes_lt_irreflexive(utf8(a.id@));
    }
    assert forall|a: Evidence, b: Evidence, c: Evidence| #[trigger] lt(a, b) && #[trigger] lt(
        b,
        c,
    ) implies lt(a, c) by {
        lemma_bytes_lt_transitive(utf8(a.id@), utf8(b.id@), utf8(c.id@));
    }
    assert forall|a: Evidence, b: Evidence, c: Evidence| #[trigger] lt(a, b) implies lt(a, c)
        || #[trigger] lt(c, b) by {
        let (ka, kb, kc) = (utf8(a.id@), utf8(b.id@), utf8(c.id@));
        if ka != kc {
            lemma_bytes_lt_total(ka, kc);
            if bytes_lt(kc, ka) {
                lemma_bytes_lt_transitive(kc, ka, kb);
            }
        }
    }
}

proof fn lemma_no_first_fault(s: Seq<Evidence>, n: int, k: int)
    requires
        0 <= k < n,
        first_fault(s, n) is None,
    ensures
        item_fault(s, k) is None,
    decreases n,
{
    if k < n - 1 {
        lemma_no_first_fault(s, n - 1, k);
    }
}

/// Evidence without a fault has pairwise different ids.
proof fn lemma_fault_free_ids_distinct(s: Seq<Evidence>, i: int, j: int)
    requires
        evidence_fault(s) is None,
        0 <= i < j < s.len(),
    ensures
        s[i].id@ != s[j].id@,
{
    lemma_no_first_fault(s, s.len() as int, j);
    if s[i].id@ == s[j].id@ {
        assert(repeats_id(s, j));
    }
}

/// The order of the evidence does not matter: evaluating a claim on any
/// rearrangement of admissible evidence sorts it to the same sequence, and so
/// gives the same receipt.
pub proof fn lemma_evaluation_ignores_evidence_order(
    claim: Seq<char>,
    a: Seq<Evidence>,
    b: Seq<Evidence>,
)
    requires
        a.to_multiset() == b.to_multiset(),
        admissible(claim, a),
    ensures
        canonical_order(a) == canonical_order(b),
        admissible(claim, b),
{
    let sa = canonical_order(a);
    lemma_sort_permutes(a, by_id());
    lemma_by_id_strict_weak();
    assert forall|x: Evidence, y: Evidence|
        a.contains(x) && a.contains(y) && x != y implies #[trigger] by_id()(x, y) || #[trigger] by_id()(y, x) by {
        assert(a.to_multiset().count(x) > 0 && a.to_multiset().count(y) > 0);
        assert(sa.contains(x) && sa.contains(y));
        let i = choose|i: int| 0 <= i < sa.len() && sa[i] == x;
        let j = choose|j: int| 0 <= j < sa.len() && sa[j] == y;
        if i < j {
            lemma_fault_free_ids_distinct(sa, i, j);
        } else {
            lemma_fault_free_ids_distinct(sa, j, i);
        }
        if utf8(x.id@) == utf8(y.id@) {
            lemma_utf8_injective(x.id@, y.id@);
        }
        lemma_bytes_lt_total(utf8(x.id@), utf8(y.id@));
    }
    assert(comparable_items(a, by_id()));
    lemma_sort_canonical(a, b, by_id());
}

/// Replay: a receipt that `evaluate` produces is one that `verify` accepts.
pub proof fn lemma_evaluated_receipt_replays(claim: Seq<char>, evidence: Seq<Evidence>)
    requires
        admissible(claim, evidence),
    ensures
        ({
            let sorted = canonical_order(evidence);
            let value = value_of_evidence(sorted);
            let decision = GateDecision::of_value(value);
            receipt_replays(
                1,
                claim,
                sorted,
                value,
                decision,
                digest_text(1, claim, value, decision, sorted),
            )
        }),
{
    let sorted = canonical_order(evidence);
    lemma_sort_permutes(evidence, by_id());
    lemma_evaluation_ignores_evidence_order(claim, evidence, sorted);
}

} // verus!
