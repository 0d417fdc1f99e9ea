//! The receipt log of a confidence ladder: each observation's decision is
//! recorded in a SHA-256 hash chain that commits to the sequence number, the
//! score, the escalation flag, the decision and the policy.
//!
//! Scores and policy thresholds are real numbers; this log carries them as
//! their IEEE-754 `f64` bit patterns, exactly as the receipt hashes them.

use vstd::prelude::*;

use crate::digest::{sha256, sha256_digest};
use crate::text::{hex_bytes, push_hex_bytes, utf8};

verus! {

/// An acceptance tier, T1 the most confident.
#[derive(Clone, Copy, Debug, PartialEq, Eq, Structural)]
pub enum Tier {
    T1,
    T2,
    T3,
}

/// What the ladder decided for one observation.
#[derive(Clone, Copy, Debug, PartialEq, Eq, Structural)]
pub enum Decision {
    Accepted(Tier),
    Escalated,
    Empty,
}

/// Why a policy or an observation was refused.
#[derive(Clone, Copy, Debug, PartialEq, Eq, Structural)]
pub enum LadderError {
    NonFinitePolicy,
    PolicyOutOfRange,
    UnorderedTiers,
    NonFiniteScore,
    ScoreOutOfRange,
}

/// The health of a ladder's observations.
#[derive(Clone, Copy, Debug, PartialEq, Eq, Structural)]
pub enum Health {
    Healthy,
    Degrading,
    Failing,
}

/// The name of a tier.
pub open spec fn tier_code(t: Tier) -> Seq<char> {
    match t {
        Tier::T1 => "T1"@,
        Tier::T2 => "T2"@,
        Tier::T3 => "T3"@,
    }
}

/// The number a tier is hashed as.
pub open spec fn tier_number(t: Tier) -> u8 {
    match t {
        Tier::T1 => 1,
        Tier::T2 => 2,
        Tier::T3 => 3,
    }
}

/// The number a decision is hashed as.
pub open spec fn decision_number(d: Decision) -> u8 {
    match d {
        Decision::Accepted(t) => tier_number(t),
        Decision::Escalated => 4,
        Decision::Empty => 5,
    }
}

/// What an error says.
pub open spec fn error_message(e: LadderError) -> Seq<char> {
    match e {
        LadderError::NonFinitePolicy => "policy values must be finite"@,
        LadderError::PolicyOutOfRange => "policy values must be in [0, 1]"@,
        LadderError::UnorderedTiers => "tier thresholds must satisfy T1 >= T2 >= T3"@,
        LadderError::NonFiniteScore => "score must be finite"@,
        LadderError::ScoreOutOfRange => "score must be in [0, 1]"@,
    }
}

impl Tier {
    /// The tier's name: "T1", "T2" or "T3".
    pub fn code(self) -> (r: &'static str)
        ensures
            r@ == tier_code(self),
    {
        match self {
            Tier::T1 => "T1",
            Tier::T2 => "T2",
            Tier::T3 => "T3",
        }
    }

    fn receipt_code(self) -> (r: u8)
        ensures
            r == tier_number(self),
    {
        match self {
            Tier::T1 => 1,
            Tier::T2 => 2,
            Tier::T3 => 3,
        }
    }
}

impl Decision {
    /// Whether the observation was accepted at some tier.
    pub fn is_accepted(self) -> (r: bool)
        ensures
            r == (self is Accepted),
    {
        match self {
            Decision::Accepted(_) => true,
            _ => false,
        }
    }

    fn receipt_code(self) -> (r: u8)
        ensures
            r == decision_number(self),
    {
        match self {
            Decision::Accepted(tier) => tier.receipt_code(),
            Decision::Escalated => 4,
            Decision::Empty => 5,
        }
    }
}

impl LadderError {
    /// What the error says.
    pub fn message(self) -> (r: &'static str)
        ensures
            r@ == error_message(self),
    {
        match self {
            LadderError::NonFinitePolicy => "policy values must be finite",
            LadderError::PolicyOutOfRange => "policy values must be in [0, 1]",
            LadderError::UnorderedTiers => "tier thresholds must satisfy T1 >= T2 >= T3",
            LadderError::NonFiniteScore => "score must be finite",
            LadderError::ScoreOutOfRange => "score must be in [0, 1]",
        }
    }
}

/// The bit patterns of a ladder policy's five values.
#[derive(Clone, Copy, Debug, PartialEq, Eq, Structural)]
pub struct PolicyBits {
    pub t1: u64,
    pub t2: u64,
    pub t3: u64,
    pub healthy_high_tier_rate: u64,
    pub failing_unaccepted_rate: u64,
}

/// One recorded observation and its place in the chain.
#[derive(Clone, Debug, PartialEq, Eq)]
pub struct Entry {
    pub sequence: u64,
    pub score_bits: u64,
    pub escalate_on_empty: bool,
    pub decision: Decision,
    pub previous_hash: String,
    pub receipt_hash: String,
}

/// The eight big-endian bytes of `n`.
pub open spec fn be_bytes(n: u64) -> Seq<u8> {
    seq![
        (n >> 56u64) as u8,
        (n >> 48u64) as u8,
        (n >> 40u64) as u8,
        (n >> 32u64) as u8,
        (n >> 24u64) as u8,
        (n >> 16u64) as u8,
        (n >> 8u64) as u8,
        n as u8,
    ]
}

/// The bytes one receipt hashes.
pub open spec fn receipt_bytes(
    previous: Seq<u8>,
    sequence: u64,
    score_bits: u64,
    escalate_on_empty: bool,
    decision: Decision,
    policy: PolicyBits,
) -> Seq<u8> {
    utf8("confidence-ladder-monitor/v1\0"@) + previous + be_bytes(sequence) + be_bytes(score_bits)
        + seq![if escalate_on_empty { 1u8 } else { 0u8 }, decision_number(decision)] + be_bytes(
        policy.t1,
    ) + be_bytes(policy.t2) + be_bytes(policy.t3) + be_bytes(policy.healthy_high_tier_rate)
        + be_bytes(policy.failing_unaccepted_rate)
}

/// The hash at the start of a chain: 32 zero bytes.
pub open spec fn genesis() -> Seq<u8> {
    Seq::new(32, |i: int| 0u8)
}

/// The hash of the chain after its first `n` entries.
pub open spec fn chain_hash(policy: PolicyBits, entries: Seq<Entry>, n: int) -> Seq<u8>
    decreases n,
{
    if n <= 0 {
        genesis()
    } else {
        let e = entries[n - 1];
        sha256(
            receipt_bytes(
                chain_hash(policy, entries, n - 1),
                e.sequence,
                e.score_bits,
                e.escalate_on_empty,
                e.decision,
                policy,
            ),
        )
    }
}

/// Whether entry `i` is numbered `i + 1` and links the chain hashes before
/// and after it, in hexadecimal.
pub open spec fn entry_links(policy: PolicyBits, entries: Seq<Entry>, i: int) -> bool {
    &&& entries[i].sequence == i + 1
    &&& entries[i].previous_hash@ == hex_bytes(chain_hash(policy, entries, i))
    &&& entries[i].receipt_hash@ == hex_bytes(chain_hash(policy, entries, i + 1))
}

/// Whether the entries replay from the empty chain to `head`.
pub open spec fn replays(policy: PolicyBits, entries: Seq<Entry>, head: Seq<u8>) -> bool {
    &&& forall|i: int| 0 <= i < entries.len() ==> #[trigger] entry_links(policy, entries, i)
    &&& head == chain_hash(policy, entries, entries.len() as int)
}

/// How many entries carry `decision`.
pub open spec fn decision_count(entries: Seq<Entry>, decision: Decision) -> nat
    decreases entries.len(),
{
    if entries.len() == 0 {
        0
    } else {
        decision_count(entries.drop_last(), decision) + if entries.last().decision == decision {
            1nat
        } else {
            0nat
        }
    }
}

fn push_be_bytes(v: &mut Vec<u8>, n: u64)
    ensures
        final(v)@ == old(v)@ + be_bytes(n),
{
    v.push((n >> 56u64) as u8);
    v.push((n >> 48u64) as u8);
    v.push((n >> 40u64) as u8);
    v.push((n >> 32u64) as u8);
    v.push((n >> 24u64) as u8);
    v.push((n >> 16u64) as u8);
    v.push((n >> 8u64) as u8);
    v.push(n as u8);
    assert(final(v)@ =~= old(v)@ + be_bytes(n));
}

fn push_bytes(v: &mut Vec<u8>, b: &[u8])
    ensures
        final(v)@ == old(v)@ + b@,
{
    let ghost start = v@;
    let mut i: usize = 0;
    while i < b.len()
        invariant
            i <= b.len(),
            v@ == start + b@.take(i as int),
        decreases b.len() - i,
    {
        v.push(b[i]);
        assert(v@ =~= start + b@.take(i + 1));
        i = i + 1;
    }
    assert(b@.take(i as int) =~= b@);
}

/// The SHA-256 hash of one receipt.
fn receipt(
    previous: &[u8],
    sequence: u64,
    score_bits: u64,
    escalate_on_empty: bool,
    decision: Decision,
    policy: PolicyBits,
) -> (r: Vec<u8>)
    ensures
        r@ == sha256(
            receipt_bytes(previous@, sequence, score_bits, escalate_on_empty, decision, policy),
        ),
        r@.len() == 32,
{
    let mut bytes: Vec<u8> = Vec::new();
    push_bytes(&mut bytes, "confidence-ladder-monitor/v1\0".as_bytes());
    push_bytes(&mut bytes, previous);
    push_be_bytes(&mut bytes, sequence);
    push_be_bytes(&mut bytes, score_bits);
    bytes.push(if escalate_on_empty { 1u8 } else { 0u8 });
    bytes.push(decision.receipt_code());
    push_be_bytes(&mut bytes, policy.t1);
    push_be_bytes(&mut bytes, policy.t2);
    push_be_bytes(&mut bytes, policy.t3);
    push_be_bytes(&mut bytes, policy.healthy_high_tier_rate);
    push_be_bytes(&mut bytes, policy.failing_unaccepted_rate);
    assert(bytes@ =~= receipt_bytes(
        previous@,
        sequence,
        score_bits,
        escalate_on_empty,
        decision,
        policy,
    ));
    sha256_digest(bytes.as_slice())
}

/// Each byte as two lower-case hexadecimal digits.
pub fn hex(bytes: &[u8]) -> (r: String)
    ensures
        r@ == hex_bytes(bytes@),
{
    let mut r = String::new();
    push_hex_bytes(&mut r, bytes);
    assert(r@ =~= hex_bytes(bytes@));
    r
}

fn same_text(a: &String, b: &String) -> (r: bool)
    ensures
        r == (a@ == b@),
{
    crate::text::text_eq(a.as_str(), b.as_str())
}

fn same_bytes(a: &[u8], b: &[u8]) -> (r: bool)
    ensures
        r == (a@ == b@),
{
    if a.len() != b.len() {
        return false;
    }
    let mut i: usize = 0;
    while i < a.len()
        invariant
            i <= a.len() == b.len(),
            a@.take(i as int) == b@.take(i as int),
        decreases a.len() - i,
    {
        if a[i] != b[i] {
            assert(a@[i as int] != b@[i as int]);
            return false;
        }
        assert(a@.take(i + 1) =~= a@.take(i as int).push(a@[i as int]));
        assert(b@.take(i + 1) =~= b@.take(i as int).push(b@[i as int]));
        i = i + 1;
    }
    assert(a@.take(i as int) =~= a@);
    assert(b@.take(i as int) =~= b@);
    true
}

fn zero_hash() -> (r: Vec<u8>)
    ensures
        r@ == genesis(),
{
    let mut r: Vec<u8> = Vec::new();
    let mut i: usize = 0;
    while i < 32
        invariant
            i <= 32,
            r@ == Seq::new(i as nat, |k: int| 0u8),
        decreases 32 - i,
    {
        r.push(0u8);
        assert(r@ =~= Seq::new((i + 1) as nat, |k: int| 0u8));
        i = i + 1;
    }
    r
}

proof fn lemma_chain_prefix(policy: PolicyBits, a: Seq<Entry>, b: Seq<Entry>, n: int)
    requires
        0 <= n <= a.len(),
        n <= b.len(),
        forall|k: int| 0 <= k < n ==> a[k] == b[k],
    ensures
        chain_hash(policy, a, n) == chain_hash(policy, b, n),
    decreases n,
{
    if n > 0 {
        lemma_chain_prefix(policy, a, b, n - 1);
    }
}

/// Checks that the entries replay from the empty chain to `head`: each is
/// numbered in order, names the hash before it, and carries the hash of its
/// receipt over that hash and the policy.
pub fn replay(policy: PolicyBits, entries: &[Entry], head: &[u8]) -> (r: bool)
    ensures
        r == replays(policy, entries@, head@),
{
    let mut previous = zero_hash();
    let mut i: usize = 0;
    while i < entries.len()
        invariant
            i <= entries.len(),
            previous@ == chain_hash(policy, entries@, i as int),
            forall|k: int| 0 <= k < i ==> #[trigger] entry_links(policy, entries@, k),
        decreases entries.len() - i,
    {
        let entry = &entries[i];
        if i as u64 == u64::MAX || entry.sequence != (i as u64) + 1 {
            assert(!entry_links(policy, entries@, i as int));
            return false;
        }
        let before = hex(previous.as_slice());
        if !same_text(&entry.previous_hash, &before) {
            assert(!entry_links(policy, entries@, i as int));
            return false;
        }
        let expected = receipt(
            previous.as_slice(),
            entry.sequence,
            entry.score_bits,
            entry.escalate_on_empty,
            entry.decision,
            policy,
        );
        let after = hex(expected.as_slice());
        if !same_text(&entry.receipt_hash, &after) {
            assert(!entry_links(policy, entries@, i as int));
            return false;
        }
        assert(entry_links(policy, entries@, i as int));
        previous = expected;
        i = i + 1;
    }
    same_bytes(previous.as_slice(), head)
}

fn copy_entry(e: &Entry) -> (r: Entry)
    ensures
        r == *e,
{
    Entry {
        sequence: e.sequence,
        score_bits: e.score_bits,
        escalate_on_empty: e.escalate_on_empty,
        decision: e.decision,
        previous_hash: e.previous_hash.clone(),
        receipt_hash: e.receipt_hash.clone(),
    }
}

/// A ladder's receipt log: the policy, the entries in order, and the hash at
/// the head of the chain. The entries always replay to the head.
#[derive(Debug)]
pub struct ReceiptLog {
    policy: PolicyBits,
    entries: Vec<Entry>,
    head: Vec<u8>,
}

impl ReceiptLog {
    #[verifier::type_invariant]
    spec fn chain_is_valid(self) -> bool {
        replays(self.policy, self.entries@, self.head@)
    }

    /// The policy the receipts commit to.
    pub closed spec fn policy(self) -> PolicyBits {
        self.policy
    }

    /// The recorded entries, in order.
    pub closed spec fn log(self) -> Seq<Entry> {
        self.entries@
    }

    /// The hash at the head of the chain.
    pub closed spec fn head(self) -> Seq<u8> {
        self.head@
    }

    /// An empty log for a policy.
    pub fn new(policy: PolicyBits) -> (r: ReceiptLog)
        ensures
            r.policy() == policy,
            r.log() == Seq::<Entry>::empty(),
            r.head() == genesis(),
    {
        let head = zero_hash();
        let entries: Vec<Entry> = Vec::new();
        assert(replays(policy, entries@, head@));
        ReceiptLog { policy, entries, head }
    }

    /// Records an observation with its decision: the entry is numbered one
    /// past the last, links to the current head, and its receipt hash becomes
    /// the new head. Returns the entry.
    pub fn record(&mut self, score_bits: u64, escalate_on_empty: bool, decision: Decision) -> (r:
        Entry)
        requires
            old(self).log().len() < u64::MAX,
        ensures
            final(self).policy() == old(self).policy(),
            final(self).log() == old(self).log().push(r),
            r.sequence == old(self).log().len() + 1,
            r.score_bits == score_bits,
            r.escalate_on_empty == escalate_on_empty,
            r.decision == decision,
            r.previous_hash@ == hex_bytes(old(self).head()),
            final(self).head() == sha256(
                receipt_bytes(
                    old(self).head(),
                    r.sequence,
                    score_bits,
                    escalate_on_empty,
                    decision,
                    old(self).policy(),
                ),
            ),
            r.receipt_hash@ == hex_bytes(final(self).head()),
    {
        proof {
            use_type_invariant(&*self);
        }
        let ghost old_entries = self.entries@;
        let n = self.entries.len();
        let sequence = (n as u64) + 1;
        let hash = receipt(
            self.head.as_slice(),
            sequence,
            score_bits,
            escalate_on_empty,
            decision,
            self.policy,
        );
        let entry = Entry {
            sequence,
            score_bits,
            escalate_on_empty,
            decision,
            previous_hash: hex(self.head.as_slice()),
            receipt_hash: hex(hash.as_slice()),
        };
        let ghost new_entries = old_entries.push(entry);
        proof {
            lemma_chain_prefix(self.policy, old_entries, new_entries, n as int);
            assert forall|k: int| 0 <= k < new_entries.len() implies #[trigger] entry_links(
                self.policy,
                new_entries,
                k,
            ) by {
                if k < n {
                    assert(entry_links(self.policy, old_entries, k));
                    lemma_chain_prefix(self.policy, old_entries, new_entries, k);
                    lemma_chain_prefix(self.policy, old_entries, new_entries, k + 1);
                }
            }
        }
        let mut current = ReceiptLog::new(self.policy);
        std::mem::swap(self, &mut current);
        let ReceiptLog { policy, mut entries, head: _ } = current;
        entries.push(copy_entry(&entry));
        *self = ReceiptLog { policy, entries, head: hash };
        entry
    }

    /// The recorded entries, in order.
    pub fn entries(&self) -> (r: &[Entry])
        ensures
            r@ == self.log(),
            replays(self.policy(), r@, self.head()),
    {
        proof {
            use_type_invariant(self);
        }
        self.entries.as_slice()
    }

    /// The head hash in hexadecimal.
    pub fn head_hash(&self) -> (r: String)
        ensures
            r@ == hex_bytes(self.head()),
    {
        hex(self.head.as_slice())
    }

    /// Replays the whole chain against the head; a log kept by these methods
    /// always replays.
    pub fn verify(&self) -> (r: bool)
        ensures
            r == replays(self.policy(), self.log(), self.head()),
            r,
    {
        proof {
            use_type_invariant(self);
        }
        replay(self.policy, self.entries.as_slice(), self.head.as_slice())
    }

    /// How many entries carry `decision`.
    pub fn count(&self, decision: Decision) -> (r: usize)
        ensures
            r == decision_count(self.log(), decision),
    {
        let mut count: usize = 0;
        let mut i: usize = 0;
        while i < self.entries.len()
            invariant
                i <= self.entries.len(),
                count == decision_count(self.entries@.take(i as int), decision),
                count <= i,
            decreases self.entries.len() - i,
        {
            assert(self.entries@.take(i + 1).drop_last() =~= self.entries@.take(i as int));
            if self.entries[i].decision == decision {
                count = count + 1;
            }
            i = i + 1;
        }
        assert(self.entries@.take(i as int) =~= self.entries@);
        count
    }
}

impl Clone for ReceiptLog {
    fn clone(&self) -> (r: ReceiptLog)
        ensures
            r.policy() == self.policy(),
            r.log() == self.log(),
            r.head() == self.head(),
    {
        proof {
            use_type_invariant(self);
        }
        let mut entries: Vec<Entry> = Vec::new();
        let mut i: usize = 0;
        while i < self.entries.len()
            invariant
                i <= self.entries.len(),
                entries@ == self.entries@.take(i as int),
            decreases self.entries.len() - i,
        {
            entries.push(copy_entry(&self.entries[i]));
            assert(entries@ =~= self.entries@.take(i + 1));
            i = i + 1;
        }
        assert(entries@ =~= self.entries@);
        ReceiptLog { policy: self.policy, entries, head: self.head.clone() }
    }
}

proof fn lemma_count_step(entries: Seq<Entry>)
    requires
        entries.len() > 0,
    ensures
        decision_count(entries, Decision::Accepted(Tier::T1)) + decision_count(
            entries,
            Decision::Accepted(Tier::T2),
        ) + decision_count(entries, Decision::Accepted(Tier::T3)) + decision_count(
            entries,
            Decision::Escalated,
        ) + decision_count(entries, Decision::Empty) == decision_count(
            entries.drop_last(),
            Decision::Accepted(Tier::T1),
        ) + decision_count(entries.drop_last(), Decision::Accepted(Tier::T2)) + decision_count(
            entries.drop_last(),
            Decision::Accepted(Tier::T3),
        ) + decision_count(entries.drop_last(), Decision::Escalated) + decision_count(
            entries.drop_last(),
            Decision::Empty,
        ) + 1,
{
}

/// Receipt codes tell decisions apart: tiers hash as 1, 2 and 3 in tier
/// order, escalation as 4 and an empty answer as 5, so different decisions
/// have different codes.
pub proof fn lemma_decision_codes(a: Decision, b: Decision)
    ensures
        1 <= decision_number(a) <= 5,
        decision_number(a) == decision_number(b) ==> a == b,
        decision_number(Decision::Accepted(Tier::T1)) < decision_number(Decision::Accepted(Tier::T2)),
        decision_number(Decision::Accepted(Tier::T2)) < decision_number(Decision::Accepted(Tier::T3)),
        decision_number(Decision::Accepted(Tier::T3)) < decision_number(Decision::Escalated),
        decision_number(Decision::Escalated) < decision_number(Decision::Empty),
{
}

/// `count` counts exactly the entries that carry the decision: the count is
/// the length of the entries filtered by it.
pub proof fn lemma_decision_count_filters(entries: Seq<Entry>, decision: Decision)
    ensures
        decision_count(entries, decision) == entries.filter(|e: Entry| e.decision == decision).len(),
    decreases entries.len(),
{
    reveal(Seq::filter);
    if entries.len() > 0 {
        lemma_decision_count_filters(entries.drop_last(), decision);
    }
}

/// Recording an entry raises the count of its own decision by one and leaves
/// every other count unchanged.
pub proof fn lemma_decision_count_push(entries: Seq<Entry>, e: Entry, decision: Decision)
    ensures
        e.decision == decision ==> decision_count(entries.push(e), decision) == decision_count(
            entries,
            decision,
        ) + 1,
        e.decision != decision ==> decision_count(entries.push(e), decision) == decision_count(
            entries,
            decision,
        ),
{
    assert(entries.push(e).drop_last() =~= entries);
}

/// Every entry carries exactly one of the five decisions, so their counts add
/// up to the number of entries.
pub proof fn lemma_decisions_partition(entries: Seq<Entry>)
    ensures
        decision_count(entries, Decision::Accepted(Tier::T1)) + decision_count(
            entries,
            Decision::Accepted(Tier::T2),
        ) + decision_count(entries, Decision::Accepted(Tier::T3)) + decision_count(
            entries,
            Decision::Escalated,
        ) + decision_count(entries, Decision::Empty) == entries.len(),
    decreases entries.len(),
{
    if entries.len() > 0 {
        lemma_decisions_partition(entries.drop_last());
        lemma_count_step(entries);
    }
}

/// The chain is determined by the policy and the observations: two chains
/// that replay under one policy and record the same scores, flags and
/// decisions in the same order have the same sequence numbers, the same
/// hashes and the same head.
pub proof fn lemma_chain_determined(
    policy: PolicyBits,
    a: Seq<Entry>,
    b: Seq<Entry>,
    head_a: Seq<u8>,
    head_b: Seq<u8>,
)
    requires
        replays(policy, a, head_a),
        replays(policy, b, head_b),
        a.len() == b.len(),
        forall|i: int|
            0 <= i < a.len() ==> {
                &&& #[trigger] a[i].score_bits == b[i].score_bits
                &&& a[i].escalate_on_empty == b[i].escalate_on_empty
                &&& a[i].decision == b[i].decision
            },
    ensures
        head_a == head_b,
        forall|i: int|
            0 <= i < a.len() ==> {
                &&& #[trigger] a[i].sequence == b[i].sequence
                &&& a[i].previous_hash@ == b[i].previous_hash@
                &&& a[i].receipt_hash@ == b[i].receipt_hash@
            },
{
    assert forall|n: int| 0 <= n <= a.len() implies #[trigger] chain_hash(policy, a, n)
        == chain_hash(policy, b, n) by {
        lemma_same_chain(policy, a, b, n);
    }
    assert forall|i: int| 0 <= i < a.len() implies {
        &&& #[trigger] a[i].sequence == b[i].sequence
        &&& a[i].previous_hash@ == b[i].previous_hash@
        &&& a[i].receipt_hash@ == b[i].receipt_hash@
    } by {
        assert(entry_links(policy, a, i));
        assert(entry_links(policy, b, i));
        assert(chain_hash(policy, a, i) == chain_hash(policy, b, i));
        assert(chain_hash(policy, a, i + 1) == chain_hash(policy, b, i + 1));
    }
    assert(chain_hash(policy, a, a.len() as int) == chain_hash(policy, b, b.len() as int));
}

proof fn lemma_same_chain(policy: PolicyBits, a: Seq<Entry>, b: Seq<Entry>, n: int)
    requires
        replays(policy, a, chain_hash(policy, a, a.len() as int)),
        replays(policy, b, chain_hash(policy, b, b.len() as int)),
        0 <= n <= a.len(),
        a.len() == b.len(),
        forall|i: int|
            0 <= i < a.len() ==> {
                &&& #[trigger] a[i].score_bits == b[i].score_bits
                &&& a[i].escalate_on_empty == b[i].escalate_on_empty
                &&& a[i].decision == b[i].decision
            },
    ensures
        chain_hash(policy, a, n) == chain_hash(policy, b, n),
    decreases n,
{
    if n > 0 {
        lemma_same_chain(policy, a, b, n - 1);
        assert(entry_links(policy, a, n - 1));
        assert(entry_links(policy, b, n - 1));
        assert(a[n - 1].score_bits == b[n - 1].score_bits);
    }
}

} // verus!
