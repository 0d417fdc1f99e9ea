//! The receipt chain of a five-signal escalation router. Each routing decision
//! is kept as a receipt whose SHA-256 digest covers its version, sequence
//! number, the previous digest, the signals, weights and thresholds, the score
//! and the route; each receipt names the digest before it.
//!
//! Signals, weights, thresholds and scores are real numbers; the receipts here
//! carry them as their IEEE-754 `f64` bit patterns, which is what the digest
//! covers.

use vstd::prelude::*;

use crate::digest::{sha256, sha256_digest};
use crate::text::{decimal, hex_bytes, hex_fixed, push_decimal, push_hex_bytes, push_hex_fixed, push_str, utf8};

verus! {

/// Where a request goes.
#[derive(Clone, Copy, Debug, PartialEq, Eq, Structural)]
pub enum Route {
    Continue,
    Recall,
    Escalate,
}

/// Why signals, a policy or an audit bound were refused.
#[derive(Clone, Copy, Debug, PartialEq, Eq, Structural)]
pub enum ValidationError {
    NonFiniteSignal,
    SignalOutsideUnitInterval,
    InvalidWeight,
    WeightsDoNotSumToOne,
    InvalidThresholds,
    InvalidMaximumEscalationRate,
}

/// The name of a route, as receipts spell it.
pub open spec fn route_name(r: Route) -> Seq<char> {
    match r {
        Route::Continue => "Continue"@,
        Route::Recall => "Recall"@,
        Route::Escalate => "Escalate"@,
    }
}

/// One routing receipt. `signal_bits` and `weight_bits` hold the predictive
/// entropy, budget overrun risk, consistency residual, tool need and component
/// alarm, in that order.
#[derive(Clone, Debug, PartialEq, Eq)]
pub struct RouteRecord {
    pub version: u8,
    pub sequence: u64,
    pub signal_bits: [u64; 5],
    pub weight_bits: [u64; 5],
    pub recall_bits: u64,
    pub escalate_bits: u64,
    pub score_bits: u64,
    pub route: Route,
    pub previous_digest: String,
    pub digest: String,
}

/// Each value as sixteen hexadecimal digits followed by a bar.
pub open spec fn values_text(values: Seq<u64>) -> Seq<char>
    decreases values.len(),
{
    if values.len() == 0 {
        Seq::empty()
    } else {
        values_text(values.drop_last()) + hex_fixed(values.last() as nat, 16) + "|"@
    }
}

/// The real numbers a receipt commits to, in digest order.
pub open spec fn committed_values(r: RouteRecord) -> Seq<u64> {
    r.signal_bits@ + r.weight_bits@ + seq![r.recall_bits, r.escalate_bits, r.score_bits]
}

/// The text a receipt's digest covers.
pub open spec fn canonical_text(r: RouteRecord) -> Seq<char> {
    "interrupt-router-v"@ + decimal(r.version as nat) + "|"@ + decimal(r.sequence as nat) + "|"@
        + r.previous_digest@ + "|"@ + values_text(committed_values(r)) + route_name(r.route)
}

/// The digest a receipt should carry.
pub open spec fn digest_of(r: RouteRecord) -> Seq<char> {
    hex_bytes(sha256(utf8(canonical_text(r))))
}

/// The digest that precedes the first receipt: sixty-four zeros.
pub open spec fn zero_digest() -> Seq<char> {
    Seq::new(64, |i: int| '0')
}

/// The digest receipt `i` should name as its predecessor.
pub open spec fn link(records: Seq<RouteRecord>, i: int) -> Seq<char> {
    if i == 0 {
        zero_digest()
    } else {
        records[i - 1].digest@
    }
}

/// Whether receipt `i` is a version 1 receipt numbered `i` that names its
/// predecessor's digest and carries its own.
pub open spec fn record_links(records: Seq<RouteRecord>, i: int) -> bool {
    &&& records[i].version == 1
    &&& records[i].sequence == i
    &&& records[i].previous_digest@ == link(records, i)
    &&& records[i].digest@ == digest_of(records[i])
}

/// Whether every receipt links.
pub open spec fn chain_links(records: Seq<RouteRecord>) -> bool {
    forall|i: int| 0 <= i < records.len() ==> #[trigger] record_links(records, i)
}

/// How many receipts took `route`.
pub open spec fn route_count(records: Seq<RouteRecord>, route: Route) -> nat
    decreases records.len(),
{
    if records.len() == 0 {
        0
    } else {
        route_count(records.drop_last(), route) + if records.last().route == route {
            1nat
        } else {
            0nat
        }
    }
}

impl Route {
    /// The route's name.
    pub fn name(self) -> (r: &'static str)
        ensures
            r@ == route_name(self),
    {
        match self {
            Route::Continue => "Continue",
            Route::Recall => "Recall",
            Route::Escalate => "Escalate",
        }
    }
}

fn push_values(s: &mut String, values: &[u64])
    ensures
        final(s)@ == old(s)@ + values_text(values@),
{
    let ghost start = s@;
    let mut i: usize = 0;
    while i < values.len()
        invariant
            i <= values.len(),
            s@ == start + values_text(values@.take(i as int)),
        decreases values.len() - i,
    {
        push_hex_fixed(s, values[i], 16);
        push_str(s, "|");
        assert(values@.take(i + 1).drop_last() =~= values@.take(i as int));
        assert(s@ =~= start + values_text(values@.take(i + 1)));
        i = i + 1;
    }
    assert(values@.take(i as int) =~= values@);
}

/// The digest of a receipt, over everything but its own digest.
fn digest(record: &RouteRecord) -> (r: String)
    ensures
        r@ == digest_of(*record),
{
    let mut canonical = String::new();
    push_str(&mut canonical, "interrupt-router-v");
    push_decimal(&mut canonical, record.version as u64);
    push_str(&mut canonical, "|");
    push_decimal(&mut canonical, record.sequence);
    push_str(&mut canonical, "|");
    push_str(&mut canonical, record.previous_digest.as_str());
    push_str(&mut canonical, "|");
    let mut values: Vec<u64> = Vec::new();
    let mut i: usize = 0;
    while i < 5
        invariant
            i <= 5,
            values@ == record.signal_bits@.take(i as int),
        decreases 5 - i,
    {
        values.push(record.signal_bits[i]);
        assert(values@ =~= record.signal_bits@.take(i + 1));
        i = i + 1;
    }
    let mut j: usize = 0;
    while j < 5
        invariant
            j <= 5,
            values@ == record.signal_bits@ + record.weight_bits@.take(j as int),
        decreases 5 - j,
    {
        values.push(record.weight_bits[j]);
        assert(values@ =~= record.signal_bits@ + record.weight_bits@.take(j + 1));
        j = j + 1;
    }
    values.push(record.recall_bits);
    values.push(record.escalate_bits);
    values.push(record.score_bits);
    assert(values@ =~= committed_values(*record));
    push_values(&mut canonical, values.as_slice());
    push_str(&mut canonical, record.route.name());
    assert(canonical@ =~= canonical_text(*record));
    let hash = sha256_digest(canonical.as_str().as_bytes());
    let mut r = String::new();
    push_hex_bytes(&mut r, hash.as_slice());
    assert(r@ =~= hex_bytes(hash@));
    r
}

fn zeros() -> (r: String)
    ensures
        r@ == zero_digest(),
{
    let mut r = String::new();
    let mut i: usize = 0;
    while i < 64
        invariant
            i <= 64,
            r@ == Seq::new(i as nat, |k: int| '0'),
        decreases 64 - i,
    {
        crate::text::push_char(&mut r, '0');
        assert(r@ =~= Seq::new((i + 1) as nat, |k: int| '0'));
        i = i + 1;
    }
    r
}

/// Checks the chain of receipts: each is version 1, numbered from zero in
/// order, names the digest of the receipt before it (sixty-four zeros for the
/// first) and carries its own digest.
pub fn verify_links(records: &[RouteRecord]) -> (r: bool)
    ensures
        r == chain_links(records@),
{
    let mut previous = zeros();
    let mut i: usize = 0;
    while i < records.len()
        invariant
            i <= records.len(),
            previous@ == link(records@, i as int),
            forall|k: int| 0 <= k < i ==> #[trigger] record_links(records@, k),
        decreases records.len() - i,
    {
        let record = &records[i];
        if record.version != 1 || record.sequence != i as u64 {
            assert(!record_links(records@, i as int));
            return false;
        }
        if !crate::text::text_eq(record.previous_digest.as_str(), previous.as_str()) {
            assert(!record_links(records@, i as int));
            return false;
        }
        let expected = digest(record);
        if !crate::text::text_eq(record.digest.as_str(), expected.as_str()) {
            assert(!record_links(records@, i as int));
            return false;
        }
        previous = record.digest.clone();
        i = i + 1;
    }
    true
}

/// How many receipts took `route`.
pub fn count_route(records: &[RouteRecord], route: Route) -> (r: usize)
    ensures
        r == route_count(records@, route),
{
    let mut count: usize = 0;
    let mut i: usize = 0;
    while i < records.len()
        invariant
            i <= records.len(),
            count == route_count(records@.take(i as int), route),
            count <= i,
        decreases records.len() - i,
    {
        assert(records@.take(i + 1).drop_last() =~= records@.take(i as int));
        if records[i].route == route {
            count = count + 1;
        }
        i = i + 1;
    }
    assert(records@.take(i as int) =~= records@);
    count
}

fn copy_record(r: &RouteRecord) -> (c: RouteRecord)
    ensures
        c == *r,
{
    RouteRecord {
        version: r.version,
        sequence: r.sequence,
        signal_bits: r.signal_bits,
        weight_bits: r.weight_bits,
        recall_bits: r.recall_bits,
        escalate_bits: r.escalate_bits,
        score_bits: r.score_bits,
        route: r.route,
        previous_digest: r.previous_digest.clone(),
        digest: r.digest.clone(),
    }
}

/// A router's receipt log under one policy: every receipt carries the
/// policy's weights and thresholds, and the receipts always link.
#[derive(Debug)]
pub struct RouteLog {
    weight_bits: [u64; 5],
    recall_bits: u64,
    escalate_bits: u64,
    records: Vec<RouteRecord>,
}

impl RouteLog {
    #[verifier::type_invariant]
    spec fn log_is_valid(self) -> bool {
        &&& chain_links(self.records@)
        &&& forall|i: int|
            0 <= i < self.records@.len() ==> {
                &&& (#[trigger] self.records@[i]).weight_bits == self.weight_bits
                &&& self.records@[i].recall_bits == self.recall_bits
                &&& self.records@[i].escalate_bits == self.escalate_bits
            }
    }

    /// The receipts, in order.
    pub closed spec fn log(self) -> Seq<RouteRecord> {
        self.records@
    }

    /// The weights every receipt carries.
    pub closed spec fn weights(self) -> [u64; 5] {
        self.weight_bits
    }

    /// The recall and escalation thresholds every receipt carries.
    pub closed spec fn thresholds(self) -> (u64, u64) {
        (self.recall_bits, self.escalate_bits)
    }

    /// An empty log for a policy.
    pub fn new(weight_bits: [u64; 5], recall_bits: u64, escalate_bits: u64) -> (r: RouteLog)
        ensures
            r.log() == Seq::<RouteRecord>::empty(),
            r.weights() == weight_bits,
            r.thresholds() == (recall_bits, escalate_bits),
    {
        RouteLog { weight_bits, recall_bits, escalate_bits, records: Vec::new() }
    }

    /// Appends the receipt of one routing decision: version 1, numbered by
    /// its position, naming the last digest (sixty-four zeros at first),
    /// carrying the policy, the signals, the score and the route, and its own
    /// digest. Returns the receipt.
    pub fn append(&mut self, signal_bits: [u64; 5], score_bits: u64, route: Route) -> (r:
        &RouteRecord)
        ensures
            final(self).weights() == old(self).weights(),
            final(self).thresholds() == old(self).thresholds(),
            final(self).log() == old(self).log().push(*r),
            r.version == 1,
            r.sequence == old(self).log().len(),
            r.signal_bits == signal_bits,
            r.weight_bits == old(self).weights(),
            (r.recall_bits, r.escalate_bits) == old(self).thresholds(),
            r.score_bits == score_bits,
            r.route == route,
            r.previous_digest@ == link(old(self).log().push(*r), old(self).log().len() as int),
            r.digest@ == digest_of(*r),
    {
        proof {
            use_type_invariant(&*self);
        }
        let ghost old_records = self.records@;
        let n = self.records.len();
        let previous_digest = if n == 0 {
            zeros()
        } else {
            self.records[n - 1].digest.clone()
        };
        let mut record = RouteRecord {
            version: 1,
            sequence: n as u64,
            signal_bits,
            weight_bits: self.weight_bits,
            recall_bits: self.recall_bits,
            escalate_bits: self.escalate_bits,
            score_bits,
            route,
            previous_digest,
            digest: String::new(),
        };
        record.digest = digest(&record);
        let ghost new_records = old_records.push(record);
        proof {
            assert forall|k: int| 0 <= k < new_records.len() implies #[trigger] record_links(
                new_records,
                k,
            ) by {
                if k < n {
                    assert(record_links(old_records, k));
                    assert(new_records[k] == old_records[k]);
                    if k > 0 {
                        assert(new_records[k - 1] == old_records[k - 1]);
                    }
                }
            }
        }
        let mut records: Vec<RouteRecord> = Vec::new();
        std::mem::swap(&mut records, &mut self.records);
        records.push(record);
        assert(records@ == new_records);
        self.records = records;
        let last = self.records.len() - 1;
        &self.records[last]
    }

    /// The receipts, in order; they always link.
    pub fn records(&self) -> (r: &[RouteRecord])
        ensures
            r@ == self.log(),
            chain_links(r@),
    {
        proof {
            use_type_invariant(self);
        }
        self.records.as_slice()
    }
}

impl Clone for RouteLog {
    fn clone(&self) -> (r: RouteLog)
        ensures
            r.log() == self.log(),
            r.weights() == self.weights(),
            r.thresholds() == self.thresholds(),
    {
        proof {
            use_type_invariant(self);
        }
        let mut records: Vec<RouteRecord> = Vec::new();
        let mut i: usize = 0;
        while i < self.records.len()
            invariant
                i <= self.records.len(),
                records@ == self.records@.take(i as int),
            decreases self.records.len() - i,
        {
            records.push(copy_record(&self.records[i]));
            assert(records@ =~= self.records@.take(i + 1));
            i = i + 1;
        }
        assert(records@ =~= self.records@);
        RouteLog {
            weight_bits: self.weight_bits,
            recall_bits: self.recall_bits,
            escalate_bits: self.escalate_bits,
            records,
        }
    }
}

/// `count_route` counts exactly the receipts that took the route: the count
/// is the length of the receipts filtered by it.
pub proof fn lemma_route_count_filters(records: Seq<RouteRecord>, route: Route)
    ensures
        route_count(records, route) == records.filter(|r: RouteRecord| r.route == route).len(),
    decreases records.len(),
{
    reveal(Seq::filter);
    if records.len() > 0 {
        lemma_route_count_filters(records.drop_last(), route);
    }
}

/// Every receipt took exactly one route, so the counts of the three routes
/// add up to the number of receipts.
pub proof fn lemma_routes_partition(records: Seq<RouteRecord>)
    ensures
        route_count(records, Route::Continue) + route_count(records, Route::Recall) + route_count(
            records,
            Route::Escalate,
        ) == records.len(),
    decreases records.len(),
{
    if records.len() > 0 {
        lemma_routes_partition(records.drop_last());
    }
}

/// Whether two receipts commit to the same signals, policy, score and route.
pub open spec fn same_inputs(a: RouteRecord, b: RouteRecord) -> bool {
    &&& a.signal_bits == b.signal_bits
    &&& a.weight_bits == b.weight_bits
    &&& a.recall_bits == b.recall_bits
    &&& a.escalate_bits == b.escalate_bits
    &&& a.score_bits == b.score_bits
    &&& a.route == b.route
}

proof fn lemma_same_digests(a: Seq<RouteRecord>, b: Seq<RouteRecord>, n: int)
    requires
        chain_links(a),
        chain_links(b),
        a.len() == b.len(),
        0 <= n < a.len(),
        forall|i: int| 0 <= i < a.len() ==> same_inputs(#[trigger] a[i], b[i]),
    ensures
        a[n].previous_digest@ == b[n].previous_digest@,
        a[n].digest@ == b[n].digest@,
    decreases n,
{
    assert(record_links(a, n));
    assert(record_links(b, n));
    if n > 0 {
        lemma_same_digests(a, b, n - 1);
    }
    assert(same_inputs(a[n], b[n]));
    assert(committed_values(a[n]) == committed_values(b[n]));
    assert(canonical_text(a[n]) == canonical_text(b[n]));
}

/// Receipt chains are determined by their inputs: two chains that link and
/// record the same signals, policy, scores and routes in the same order carry
/// the same sequence numbers and the same digests.
pub proof fn lemma_route_chain_determined(a: Seq<RouteRecord>, b: Seq<RouteRecord>)
    requires
        chain_links(a),
        chain_links(b),
        a.len() == b.len(),
        forall|i: int| 0 <= i < a.len() ==> same_inputs(#[trigger] a[i], b[i]),
    ensures
        forall|i: int|
            0 <= i < a.len() ==> {
                &&& (#[trigger] a[i]).sequence == b[i].sequence
                &&& a[i].previous_digest@ == b[i].previous_digest@
                &&& a[i].digest@ == b[i].digest@
            },
{
    assert forall|i: int| 0 <= i < a.len() implies {
        &&& (#[trigger] a[i]).sequence == b[i].sequence
        &&& a[i].previous_digest@ == b[i].previous_digest@
        &&& a[i].digest@ == b[i].digest@
    } by {
        assert(record_links(a, i));
        assert(record_links(b, i));
        lemma_same_digests(a, b, i);
    }
}

} // verus!
