//! A deterministic decision kernel: capability-based decisions recorded in one
//! hash-linked log of receipts, with fail-closed replay verification.
//!
//! The digest is 64-bit FNV-1a, a deterministic integrity checksum, not a
//! cryptographic signature.

use vstd::prelude::*;

use crate::text::{
    decimal, fnv1a, fnv1a_hash, hex_fixed, push_decimal, push_hex_fixed, push_str, utf8,
};

verus! {

/// What an action needs to be allowed to do.
#[derive(Clone, Debug, Eq, Ord, PartialEq, PartialOrd, Structural)]
pub enum Capability {
    Read,
    Write,
    Execute,
    Network,
}

/// An action presented to the kernel.
#[derive(Clone, Debug, Eq, PartialEq)]
pub struct Action {
    pub capability: Capability,
    pub resource: String,
    pub payload_digest: u64,
}

/// What the kernel decided.
#[derive(Clone, Debug, Eq, PartialEq)]
pub enum Outcome {
    Allowed,
    Denied(&'static str),
}

/// One entry of the kernel's log.
#[derive(Clone, Debug, Eq, PartialEq)]
pub struct Receipt {
    pub sequence: u64,
    pub action: Action,
    pub outcome: Outcome,
    pub previous_hash: u64,
    pub hash: u64,
}

/// The capabilities a kernel admits.
#[derive(Debug)]
pub struct Policy {
    allowed: Vec<Capability>,
}

impl View for Policy {
    type V = Set<Capability>;

    closed spec fn view(&self) -> Set<Capability> {
        self.allowed@.to_set()
    }
}

impl Default for Policy {
    /// A policy that admits nothing.
    fn default() -> (r: Policy)
        ensures
            r@ == Set::<Capability>::empty(),
    {
        let r = Policy { allowed: Vec::new() };
        assert(r@ =~= Set::<Capability>::empty());
        r
    }
}

impl Policy {
    /// The policy that also admits `capability`.
    pub fn allow(self, capability: Capability) -> (r: Policy)
        ensures
            r@ == self@.insert(capability),
    {
        let ghost orig = self.allowed@;
        let ghost me = self@;
        assert(me == orig.to_set());
        let mut allowed = self.allowed;
        let mut i: usize = 0;
        while i < allowed.len()
            invariant
                i <= allowed.len(),
                allowed@ == orig,
                me == orig.to_set(),
                me == self@,
                forall|k: int| 0 <= k < i ==> allowed@[k] != capability,
            decreases allowed.len() - i,
        {
            if allowed[i] == capability {
                assert(orig[i as int] == capability);
                assert(orig.to_set().contains(capability));
                let r = Policy { allowed };
                assert(r@ =~= self@.insert(capability));
                return r;
            }
            i = i + 1;
        }
        let ghost before = allowed@;
        allowed.push(capability);
        proof {
            crate::collections::lemma_push_to_set(before, capability);
        }
        Policy { allowed }
    }

    /// Whether the action's capability is admitted.
    pub fn admits(&self, action: &Action) -> (r: bool)
        ensures
            r == self@.contains(action.capability),
    {
        let mut i: usize = 0;
        while i < self.allowed.len()
            invariant
                i <= self.allowed.len(),
                forall|k: int| 0 <= k < i ==> self.allowed@[k] != action.capability,
            decreases self.allowed.len() - i,
        {
            if self.allowed[i] == action.capability {
                assert(self.allowed@.contains(action.capability));
                return true;
            }
            i = i + 1;
        }
        false
    }
}

/// The reason given for a denial.
pub open spec fn denial_reason() -> Seq<char> {
    "capability is outside the admitted set"@
}

/// Whether the outcome is the one a policy gives: allowed when admitted,
/// otherwise denied for the capability.
pub open spec fn outcome_decides(outcome: Outcome, admitted: bool) -> bool {
    if admitted {
        outcome is Allowed
    } else {
        outcome matches Outcome::Denied(reason) && reason@ == denial_reason()
    }
}

/// The code of a capability.
pub open spec fn capability_name(c: Capability) -> Seq<char> {
    match c {
        Capability::Read => "read"@,
        Capability::Write => "write"@,
        Capability::Execute => "execute"@,
        Capability::Network => "network"@,
    }
}

/// The code of an outcome.
pub open spec fn outcome_text(o: Outcome) -> Seq<char> {
    match o {
        Outcome::Allowed => "allowed"@,
        Outcome::Denied(reason) => "denied:"@ + reason@,
    }
}

/// The canonical rendering of a receipt.
pub open spec fn receipt_text(sequence: u64, action: Action, outcome: Outcome, previous: u64) -> Seq<
    char,
> {
    "v1|"@ + decimal(sequence as nat) + "|"@ + capability_name(action.capability) + "|"@
        + action.resource@ + "|"@ + hex_fixed(action.payload_digest as nat, 16) + "|"@
        + outcome_text(outcome) + "|"@ + hex_fixed(previous as nat, 16)
}

/// The hash of a receipt: FNV-1a of the UTF-8 bytes of its rendering.
pub open spec fn receipt_hash_of(sequence: u64, action: Action, outcome: Outcome, previous: u64) -> u64 {
    fnv1a(utf8(receipt_text(sequence, action, outcome, previous)))
}

/// The hash that receipt `i` must link to: 0 first, then the previous hash.
pub open spec fn link(receipts: Seq<Receipt>, i: int) -> u64 {
    if i == 0 {
        0
    } else {
        receipts[i - 1].hash
    }
}

/// What is wrong with receipt `i`, if anything, as the start of a message.
pub open spec fn receipt_fault(receipts: Seq<Receipt>, i: int) -> Option<Seq<char>> {
    let r = receipts[i];
    if r.sequence != i {
        Some("sequence mismatch at "@)
    } else if r.previous_hash != link(receipts, i) {
        Some("chain mismatch at "@)
    } else if r.hash != receipt_hash_of(r.sequence, r.action, r.outcome, link(receipts, i)) {
        Some("receipt mismatch at "@)
    } else {
        None
    }
}

/// The message for the first faulty receipt among the first `n`: its fault
/// followed by its index.
pub open spec fn first_replay_error(receipts: Seq<Receipt>, n: int) -> Option<Seq<char>>
    decreases n,
{
    if n <= 0 {
        None
    } else {
        match first_replay_error(receipts, n - 1) {
            Some(m) => Some(m),
            None => match receipt_fault(receipts, n - 1) {
                Some(m) => Some(m + decimal((n - 1) as nat)),
                None => None,
            },
        }
    }
}

/// The message for the first faulty receipt, if any.
pub open spec fn replay_error(receipts: Seq<Receipt>) -> Option<Seq<char>> {
    first_replay_error(receipts, receipts.len() as int)
}

/// Whether a log is one a kernel with these admitted capabilities keeps: it
/// replays, and each outcome is the policy's decision on its action.
pub open spec fn valid_log(admitted: Set<Capability>, receipts: Seq<Receipt>) -> bool {
    &&& replay_error(receipts) is None
    &&& forall|i: int|
        0 <= i < receipts.len() ==> outcome_decides(
            #[trigger] receipts[i].outcome,
            admitted.contains(receipts[i].action.capability),
        )
}

/// Once a receipt is faulty, the first error stays the same further on.
proof fn lemma_replay_error_settles(receipts: Seq<Receipt>, m: int, n: int)
    requires
        0 <= m <= n,
        first_replay_error(receipts, m) is Some,
    ensures
        first_replay_error(receipts, n) == first_replay_error(receipts, m),
    decreases n - m,
{
    if n > m {
        lemma_replay_error_settles(receipts, m, n - 1);
    }
}

/// A log without error has no faulty receipt.
proof fn lemma_no_replay_error(receipts: Seq<Receipt>, n: int, k: int)
    requires
        0 <= k < n,
        first_replay_error(receipts, n) is None,
    ensures
        receipt_fault(receipts, k) is None,
    decreases n,
{
    if k < n - 1 {
        lemma_no_replay_error(receipts, n - 1, k);
    }
}

/// A kernel: a policy and the log of every decision it made.
#[derive(Debug)]
pub struct Kernel {
    policy: Policy,
    receipts: Vec<Receipt>,
}

impl Kernel {
    #[verifier::type_invariant]
    spec fn log_is_valid(self) -> bool {
        valid_log(self.policy@, self.receipts@)
    }

    /// The capabilities the kernel admits.
    pub closed spec fn admitted(self) -> Set<Capability> {
        self.policy@
    }

    /// The receipts, in order.
    pub closed spec fn log(self) -> Seq<Receipt> {
        self.receipts@
    }

    /// A kernel with an empty log.
    pub fn new(policy: Policy) -> (r: Kernel)
        ensures
            r.admitted() == policy@,
            r.log() == Seq::<Receipt>::empty(),
    {
        Kernel { policy, receipts: Vec::new() }
    }

    /// Decides an action and appends its receipt to the log: allowed when the
    /// policy admits its capability, denied otherwise; numbered by its place
    /// in the log, linked to the previous receipt's hash (0 for the first),
    /// and hashed over all of that.
    pub fn decide(&mut self, action: Action) -> (r: &Receipt)
        ensures
            final(self).admitted() == old(self).admitted(),
            final(self).log().len() == old(self).log().len() + 1,
            final(self).log().drop_last() == old(self).log(),
            *r == final(self).log().last(),
            r.sequence == old(self).log().len(),
            r.action == action,
            outcome_decides(r.outcome, old(self).admitted().contains(action.capability)),
            r.previous_hash == link(final(self).log(), old(self).log().len() as int),
            r.hash == receipt_hash_of(r.sequence, r.action, r.outcome, r.previous_hash),
            valid_log(final(self).admitted(), final(self).log()),
    {
        proof {
            use_type_invariant(&*self);
        }
        let outcome = if self.policy.admits(&action) {
            Outcome::Allowed
        } else {
            Outcome::Denied("capability is outside the admitted set")
        };
        let sequence = self.receipts.len() as u64;
        let previous_hash = if self.receipts.len() == 0 {
            0
        } else {
            self.receipts[self.receipts.len() - 1].hash
        };
        let hash = receipt_hash(sequence, &action, &outcome, previous_hash);
        let receipt = Receipt { sequence, action, outcome, previous_hash, hash };
        let ghost old_log = self.receipts@;
        let ghost new_log = old_log.push(receipt);
        proof {
            let n = old_log.len() as int;
            assert(new_log.drop_last() =~= old_log);
            assert forall|i: int| 0 <= i <= n implies #[trigger] first_replay_error(new_log, i)
                == first_replay_error(old_log, i) by {
                lemma_prefix_replay_error(old_log, new_log, i);
            }
            assert(receipt_fault(new_log, n) is None);
            assert(first_replay_error(new_log, n) is None);
            assert(replay_error(new_log) is None);
            assert forall|i: int| 0 <= i < new_log.len() implies outcome_decides(
                #[trigger] new_log[i].outcome,
                self.policy@.contains(new_log[i].action.capability),
            ) by {
                if i < n {
                    assert(new_log[i] == old_log[i]);
                }
            }
            assert(valid_log(self.policy@, new_log));
        }
        let mut receipts: Vec<Receipt> = Vec::new();
        std::mem::swap(&mut receipts, &mut self.receipts);
        receipts.push(receipt);
        self.receipts = receipts;
        let last = self.receipts.len() - 1;
        &self.receipts[last]
    }

    /// The receipts, in order; they always replay.
    pub fn receipts(&self) -> (r: &[Receipt])
        ensures
            r@ == self.log(),
            valid_log(self.admitted(), r@),
    {
        proof {
            use_type_invariant(self);
        }
        self.receipts.as_slice()
    }
}

/// Extending a log keeps the errors of its prefix.
proof fn lemma_prefix_replay_error(a: Seq<Receipt>, b: Seq<Receipt>, n: int)
    requires
        0 <= n <= a.len() <= b.len(),
        forall|i: int| 0 <= i < a.len() ==> a[i] == b[i],
    ensures
        first_replay_error(b, n) == first_replay_error(a, n),
    decreases n,
{
    if n > 0 {
        lemma_prefix_replay_error(a, b, n - 1);
        if n - 1 > 0 {
            assert(a[n - 2] == b[n - 2]);
        }
        assert(a[n - 1] == b[n - 1]);
    }
}

/// The 64-bit FNV-1a checksum of `bytes`.
pub fn stable_hash(bytes: &[u8]) -> (r: u64)
    ensures
        r == fnv1a(bytes@),
{
    fnv1a_hash(bytes)
}

fn capability_code(capability: &Capability) -> (r: &'static str)
    ensures
        r@ == capability_name(*capability),
{
    match capability {
        Capability::Read => "read",
        Capability::Write => "write",
        Capability::Execute => "execute",
        Capability::Network => "network",
    }
}

fn outcome_code(outcome: &Outcome) -> (r: String)
    ensures
        r@ == outcome_text(*outcome),
{
    let mut r = String::new();
    match outcome {
        Outcome::Allowed => {
            push_str(&mut r, "allowed");
        },
        Outcome::Denied(reason) => {
            push_str(&mut r, "denied:");
            push_str(&mut r, reason);
        },
    }
    assert(r@ =~= outcome_text(*outcome));
    r
}

fn receipt_hash(sequence: u64, action: &Action, outcome: &Outcome, previous: u64) -> (r: u64)
    ensures
        r == receipt_hash_of(sequence, *action, *outcome, previous),
{
    let mut canonical = String::new();
    push_str(&mut canonical, "v1|");
    push_decimal(&mut canonical, sequence);
    push_str(&mut canonical, "|");
    push_str(&mut canonical, capability_code(&action.capability));
    push_str(&mut canonical, "|");
    push_str(&mut canonical, action.resource.as_str());
    push_str(&mut canonical, "|");
    push_hex_fixed(&mut canonical, action.payload_digest, 16);
    push_str(&mut canonical, "|");
    let code = outcome_code(outcome);
    push_str(&mut canonical, code.as_str());
    push_str(&mut canonical, "|");
    push_hex_fixed(&mut canonical, previous, 16);
    assert(canonical@ =~= receipt_text(sequence, *action, *outcome, previous));
    stable_hash(canonical.as_str().as_bytes())
}

/// Checks a log: each receipt must carry its index as its number, link to the
/// previous receipt's hash (0 for the first), and hash to its own rendering.
/// The first receipt that does not is reported with its index.
pub fn verify_replay(receipts: &[Receipt]) -> (r: Result<(), String>)
    ensures
        match r {
            Ok(()) => replay_error(receipts@) is None,
            Err(message) => replay_error(receipts@) == Some(message@),
        },
{
    let mut previous: u64 = 0;
    let mut index: usize = 0;
    while index < receipts.len()
        invariant
            index <= receipts.len(),
            previous == link(receipts@, index as int),
            first_replay_error(receipts@, index as int) is None,
        decreases receipts.len() - index,
    {
        let receipt = &receipts[index];
        let mut message = String::new();
        if receipt.sequence != index as u64 {
            push_str(&mut message, "sequence mismatch at ");
        } else if receipt.previous_hash != previous {
            push_str(&mut message, "chain mismatch at ");
        } else if receipt.hash != receipt_hash(
            receipt.sequence,
            &receipt.action,
            &receipt.outcome,
            previous,
        ) {
            push_str(&mut message, "receipt mismatch at ");
        } else {
            previous = receipt.hash;
            index = index + 1;
            continue;
        }
        push_decimal(&mut message, index as u64);
        proof {
            assert(first_replay_error(receipts@, index + 1) == Some(message@));
            lemma_replay_error_settles(receipts@, index + 1, receipts@.len() as int);
        }
        return Err(message);
    }
    Ok(())
}

/// Determinism: two valid logs under the same policy that record the same
/// actions in the same order are the same log, receipt for receipt.
pub proof fn lemma_same_actions_same_log(
    admitted: Set<Capability>,
    a: Seq<Receipt>,
    b: Seq<Receipt>,
)
    requires
        valid_log(admitted, a),
        valid_log(admitted, b),
        a.len() == b.len(),
        forall|i: int| 0 <= i < a.len() ==> #[trigger] a[i].action == b[i].action,
    ensures
        forall|i: int|
            0 <= i < a.len() ==> {
                &&& #[trigger] a[i].sequence == b[i].sequence
                &&& outcome_text(a[i].outcome) == outcome_text(b[i].outcome)
                &&& a[i].previous_hash == b[i].previous_hash
                &&& a[i].hash == b[i].hash
            },
    decreases a.len(),
{
    if a.len() > 0 {
        let n = a.len() - 1;
        let a0 = a.drop_last();
        let b0 = b.drop_last();
        lemma_prefix_replay_error(a0, a, n);
        lemma_prefix_replay_error(b0, b, n);
        assert(first_replay_error(a0, n) == first_replay_error(a, n));
        assert forall|i: int| 0 <= i < a0.len() implies outcome_decides(
            #[trigger] a0[i].outcome,
            admitted.contains(a0[i].action.capability),
        ) by {
            assert(a0[i] == a[i]);
        }
        assert forall|i: int| 0 <= i < b0.len() implies outcome_decides(
            #[trigger] b0[i].outcome,
            admitted.contains(b0[i].action.capability),
        ) by {
            assert(b0[i] == b[i]);
        }
        assert forall|i: int| 0 <= i < a0.len() implies #[trigger] a0[i].action == b0[i].action by {
            assert(a0[i] == a[i] && b0[i] == b[i]);
        }
        lemma_same_actions_same_log(admitted, a0, b0);
        lemma_no_replay_error(a, a.len() as int, n);
        lemma_no_replay_error(b, b.len() as int, n);
        assert(outcome_decides(a[n].outcome, admitted.contains(a[n].action.capability)));
        assert(outcome_decides(b[n].outcome, admitted.contains(b[n].action.capability)));
        assert(outcome_text(a[n].outcome) == outcome_text(b[n].outcome));
        if n > 0 {
            assert(a0[n - 1] == a[n - 1] && b0[n - 1] == b[n - 1]);
        }
        assert forall|i: int|
            0 <= i < a.len() implies {
                &&& #[trigger] a[i].sequence == b[i].sequence
                &&& outcome_text(a[i].outcome) == outcome_text(b[i].outcome)
                &&& a[i].previous_hash == b[i].previous_hash
                &&& a[i].hash == b[i].hash
            } by {
            if i < n {
                assert(a0[i] == a[i] && b0[i] == b[i]);
            }
        }
    }
}

fn copy_capability(c: &Capability) -> (r: Capability)
    ensures
        r == *c,
{
    match c {
        Capability::Read => Capability::Read,
        Capability::Write => Capability::Write,
        Capability::Execute => Capability::Execute,
        Capability::Network => Capability::Network,
    }
}

fn copy_receipt(r: &Receipt) -> (c: Receipt)
    ensures
        c == *r,
{
    let outcome = match &r.outcome {
        Outcome::Allowed => Outcome::Allowed,
        Outcome::Denied(reason) => Outcome::Denied(*reason),
    };
    Receipt {
        sequence: r.sequence,
        action: Action {
            capability: copy_capability(&r.action.capability),
            resource: r.action.resource.clone(),
            payload_digest: r.action.payload_digest,
        },
        outcome,
        previous_hash: r.previous_hash,
        hash: r.hash,
    }
}

impl Clone for Policy {
    fn clone(&self) -> (r: Policy)
        ensures
            r@ == self@,
    {
        let mut allowed: Vec<Capability> = Vec::new();
        let mut i: usize = 0;
        while i < self.allowed.len()
            invariant
                i <= self.allowed.len(),
                allowed@ == self.allowed@.take(i as int),
            decreases self.allowed.len() - i,
        {
            allowed.push(copy_capability(&self.allowed[i]));
            assert(allowed@ =~= self.allowed@.take(i + 1));
            i = i + 1;
        }
        assert(allowed@ =~= self.allowed@);
        Policy { allowed }
    }
}

impl Clone for Kernel {
    fn clone(&self) -> (r: Kernel)
        ensures
            r.admitted() == self.admitted(),
            r.log() == self.log(),
    {
        proof {
            use_type_invariant(self);
        }
        let mut receipts: Vec<Receipt> = Vec::new();
        let mut i: usize = 0;
        while i < self.receipts.len()
            invariant
                i <= self.receipts.len(),
                receipts@ == self.receipts@.take(i as int),
            decreases self.receipts.len() - i,
        {
            receipts.push(copy_receipt(&self.receipts[i]));
            assert(receipts@ =~= self.receipts@.take(i + 1));
            i = i + 1;
        }
        assert(receipts@ =~= self.receipts@);
        Kernel { policy: self.policy.clone(), receipts }
    }
}

} // verus!
