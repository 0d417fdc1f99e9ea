//! Scoped admission: a request is admitted only when its action is in scope,
//! its resource lies under an admitted root, its risk is within the ceiling,
//! and it cites evidence. Every answer is bound to FNV-1a digests of a
//! canonical rendering of the request and of the verdict.

use vstd::prelude::*;

use crate::collections::{views, TextSet};
use crate::order::{
    lemma_sort_canonical, lemma_sort_map, lemma_sort_permutes, lemma_text_order_total, sort_by,
    sort_with, text_order,
};
use crate::text::{
    chars_of, fnv1a, fnv1a_hash, hex_fixed, push_char, push_hex_fixed, push_str, text_eq,
    text_less, text_lt, utf8,
};

verus! {

broadcast use vstd::seq_lib::group_to_multiset_ensures;

/// How much harm a request can do, from least to most.
#[derive(Clone, Copy, Debug, Eq, Ord, PartialEq, PartialOrd, Structural)]
pub enum Risk {
    Low,
    Medium,
    High,
    Critical,
}

impl Risk {
    /// The position of the risk in the order `Low < Medium < High < Critical`.
    pub open spec fn level(self) -> nat {
        match self {
            Risk::Low => 0,
            Risk::Medium => 1,
            Risk::High => 2,
            Risk::Critical => 3,
        }
    }

    /// The name of the risk.
    pub open spec fn name(self) -> Seq<char> {
        match self {
            Risk::Low => "Low"@,
            Risk::Medium => "Medium"@,
            Risk::High => "High"@,
            Risk::Critical => "Critical"@,
        }
    }

    fn rank(self) -> (r: u8)
        ensures
            r == self.level(),
    {
        match self {
            Risk::Low => 0,
            Risk::Medium => 1,
            Risk::High => 2,
            Risk::Critical => 3,
        }
    }

    fn name_str(self) -> (r: &'static str)
        ensures
            r@ == self.name(),
    {
        match self {
            Risk::Low => "Low",
            Risk::Medium => "Medium",
            Risk::High => "High",
            Risk::Critical => "Critical",
        }
    }
}

/// What a scope admits.
#[derive(Clone, Debug)]
pub struct ScopeManifest {
    pub scope_id: String,
    pub allowed_actions: TextSet,
    pub allowed_roots: Vec<String>,
    pub maximum_risk: Risk,
}

/// A request for admission.
#[derive(Clone, Debug)]
pub struct Request {
    pub action: String,
    pub resource: String,
    pub risk: Risk,
    pub evidence_ids: Vec<String>,
}

/// The answer to a request: admitted, or denied with its reasons in order.
#[derive(Clone, Debug, Eq, PartialEq)]
pub enum Verdict {
    Admit,
    Deny(Vec<&'static str>),
}

/// A verdict bound to digests of the request and of the answer.
#[derive(Clone, Debug, Eq, PartialEq)]
pub struct AdmissionProof {
    pub scope_id: String,
    pub request_digest: u64,
    pub verdict: Verdict,
    pub receipt_id: u64,
}

/// The reason given when the action is not in scope.
pub open spec fn action_reason() -> Seq<char> {
    "action is outside scope"@
}

/// The reason given when no admitted root holds the resource.
pub open spec fn resource_reason() -> Seq<char> {
    "resource is outside scope"@
}

/// The reason given when the risk exceeds the ceiling.
pub open spec fn risk_reason() -> Seq<char> {
    "risk exceeds the admitted ceiling"@
}

/// The reason given when the request cites no evidence.
pub open spec fn evidence_reason() -> Seq<char> {
    "request has no evidence reference"@
}

/// `s` without its trailing `/` characters.
pub open spec fn without_trailing_slashes(s: Seq<char>) -> Seq<char>
    decreases s.len(),
{
    if s.len() > 0 && s.last() == '/' {
        without_trailing_slashes(s.drop_last())
    } else {
        s
    }
}

/// Whether `resource` is the root itself or lies below it: the root without
/// trailing slashes, followed by `/`.
pub open spec fn under_root(root: Seq<char>, resource: Seq<char>) -> bool {
    let r = without_trailing_slashes(root);
    resource == r || (r.len() < resource.len() && resource.take(r.len() as int) == r
        && resource[r.len() as int] == '/')
}

/// Whether some admitted root holds the resource.
pub open spec fn in_some_root(roots: Seq<String>, resource: Seq<char>) -> bool {
    exists|i: int| 0 <= i < roots.len() && under_root(#[trigger] roots[i]@, resource)
}

/// The reasons to deny a request, in order; none means admit.
pub open spec fn denial_reasons(manifest: ScopeManifest, request: Request) -> Seq<Seq<char>> {
    let a: Seq<Seq<char>> = if manifest.allowed_actions.contents().contains(request.action@) {
        seq![]
    } else {
        seq![action_reason()]
    };
    let b: Seq<Seq<char>> = if in_some_root(manifest.allowed_roots@, request.resource@) {
        seq![]
    } else {
        seq![resource_reason()]
    };
    let c: Seq<Seq<char>> = if request.risk.level() > manifest.maximum_risk.level() {
        seq![risk_reason()]
    } else {
        seq![]
    };
    let d: Seq<Seq<char>> = if request.evidence_ids.len() == 0 {
        seq![evidence_reason()]
    } else {
        seq![]
    };
    a + b + c + d
}

/// The texts of a list of reasons.
pub open spec fn reason_texts(reasons: Seq<&'static str>) -> Seq<Seq<char>> {
    reasons.map_values(|r: &'static str| r@)
}

/// Whether a verdict gives exactly these reasons (none meaning admit).
pub open spec fn verdict_gives(verdict: Verdict, reasons: Seq<Seq<char>>) -> bool {
    match verdict {
        Verdict::Admit => reasons.len() == 0,
        Verdict::Deny(rs) => reasons.len() > 0 && reason_texts(rs@) == reasons,
    }
}

/// The items of `list` joined by `sep`.
pub open spec fn join(list: Seq<Seq<char>>, sep: Seq<char>) -> Seq<char>
    decreases list.len(),
{
    if list.len() == 0 {
        Seq::empty()
    } else if list.len() == 1 {
        list[0]
    } else {
        join(list.drop_last(), sep) + sep + list.last()
    }
}

/// The evidence ids of a request in byte-wise order.
pub open spec fn sorted_evidence(request: Request) -> Seq<Seq<char>> {
    sort_by(views(request.evidence_ids@), text_order())
}

/// The canonical rendering of a request: version, action, resource, risk and
/// the sorted evidence ids joined by commas.
pub open spec fn request_text(request: Request) -> Seq<char> {
    "v1|"@ + request.action@ + "|"@ + request.resource@ + "|"@ + request.risk.name() + "|"@ + join(
        sorted_evidence(request),
        ","@,
    )
}

/// The digest of a request.
pub open spec fn request_digest_of(request: Request) -> u64 {
    fnv1a(utf8(request_text(request)))
}

/// A reason in quotes.
pub open spec fn quoted(r: Seq<char>) -> Seq<char> {
    "\""@ + r + "\""@
}

/// The rendering of a verdict with these reasons: `Admit`, or `Deny([..])`
/// with the quoted reasons separated by `, `.
pub open spec fn verdict_text(reasons: Seq<Seq<char>>) -> Seq<char> {
    if reasons.len() == 0 {
        "Admit"@
    } else {
        "Deny(["@ + join(reasons.map_values(|r: Seq<char>| quoted(r)), ", "@) + "])"@
    }
}

/// The rendering that a receipt id commits to.
pub open spec fn receipt_text(scope_id: Seq<char>, request_digest: u64, reasons: Seq<Seq<char>>) -> Seq<
    char,
> {
    "v1|"@ + scope_id + "|"@ + hex_fixed(request_digest as nat, 16) + "|"@ + verdict_text(reasons)
}

/// Whether `proof` is the admission proof that `manifest` gives `request`.
pub open spec fn proof_for(proof: AdmissionProof, manifest: ScopeManifest, request: Request) -> bool {
    let reasons = denial_reasons(manifest, request);
    let digest = request_digest_of(request);
    &&& proof.scope_id@ == manifest.scope_id@
    &&& proof.request_digest == digest
    &&& verdict_gives(proof.verdict, reasons)
    &&& proof.receipt_id == fnv1a(utf8(receipt_text(manifest.scope_id@, digest, reasons)))
}

/// Whether two admission proofs say the same thing.
pub open spec fn same_proof(a: AdmissionProof, b: AdmissionProof) -> bool {
    &&& a.scope_id@ == b.scope_id@
    &&& a.request_digest == b.request_digest
    &&& match (a.verdict, b.verdict) {
        (Verdict::Admit, Verdict::Admit) => true,
        (Verdict::Deny(x), Verdict::Deny(y)) => reason_texts(x@) == reason_texts(y@),
        _ => false,
    }
    &&& a.receipt_id == b.receipt_id
}

/// Whether `resource` lies under `root`.
fn contained(root: &str, resource: &str) -> (r: bool)
    ensures
        r == under_root(root@, resource@),
{
    let rc = chars_of(root);
    let mut n: usize = rc.len();
    assert(rc@.take(rc@.len() as int) =~= rc@);
    while n > 0 && rc[n - 1] == '/'
        invariant
            n <= rc.len(),
            rc@ == root@,
            without_trailing_slashes(root@) == without_trailing_slashes(rc@.take(n as int)),
        decreases n,
    {
        assert(rc@.take(n as int).drop_last() =~= rc@.take(n - 1));
        n = n - 1;
    }
    let ghost stripped = rc@.take(n as int);
    assert(without_trailing_slashes(root@) == stripped);
    let res = chars_of(resource);
    if res.len() < n {
        return false;
    }
    let mut i: usize = 0;
    while i < n
        invariant
            i <= n <= res.len(),
            n <= rc.len(),
            stripped == rc@.take(n as int),
            without_trailing_slashes(root@) == stripped,
            res@ == resource@,
            forall|k: int| 0 <= k < i ==> res@[k] == rc@[k],
        decreases n - i,
    {
        if res[i] != rc[i] {
            assert(res@.take(n as int)[i as int] != stripped[i as int]);
            assert(res@ != stripped);
            return false;
        }
        i = i + 1;
    }
    assert(res@.take(n as int) =~= stripped);
    if res.len() == n {
        assert(res@ =~= stripped);
        true
    } else {
        res[n] == '/'
    }
}

/// Appends the items of `list` joined by `sep`.
fn push_joined(out: &mut String, list: &Vec<String>, sep: &str)
    ensures
        final(out)@ == old(out)@ + join(views(list@), sep@),
{
    let ghost start = out@;
    let mut i: usize = 0;
    assert(views(list@).take(0) =~= Seq::<Seq<char>>::empty());
    while i < list.len()
        invariant
            i <= list.len(),
            out@ == start + join(views(list@).take(i as int), sep@),
        decreases list.len() - i,
    {
        if i > 0 {
            push_str(out, sep);
        }
        push_str(out, list[i].as_str());
        let ghost vs = views(list@);
        assert(vs.take(i + 1).drop_last() =~= vs.take(i as int));
        assert(out@ =~= start + join(vs.take(i + 1), sep@));
        i = i + 1;
    }
    assert(views(list@).take(i as int) =~= views(list@));
}

/// The canonical rendering of a request.
fn canonical_request(request: &Request) -> (r: String)
    ensures
        r@ == request_text(*request),
{
    let mut evidence: Vec<String> = Vec::new();
    let mut i: usize = 0;
    while i < request.evidence_ids.len()
        invariant
            i <= request.evidence_ids.len(),
            evidence@ == request.evidence_ids@.take(i as int),
        decreases request.evidence_ids.len() - i,
    {
        evidence.push(request.evidence_ids[i].clone());
        assert(evidence@ =~= request.evidence_ids@.take(i + 1));
        i = i + 1;
    }
    assert(evidence@ =~= request.evidence_ids@);
    let less = |a: &String, b: &String| -> (r: bool)
        ensures
            r == text_lt(a@, b@),
        { text_less(a.as_str(), b.as_str()) };
    let ghost by_text = |a: String, b: String| text_lt(a@, b@);
    let sorted = sort_with(evidence, &less, Ghost(by_text));
    proof {
        lemma_sort_map(request.evidence_ids@, |x: String| x@, by_text, text_order());
        assert(views(sorted@) == sorted_evidence(*request));
    }
    let mut out = String::new();
    push_str(&mut out, "v1|");
    push_str(&mut out, request.action.as_str());
    push_str(&mut out, "|");
    push_str(&mut out, request.resource.as_str());
    push_str(&mut out, "|");
    push_str(&mut out, request.risk.name_str());
    push_str(&mut out, "|");
    push_joined(&mut out, &sorted, ",");
    assert(out@ =~= request_text(*request));
    out
}

/// The rendering of a verdict.
fn push_verdict(out: &mut String, verdict: &Verdict)
    requires
        match verdict {
            Verdict::Admit => true,
            Verdict::Deny(rs) => rs.len() > 0,
        },
    ensures
        final(out)@ == old(out)@ + verdict_text(
            match verdict {
                Verdict::Admit => Seq::empty(),
                Verdict::Deny(rs) => reason_texts(rs@),
            },
        ),
{
    match verdict {
        Verdict::Admit => {
            push_str(out, "Admit");
        },
        Verdict::Deny(reasons) => {
            let ghost start = out@;
            let ghost texts = reason_texts(reasons@);
            let ghost q = texts.map_values(|r: Seq<char>| quoted(r));
            push_str(out, "Deny([");
            let ghost head = out@;
            let mut i: usize = 0;
            assert(q.take(0) =~= Seq::<Seq<char>>::empty());
            while i < reasons.len()
                invariant
                    i <= reasons.len() == q.len(),
                    texts == reason_texts(reasons@),
                    q == texts.map_values(|r: Seq<char>| quoted(r)),
                    out@ == head + join(q.take(i as int), ", "@),
                decreases reasons.len() - i,
            {
                proof {
                    reveal_strlit("\"");
                }
                let ghost before = out@;
                if i > 0 {
                    push_str(out, ", ");
                }
                let ghost mid = out@;
                push_char(out, '"');
                push_str(out, reasons[i]);
                push_char(out, '"');
                assert(q[i as int] == quoted(texts[i as int]));
                assert(texts[i as int] == reasons@[i as int]@);
                assert(out@ =~= mid + quoted(texts[i as int]));
                assert(q.take(i + 1).drop_last() =~= q.take(i as int));
                assert(q.take(i + 1).last() == q[i as int]);
                if i > 0 {
                    assert(join(q.take(i + 1), ", "@) == join(q.take(i as int), ", "@) + ", "@ + q[i as int]);
                } else {
                    assert(join(q.take(i + 1), ", "@) == q[0]);
                    assert(join(q.take(0), ", "@) =~= Seq::<char>::empty());
                }
                assert(out@ =~= head + join(q.take(i + 1), ", "@));
                i = i + 1;
            }
            assert(q.take(i as int) =~= q);
            push_str(out, "])");
            assert(out@ =~= start + verdict_text(texts));
        },
    }
}

impl ScopeManifest {
    /// Decides a request: the reasons to deny it, in a fixed order, or none;
    /// a digest of the request's canonical rendering (its evidence ids
    /// sorted); and a receipt id over the scope, that digest and the verdict.
    pub fn admit_request(&self, request: &Request) -> (r: AdmissionProof)
        ensures
            proof_for(r, *self, *request),
    {
        let ghost reasons_spec = denial_reasons(*self, *request);
        let mut reasons: Vec<&'static str> = Vec::new();
        if !self.allowed_actions.contains(request.action.as_str()) {
            reasons.push("action is outside scope");
        }
        let mut found = false;
        let mut i: usize = 0;
        while i < self.allowed_roots.len()
            invariant
                i <= self.allowed_roots.len(),
                found == exists|k: int| 0 <= k < i && under_root(#[trigger] self.allowed_roots@[k]@, request.resource@),
            decreases self.allowed_roots.len() - i,
        {
            if contained(self.allowed_roots[i].as_str(), request.resource.as_str()) {
                found = true;
            }
            i = i + 1;
        }
        if !found {
            reasons.push("resource is outside scope");
        }
        if request.risk.rank() > self.maximum_risk.rank() {
            reasons.push("risk exceeds the admitted ceiling");
        }
        if request.evidence_ids.len() == 0 {
            reasons.push("request has no evidence reference");
        }
        assert(reason_texts(reasons@) =~= reasons_spec);
        let canonical = canonical_request(request);
        let request_digest = fnv1a_hash(canonical.as_str().as_bytes());
        let verdict = if reasons.len() == 0 {
            Verdict::Admit
        } else {
            Verdict::Deny(reasons)
        };
        let mut text = String::new();
        push_str(&mut text, "v1|");
        push_str(&mut text, self.scope_id.as_str());
        push_str(&mut text, "|");
        push_hex_fixed(&mut text, request_digest, 16);
        push_str(&mut text, "|");
        push_verdict(&mut text, &verdict);
        assert(text@ =~= receipt_text(self.scope_id@, request_digest, reasons_spec));
        let receipt_id = fnv1a_hash(text.as_str().as_bytes());
        AdmissionProof { scope_id: self.scope_id.clone(), request_digest, verdict, receipt_id }
    }
}

fn same_reasons(a: &Vec<&'static str>, b: &Vec<&'static str>) -> (r: bool)
    ensures
        r == (reason_texts(a@) == reason_texts(b@)),
{
    if a.len() != b.len() {
        assert(reason_texts(a@).len() != reason_texts(b@).len());
        return false;
    }
    let mut i: usize = 0;
    while i < a.len()
        invariant
            i <= a.len() == b.len(),
            forall|k: int| 0 <= k < i ==> a@[k]@ == b@[k]@,
        decreases a.len() - i,
    {
        if !text_eq(a[i], b[i]) {
            assert(reason_texts(a@)[i as int] != reason_texts(b@)[i as int]);
            return false;
        }
        i = i + 1;
    }
    assert(reason_texts(a@) =~= reason_texts(b@));
    true
}

/// Whether `proof` is exactly the proof that `manifest` gives `request`.
pub fn verify(manifest: &ScopeManifest, request: &Request, proof: &AdmissionProof) -> (r: bool)
    ensures
        r == proof_for(*proof, *manifest, *request),
{
    let expected = manifest.admit_request(request);
    let verdicts_agree = match (&expected.verdict, &proof.verdict) {
        (Verdict::Admit, Verdict::Admit) => true,
        (Verdict::Deny(x), Verdict::Deny(y)) => same_reasons(x, y),
        _ => false,
    };
    text_eq(expected.scope_id.as_str(), proof.scope_id.as_str())
        && expected.request_digest == proof.request_digest && verdicts_agree
        && expected.receipt_id == proof.receipt_id
}

/// No prefix confusion: for a root that does not end in `/`, the root
/// followed by `rest` lies under the root exactly when `rest` is empty or
/// starts with `/` (so `vault-escape/a` is not under `vault`).
pub proof fn lemma_under_root_needs_separator(root: Seq<char>, rest: Seq<char>)
    requires
        root.len() == 0 || root.last() != '/',
    ensures
        under_root(root, root + rest) == (rest.len() == 0 || rest[0] == '/'),
{
    let resource = root + rest;
    assert(without_trailing_slashes(root) == root);
    assert(resource.take(root.len() as int) =~= root);
    if rest.len() > 0 {
        assert(resource[root.len() as int] == rest[0]);
        assert(resource != root) by {
            assert(resource.len() != root.len());
        }
    } else {
        assert(resource =~= root);
    }
}

/// A resource lies under a root only if it starts with the root (without its
/// trailing slashes).
pub proof fn lemma_under_root_prefix(root: Seq<char>, resource: Seq<char>)
    requires
        under_root(root, resource),
    ensures
        resource.take(without_trailing_slashes(root).len() as int) == without_trailing_slashes(root),
{
    let r = without_trailing_slashes(root);
    if resource == r {
        assert(resource.take(r.len() as int) =~= r);
    }
}

/// Whether risk `a` comes after risk `b` in the order
/// `Low < Medium < High < Critical`.
pub open spec fn risk_exceeds(a: Risk, b: Risk) -> bool {
    match (a, b) {
        (Risk::Medium, Risk::Low) => true,
        (Risk::High, Risk::Low) | (Risk::High, Risk::Medium) => true,
        (Risk::Critical, Risk::Low) | (Risk::Critical, Risk::Medium) | (Risk::Critical, Risk::High) => true,
        _ => false,
    }
}

/// Risk levels rise strictly in the order `Low < Medium < High < Critical`,
/// so one level exceeds another exactly when its risk comes later.
pub proof fn lemma_risk_levels_increase(a: Risk, b: Risk)
    ensures
        Risk::Low.level() < Risk::Medium.level(),
        Risk::Medium.level() < Risk::High.level(),
        Risk::High.level() < Risk::Critical.level(),
        (a.level() > b.level()) == risk_exceeds(a, b),
{
}

/// A request is refused for its risk exactly when its risk comes after the
/// manifest's ceiling (a `Critical` request under a `High` ceiling is
/// refused, a `High` one is not).
pub proof fn lemma_risk_ceiling(manifest: ScopeManifest, request: Request)
    ensures
        denial_reasons(manifest, request).contains(risk_reason()) == risk_exceeds(
            request.risk,
            manifest.maximum_risk,
        ),
{
    reveal_strlit("risk exceeds the admitted ceiling");
    reveal_strlit("action is outside scope");
    reveal_strlit("resource is outside scope");
    reveal_strlit("request has no evidence reference");
    assert(risk_reason()[0] != action_reason()[0]);
    assert(risk_reason()[1] != resource_reason()[1]);
    assert(risk_reason()[2] != evidence_reason()[2]);
    let d = denial_reasons(manifest, request);
    if risk_exceeds(request.risk, manifest.maximum_risk) {
        let a: Seq<Seq<char>> = if manifest.allowed_actions.contents().contains(request.action@) {
            seq![]
        } else {
            seq![action_reason()]
        };
        let b: Seq<Seq<char>> = if in_some_root(manifest.allowed_roots@, request.resource@) {
            seq![]
        } else {
            seq![resource_reason()]
        };
        assert(d[(a.len() + b.len()) as int] == risk_reason());
    } else {
        assert forall|i: int| 0 <= i < d.len() implies d[i] != risk_reason() by {
            if d[i] == risk_reason() {
                assert(d[i][0] == risk_reason()[0]);
                assert(d[i][1] == risk_reason()[1]);
                assert(d[i][2] == risk_reason()[2]);
            }
        }
    }
}

/// A manifest admits a request exactly when the action is in scope, some root
/// holds the resource, the risk is within the ceiling and evidence is cited.
pub proof fn lemma_admits_exactly_when(manifest: ScopeManifest, request: Request)
    ensures
        (denial_reasons(manifest, request).len() == 0) == (manifest.allowed_actions.contents().contains(
            request.action@,
        ) && in_some_root(manifest.allowed_roots@, request.resource@)
            && request.risk.level() <= manifest.maximum_risk.level() && request.evidence_ids.len()
            > 0),
{
}

/// The same manifest and request always give the same proof.
pub proof fn lemma_admission_deterministic(
    a: AdmissionProof,
    b: AdmissionProof,
    manifest: ScopeManifest,
    request: Request,
)
    requires
        proof_for(a, manifest, request),
        proof_for(b, manifest, request),
    ensures
        same_proof(a, b),
{
}

/// The order of the evidence ids does not matter: requests that differ only
/// in that order get the same digests and verdict.
pub proof fn lemma_admission_ignores_evidence_order(
    manifest: ScopeManifest,
    r1: Request,
    r2: Request,
)
    requires
        r1.action@ == r2.action@,
        r1.resource@ == r2.resource@,
        r1.risk == r2.risk,
        views(r1.evidence_ids@).to_multiset() == views(r2.evidence_ids@).to_multiset(),
    ensures
        request_digest_of(r1) == request_digest_of(r2),
        denial_reasons(manifest, r1) == denial_reasons(manifest, r2),
{
    let v1 = views(r1.evidence_ids@);
    let v2 = views(r2.evidence_ids@);
    lemma_text_order_total(v1);
    lemma_sort_canonical(v1, v2, text_order());
    assert(request_text(r1) == request_text(r2));
    assert(v1.len() == v1.to_multiset().len());
    assert(v2.len() == v2.to_multiset().len());
    assert(r1.evidence_ids.len() == r2.evidence_ids.len());
}

} // verus!
