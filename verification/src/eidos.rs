//! Closed-citation retrieval: every returned citation is a byte span of an
//! admitted document, and the whole packet is bound to a digest of the corpus.
//! If a quote was invented or the corpus changed, validation fails.

use vstd::prelude::*;

use crate::collections::{pair_keys, pairs_map, strictly_sorted, views, TextMap};
use crate::order::{lemma_sort_permutes, sort_by, sort_with};
use crate::text::{fnv1a, fnv1a_hash, push_str, text_eq, text_less, text_lt, utf8};
use crate::tokens::{overlap, shared_count, token_set, tokens};

verus! {

broadcast use vstd::seq_lib::group_to_multiset_ensures;

/// A document of the corpus.
#[derive(Clone, Debug)]
pub struct Document {
    pub id: String,
    pub text: String,
}

/// A quoted byte span of a document, with its retrieval score in thousandths.
#[derive(Clone, Debug, Eq, PartialEq)]
pub struct Citation {
    pub document_id: String,
    pub byte_start: usize,
    pub byte_end: usize,
    pub quote: String,
    pub score_milli: u32,
}

/// The answer to a query: its citations, bound to the corpus digest.
#[derive(Clone, Debug, Eq, PartialEq)]
pub struct ContextPacket {
    pub query: String,
    pub citations: Vec<Citation>,
    pub corpus_digest: u64,
}

/// A local corpus: documents by id, in byte-wise order of their ids.
#[derive(Clone, Debug)]
pub struct Eidos {
    documents: TextMap,
}

/// The score of a text for a query in thousandths: the share of the query's
/// tokens that the text holds, rounded down (an empty query counts as one
/// token).
pub open spec fn score_of(query: Seq<char>, text: Seq<char>) -> u32 {
    milli_share(overlap(query, text), token_set(query).len())
}

/// `shared` out of `total` in thousandths, rounded down (a total of zero
/// counts as one).
pub open spec fn milli_share(shared: nat, total: nat) -> u32 {
    (shared * 1000 / (if total == 0 { 1 } else { total })) as u32
}

/// The citation of a whole document.
pub open spec fn whole_citation(id: String, text: String, score: u32) -> Citation {
    Citation {
        document_id: id,
        byte_start: 0,
        byte_end: utf8(text@).len() as usize,
        quote: text,
        score_milli: score,
    }
}

/// The citations of the documents that share a token with the query, in
/// corpus order.
pub open spec fn candidates(corpus: Seq<(String, String)>, query: Seq<char>) -> Seq<Citation>
    decreases corpus.len(),
{
    if corpus.len() == 0 {
        Seq::empty()
    } else {
        let rest = candidates(corpus.drop_last(), query);
        let (id, text) = corpus.last();
        if overlap(query, text@) > 0 {
            rest.push(whole_citation(id, text, score_of(query, text@)))
        } else {
            rest
        }
    }
}

/// Whether scoring the query against the corpus stays within `u32`: the
/// query's token count does, and so does a thousand times each document's
/// shared token count.
pub open spec fn scores_fit(corpus: Seq<(String, String)>, query: Seq<char>) -> bool {
    &&& token_set(query).len() <= u32::MAX
    &&& forall|j: int|
        0 <= j < corpus.len() ==> overlap(query, #[trigger] corpus[j].1@) * 1000 <= u32::MAX
}

/// A score in thousandths is the share rounded down: it is at most the
/// exact share and within one thousandth of it.
pub proof fn lemma_milli_share_rounds_down(shared: nat, total: nat)
    requires
        shared * 1000 <= u32::MAX,
    ensures
        ({
            let t = if total == 0 { 1 } else { total };
            &&& milli_share(shared, total) * t <= shared * 1000
            &&& shared * 1000 < (milli_share(shared, total) + 1) * t
        }),
{
    let t: nat = if total == 0 { 1 } else { total };
    let q = shared * 1000 / t;
    assert(q * t <= shared * 1000 < (q + 1) * t) by (nonlinear_arith)
        requires
            t > 0,
            q == shared * 1000 / t,
    ;
    assert(q <= shared * 1000) by (nonlinear_arith)
        requires
            t > 0,
            q == shared * 1000 / t,
    ;
}

/// Citations by rank: higher score first, then by document id.
pub open spec fn by_rank() -> spec_fn(Citation, Citation) -> bool {
    |a: Citation, b: Citation|
        a.score_milli > b.score_milli || (a.score_milli == b.score_milli && text_lt(
            a.document_id@,
            b.document_id@,
        ))
}

proof fn lemma_by_rank_strict_weak()
    ensures
        crate::order::strict_weak_order(by_rank()),
{
    let lt = by_rank();
    assert forall|a: Citation| !#[trigger] lt(a, a) by {
        crate::text::lemma_text_lt_irreflexive(a.document_id@);
    }
    assert forall|a: Citation, b: Citation, c: Citation|
        #[trigger] lt(a, b) && #[trigger] lt(b, c) implies lt(a, c) by {
        if a.score_milli == b.score_milli && b.score_milli == c.score_milli {
            crate::text::lemma_text_lt_transitive(a.document_id@, b.document_id@, c.document_id@);
        }
    }
    assert forall|a: Citation, b: Citation, c: Citation|
        #[trigger] lt(a, b) implies lt(a, c) || #[trigger] lt(c, b) by {
        if a.score_milli == b.score_milli && c.score_milli == a.score_milli {
            if c.document_id@ != a.document_id@ {
                crate::text::lemma_text_lt_total(a.document_id@, c.document_id@);
                if text_lt(c.document_id@, a.document_id@) {
                    crate::text::lemma_text_lt_transitive(
                        c.document_id@,
                        a.document_id@,
                        b.document_id@,
                    );
                }
            }
        }
    }
}

/// Retrieved citations come in rank order: scores never rise along the
/// packet, and among equal scores the document ids never fall byte-wise.
pub proof fn lemma_citation_order(citations: Seq<Citation>)
    ensures
        forall|i: int, j: int|
            0 <= i < j < sort_by(citations, by_rank()).len() ==> {
                let a = #[trigger] sort_by(citations, by_rank())[i];
                let b = #[trigger] sort_by(citations, by_rank())[j];
                a.score_milli > b.score_milli || (a.score_milli == b.score_milli && !text_lt(
                    b.document_id@,
                    a.document_id@,
                ))
            },
{
    lemma_by_rank_strict_weak();
    crate::order::lemma_sort_sorted(citations, by_rank());
}

/// The citations a query retrieves: the candidates ranked, at most `limit`.
pub open spec fn retrieved(corpus: Seq<(String, String)>, query: Seq<char>, limit: nat) -> Seq<
    Citation,
> {
    top_citations(candidates(corpus, query), limit)
}

/// Citations stably sorted by rank, at most `limit` of them.
pub open spec fn top_citations(citations: Seq<Citation>, limit: nat) -> Seq<Citation> {
    let ranked = sort_by(citations, by_rank());
    if limit < ranked.len() {
        ranked.take(limit as int)
    } else {
        ranked
    }
}

/// The bytes the corpus digest covers: for each document in order, its id,
/// a zero byte, its text and a `0xff` byte.
pub open spec fn corpus_bytes(corpus: Seq<(String, String)>) -> Seq<u8>
    decreases corpus.len(),
{
    if corpus.len() == 0 {
        Seq::empty()
    } else {
        corpus_bytes(corpus.drop_last()) + utf8(corpus.last().0@) + seq![0u8] + utf8(
            corpus.last().1@,
        ) + seq![0xffu8]
    }
}

/// The digest of the corpus.
pub open spec fn corpus_digest_of(corpus: Seq<(String, String)>) -> u64 {
    fnv1a(corpus_bytes(corpus))
}

/// The bytes `start..end` of `bytes`, when both ends are character
/// boundaries in order (`str::get`).
pub open spec fn span(bytes: Seq<u8>, start: int, end: int) -> Option<Seq<u8>> {
    if start <= end && vstd::utf8::is_char_boundary(bytes, start)
        && vstd::utf8::is_char_boundary(bytes, end) {
        Some(bytes.subrange(start, end))
    } else {
        None
    }
}

/// What is wrong with a citation against a library of documents, if anything.
pub open spec fn citation_error(library: Map<Seq<char>, Seq<char>>, c: Citation) -> Option<
    Seq<char>,
> {
    if !library.contains_key(c.document_id@) {
        Some("missing document "@ + c.document_id@)
    } else {
        match span(utf8(library[c.document_id@]), c.byte_start as int, c.byte_end as int) {
            None => Some("citation boundary is invalid"@),
            Some(b) => if b != utf8(c.quote@) {
                Some("quote mismatch for "@ + c.document_id@)
            } else {
                None
            },
        }
    }
}

/// The error of the first faulty citation among the first `n`.
pub open spec fn first_citation_error(
    library: Map<Seq<char>, Seq<char>>,
    cs: Seq<Citation>,
    n: int,
) -> Option<Seq<char>>
    decreases n,
{
    if n <= 0 {
        None
    } else {
        match first_citation_error(library, cs, n - 1) {
            Some(m) => Some(m),
            None => citation_error(library, cs[n - 1]),
        }
    }
}

/// What is wrong with a packet, if anything: a changed corpus digest, or the
/// first faulty citation.
pub open spec fn packet_error(
    library: Map<Seq<char>, Seq<char>>,
    digest: u64,
    packet: ContextPacket,
) -> Option<Seq<char>> {
    if packet.corpus_digest != digest {
        Some("corpus digest changed"@)
    } else {
        first_citation_error(library, packet.citations@, packet.citations@.len() as int)
    }
}

proof fn lemma_first_citation_error_settles(
    library: Map<Seq<char>, Seq<char>>,
    cs: Seq<Citation>,
    m: int,
    n: int,
)
    requires
        0 <= m <= n,
        first_citation_error(library, cs, m) is Some,
    ensures
        first_citation_error(library, cs, n) == first_citation_error(library, cs, m),
    decreases n - m,
{
    if n > m {
        lemma_first_citation_error_settles(library, cs, m, n - 1);
    }
}

/// `shared` out of `query_count` in thousandths, rounded down; a query
/// without tokens counts as one token.
pub fn score_milli(shared: usize, query_count: usize) -> (r: u32)
    requires
        shared * 1000 <= u32::MAX,
        query_count <= u32::MAX,
    ensures
        r == milli_share(shared as nat, query_count as nat),
{
    let denominator: u32 = if query_count == 0 {
        1
    } else {
        query_count as u32
    };
    (shared as u32) * 1000 / denominator
}

/// Ranks citations: stably by score, highest first, then by document id;
/// at most `limit` of them.
pub fn rank_citations(citations: Vec<Citation>, limit: usize) -> (r: Vec<Citation>)
    ensures
        r@ == top_citations(citations@, limit as nat),
{
    let less = |a: &Citation, b: &Citation| -> (r: bool)
        ensures
            r == (a.score_milli > b.score_milli || (a.score_milli == b.score_milli && text_lt(
                a.document_id@,
                b.document_id@,
            ))),
        {
            a.score_milli > b.score_milli || (a.score_milli == b.score_milli && text_less(
                a.document_id.as_str(),
                b.document_id.as_str(),
            ))
        };
    let mut ranked = sort_with(citations, &less, Ghost(by_rank()));
    ranked.truncate(limit);
    ranked
}

impl Default for Eidos {
    /// An empty corpus.
    fn default() -> (r: Eidos)
        ensures
            r.corpus() == Seq::<(String, String)>::empty(),
    {
        let documents = TextMap::new();
        Eidos { documents }
    }
}

fn append_bytes(v: &mut Vec<u8>, b: &[u8])
    ensures
        final(v)@ == old(v)@ + b@,
{
    let ghost start = v@;
    let mut i: usize = 0;
    while i < b.len()
        invariant
            i <= b.len(),
            v@ == start + b@.take(i as int),
        decreases b.len() - i,
    {
        v.push(b[i]);
        assert(v@ =~= start + b@.take(i + 1));
        i = i + 1;
    }
    assert(b@.take(i as int) =~= b@);
}

impl Eidos {
    /// The documents as (id, text) pairs in byte-wise order of their ids.
    pub closed spec fn corpus(self) -> Seq<(String, String)> {
        self.documents.entry_seq()
    }

    /// The text of each document, by id.
    pub closed spec fn library(self) -> Map<Seq<char>, Seq<char>> {
        self.documents@
    }

    /// Adds a document, replacing any document with the same id.
    pub fn insert(&mut self, document: Document)
        ensures
            final(self).library() == old(self).library().insert(document.id@, document.text@),
            strictly_sorted(pair_keys(final(self).corpus())),
            pairs_map(final(self).corpus()) == final(self).library(),
    {
        self.documents.insert(document.id, document.text);
    }

    /// The digest of the corpus.
    fn corpus_digest(&self) -> (r: u64)
        ensures
            r == corpus_digest_of(self.corpus()),
    {
        let entries = self.documents.entries();
        let mut bytes: Vec<u8> = Vec::new();
        let mut i: usize = 0;
        while i < entries.len()
            invariant
                i <= entries.len(),
                bytes@ == corpus_bytes(entries@.take(i as int)),
            decreases entries.len() - i,
        {
            append_bytes(&mut bytes, entries[i].0.as_str().as_bytes());
            bytes.push(0u8);
            append_bytes(&mut bytes, entries[i].1.as_str().as_bytes());
            bytes.push(0xffu8);
            assert(entries@.take(i + 1).drop_last() =~= entries@.take(i as int));
            assert(bytes@ =~= corpus_bytes(entries@.take(i + 1)));
            i = i + 1;
        }
        assert(entries@.take(i as int) =~= entries@);
        fnv1a_hash(bytes.as_slice())
    }

    /// Retrieves the documents that share a lower-cased alphanumeric token
    /// with the query, each cited whole and scored by the share of query tokens
    /// it holds (in thousandths), ranked by score and then id, at most `limit`.
    pub fn retrieve(&self, query: &str, limit: usize) -> (r: ContextPacket)
        requires
            scores_fit(self.corpus(), query@),
        ensures
            r.query@ == query@,
            r.citations@ == retrieved(self.corpus(), query@, limit as nat),
            r.corpus_digest == corpus_digest_of(self.corpus()),
            strictly_sorted(pair_keys(self.corpus())),
            pairs_map(self.corpus()) == self.library(),
            packet_error(self.library(), corpus_digest_of(self.corpus()), r) is None,
    {
        let query_tokens = tokens(query);
        let query_count = query_tokens.len();
        let entries = self.documents.entries();
        assert forall|j: int| 0 <= j < entries@.len() implies overlap(
            query@,
            #[trigger] entries@[j].1@,
        ) * 1000 <= u32::MAX by {
            assert(entries@[j] == self.corpus()[j]);
        }
        let mut citations: Vec<Citation> = Vec::new();
        let mut i: usize = 0;
        while i < entries.len()
            invariant
                i <= entries.len(),
                query_tokens.contents() == token_set(query@),
                query_count == token_set(query@).len(),
                query_count <= u32::MAX,
                entries@ == self.corpus(),
                forall|j: int|
                    0 <= j < entries@.len() ==> overlap(query@, #[trigger] entries@[j].1@) * 1000
                        <= u32::MAX,
                citations@ == candidates(entries@.take(i as int), query@),
                forall|j: int| 0 <= j < i ==> utf8(#[trigger] entries@[j].1@).len() <= usize::MAX,
            decreases entries.len() - i,
        {
            let (id, text) = (&entries[i].0, &entries[i].1);
            let byte_count = text.as_str().as_bytes().len();
            assert(utf8(entries@[i as int].1@).len() == byte_count);
            let doc_tokens = tokens(text.as_str());
            let shared = shared_count(&query_tokens, &doc_tokens);
            assert(entries@.take(i + 1).drop_last() =~= entries@.take(i as int));
            if shared > 0 {
                assert(overlap(query@, entries@[i as int].1@) * 1000 <= u32::MAX);
                let score_milli = score_milli(shared, query_count);
                citations.push(
                    Citation {
                        document_id: id.clone(),
                        byte_start: 0,
                        byte_end: text.as_str().len(),
                        quote: text.clone(),
                        score_milli,
                    },
                );
                assert(citations@ =~= candidates(entries@.take(i + 1), query@));
            }
            i = i + 1;
        }
        assert(entries@.take(i as int) =~= entries@);
        let ranked = rank_citations(citations, limit);
        let mut q = String::new();
        push_str(&mut q, query);
        let packet = ContextPacket { query: q, citations: ranked, corpus_digest: self.corpus_digest() };
        proof {
            lemma_retrieval_is_closed(self.corpus(), query@, limit as nat, packet);
        }
        packet
    }

    /// Retrieves as `retrieve` does when the scores fit in `u32`, and
    /// returns `None` otherwise.
    pub fn try_retrieve(&self, query: &str, limit: usize) -> (r: Option<ContextPacket>)
        ensures
            r is Some <==> scores_fit(self.corpus(), query@),
            r matches Some(p) ==> {
                &&& p.query@ == query@
                &&& p.citations@ == retrieved(self.corpus(), query@, limit as nat)
                &&& p.corpus_digest == corpus_digest_of(self.corpus())
                &&& packet_error(self.library(), corpus_digest_of(self.corpus()), p) is None
            },
    {
        let query_tokens = tokens(query);
        if query_tokens.len() > 4294967295usize {
            return None;
        }
        let entries = self.documents.entries();
        let mut i: usize = 0;
        while i < entries.len()
            invariant
                i <= entries.len(),
                entries@ == self.corpus(),
                query_tokens.contents() == token_set(query@),
                forall|j: int|
                    0 <= j < i ==> overlap(query@, #[trigger] entries@[j].1@) * 1000 <= u32::MAX,
            decreases entries.len() - i,
        {
            let doc_tokens = tokens(entries[i].1.as_str());
            let shared = shared_count(&query_tokens, &doc_tokens);
            if shared > 4294967 {
                assert(!scores_fit(self.corpus(), query@)) by {
                    assert(overlap(query@, self.corpus()[i as int].1@) * 1000 > u32::MAX);
                }
                return None;
            }
            i = i + 1;
        }
        assert(scores_fit(self.corpus(), query@)) by {
            assert forall|j: int| 0 <= j < self.corpus().len() implies overlap(
                query@,
                #[trigger] self.corpus()[j].1@,
            ) * 1000 <= u32::MAX by {
                assert(self.corpus()[j] == entries@[j]);
            }
        }
        Some(self.retrieve(query, limit))
    }

    /// Checks a packet against the corpus: the corpus digest must be
    /// unchanged, and every citation must name a document, span character
    /// boundaries of its text in order, and quote exactly that span. The first
    /// failure is reported.
    pub fn validate(&self, packet: &ContextPacket) -> (r: Result<(), String>)
        ensures
            match r {
                Ok(()) => packet_error(self.library(), corpus_digest_of(self.corpus()), *packet) is None,
                Err(m) => packet_error(self.library(), corpus_digest_of(self.corpus()), *packet)
                    == Some(m@),
            },
    {
        if packet.corpus_digest != self.corpus_digest() {
            let mut m = String::new();
            push_str(&mut m, "corpus digest changed");
            return Err(m);
        }
        let ghost library = self.library();
        let mut i: usize = 0;
        while i < packet.citations.len()
            invariant
                i <= packet.citations.len(),
                library == self.library(),
                packet.corpus_digest == corpus_digest_of(self.corpus()),
                first_citation_error(library, packet.citations@, i as int) is None,
            decreases packet.citations.len() - i,
        {
            let citation = &packet.citations[i];
            let mut m = String::new();
            match self.documents.get(citation.document_id.as_str()) {
                None => {
                    push_str(&mut m, "missing document ");
                    push_str(&mut m, citation.document_id.as_str());
                },
                Some(text) => {
                    let bytes = text.as_str().as_bytes();
                    let start = citation.byte_start;
                    let end = citation.byte_end;
                    if !(start <= end && text.as_str().is_char_boundary(start)
                        && text.as_str().is_char_boundary(end)) {
                        push_str(&mut m, "citation boundary is invalid");
                    } else {
                        proof {
                            vstd::utf8::encode_utf8_valid_utf8(text@);
                            vstd::utf8::is_char_boundary_start_end_of_seq(bytes@);
                            if end > bytes@.len() {
                                assert(!vstd::utf8::is_char_boundary(bytes@, end as int));
                            }
                        }
                        let quote = citation.quote.as_str().as_bytes();
                        let mut same = quote.len() == end - start;
                        let mut k: usize = 0;
                        while same && k < quote.len()
                            invariant
                                start <= end <= bytes.len(),
                                same ==> quote.len() == end - start,
                                k <= quote.len(),
                                same ==> bytes@.subrange(start as int, start + k) == quote@.take(k as int),
                                !same ==> bytes@.subrange(start as int, end as int) != quote@,
                            decreases (if same { quote.len() - k + 1 } else { 0 }),
                        {
                            if bytes[start + k] != quote[k] {
                                assert(bytes@.subrange(start as int, end as int)[k as int] != quote@[k as int]);
                                same = false;
                            } else {
                                assert(bytes@.subrange(start as int, start + k + 1) =~= bytes@.subrange(start as int, start + k).push(quote@[k as int]));
                                assert(quote@.take(k + 1) =~= quote@.take(k as int).push(quote@[k as int]));
                                k = k + 1;
                            }
                        }
                        if same {
                            assert(quote@.take(k as int) =~= quote@);
                            assert(first_citation_error(library, packet.citations@, i + 1) is None);
                            i = i + 1;
                            continue;
                        }
                        push_str(&mut m, "quote mismatch for ");
                        push_str(&mut m, citation.document_id.as_str());
                    }
                },
            }
            proof {
                assert(first_citation_error(library, packet.citations@, i + 1) == Some(m@));
                lemma_first_citation_error_settles(library, packet.citations@, i + 1, packet.citations@.len() as int);
            }
            return Err(m);
        }
        Ok(())
    }
}

/// Every candidate citation cites a whole document of the corpus.
proof fn lemma_candidate_origin(corpus: Seq<(String, String)>, query: Seq<char>, k: int)
    requires
        0 <= k < candidates(corpus, query).len(),
    ensures
        exists|j: int|
            0 <= j < corpus.len() && candidates(corpus, query)[k] == whole_citation(
                #[trigger] corpus[j].0,
                corpus[j].1,
                score_of(query, corpus[j].1@),
            ),
    decreases corpus.len(),
{
    let init = corpus.drop_last();
    let rest = candidates(init, query);
    if k < rest.len() {
        lemma_candidate_origin(init, query, k);
        let j = choose|j: int|
            0 <= j < init.len() && rest[k] == whole_citation(
                #[trigger] init[j].0,
                init[j].1,
                score_of(query, init[j].1@),
            );
        assert(init[j] == corpus[j]);
    } else {
        let j = corpus.len() - 1;
        assert(corpus[j] == corpus.last());
    }
}

/// A citation of a whole document of a key-sorted corpus is valid against it.
proof fn lemma_whole_citation_valid(corpus: Seq<(String, String)>, j: int, score: u32)
    requires
        strictly_sorted(pair_keys(corpus)),
        0 <= j < corpus.len(),
        utf8(corpus[j].1@).len() <= usize::MAX,
    ensures
        citation_error(pairs_map(corpus), whole_citation(corpus[j].0, corpus[j].1, score)) is None,
{
    crate::collections::lemma_pairs_map_at(corpus, j);
    let b = utf8(corpus[j].1@);
    vstd::utf8::encode_utf8_valid_utf8(corpus[j].1@);
    vstd::utf8::is_char_boundary_start_end_of_seq(b);
    assert(b.subrange(0, b.len() as int) =~= b);
}

proof fn lemma_all_valid(library: Map<Seq<char>, Seq<char>>, cs: Seq<Citation>, n: int)
    requires
        0 <= n <= cs.len(),
        forall|k: int| 0 <= k < cs.len() ==> citation_error(library, #[trigger] cs[k]) is None,
    ensures
        first_citation_error(library, cs, n) is None,
    decreases n,
{
    if n > 0 {
        lemma_all_valid(library, cs, n - 1);
    }
}

/// Closed citation: every citation a query retrieves from a corpus is valid
/// against that corpus, so a packet of them carrying the corpus digest
/// validates.
pub proof fn lemma_retrieval_is_closed(
    corpus: Seq<(String, String)>,
    query: Seq<char>,
    limit: nat,
    packet: ContextPacket,
)
    requires
        strictly_sorted(pair_keys(corpus)),
        forall|j: int| 0 <= j < corpus.len() ==> utf8(#[trigger] corpus[j].1@).len() <= usize::MAX,
        packet.citations@ == retrieved(corpus, query, limit),
        packet.corpus_digest == corpus_digest_of(corpus),
    ensures
        packet_error(pairs_map(corpus), corpus_digest_of(corpus), packet) is None,
{
    let cands = candidates(corpus, query);
    let ranked = sort_by(cands, by_rank());
    let cs = packet.citations@;
    lemma_sort_permutes(cands, by_rank());
    assert forall|k: int| 0 <= k < cs.len() implies citation_error(pairs_map(corpus), #[trigger] cs[k]) is None by {
        assert(cs[k] == ranked[k]);
        assert(ranked.to_multiset().count(ranked[k]) > 0);
        assert(cands.contains(ranked[k]));
        let m = choose|m: int| 0 <= m < cands.len() && cands[m] == ranked[k];
        lemma_candidate_origin(corpus, query, m);
        let j = choose|j: int|
            0 <= j < corpus.len() && cands[m] == whole_citation(
                #[trigger] corpus[j].0,
                corpus[j].1,
                score_of(query, corpus[j].1@),
            );
        lemma_whole_citation_valid(corpus, j, score_of(query, corpus[j].1@));
    }
    lemma_all_valid(pairs_map(corpus), cs, cs.len() as int);
}

} // verus!
