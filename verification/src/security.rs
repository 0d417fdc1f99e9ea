//! Authorized, read-only source analysis with evidence-backed findings.
//!
//! Analysis runs only under a written authorization flag and only over files
//! the engagement names. Each finding carries a redacted excerpt of its line
//! and an FNV-1a digest of path, line number and excerpt, so that it can be
//! checked again against the file.

use vstd::prelude::*;

use crate::order::{lemma_sort_map, sort_by, sort_with};
use crate::text::{
    chars_of, contains_char, contains_str, contains_text, decimal, fnv1a, fnv1a_hash, lowercase,
    push_decimal, push_str, string_from_chars, text_eq, text_less, text_lt, to_lowercase, trim,
    trimmed, utf8,
};

verus! {

broadcast use vstd::seq_lib::group_to_multiset_ensures;

/// The engagement: its id, whether it is authorized, and the files it covers.
#[derive(Clone, Debug)]
pub struct Scope {
    pub engagement_id: String,
    pub authorized: bool,
    pub allowed_files: Vec<String>,
}

/// A source file to analyze.
#[derive(Clone, Debug)]
pub struct SourceFile {
    pub path: String,
    pub text: String,
}

/// The kinds of finding.
#[derive(Clone, Copy, Debug, Eq, PartialEq, Structural)]
pub enum FindingKind {
    EmbeddedCredential,
    SqlStringConstruction,
    InsecureRandomToken,
}

/// Where a finding was seen: file, line number (from 1), redacted excerpt,
/// and a digest over the three.
#[derive(Clone, Debug, Eq, PartialEq)]
pub struct Evidence {
    pub path: String,
    pub line: usize,
    pub excerpt: String,
    pub digest: u64,
}

/// A finding with its evidence and remediation advice.
#[derive(Clone, Debug, Eq, PartialEq)]
pub struct Finding {
    pub kind: FindingKind,
    pub evidence: Evidence,
    pub remediation: &'static str,
}

/// The findings of an engagement.
#[derive(Clone, Debug, Eq, PartialEq)]
pub struct Report {
    pub engagement_id: String,
    pub findings: Vec<Finding>,
}

/// The content of a finding, as texts and numbers.
pub struct FindingRecord {
    pub kind: FindingKind,
    pub path: Seq<char>,
    pub line: nat,
    pub excerpt: Seq<char>,
    pub digest: u64,
    pub remediation: Seq<char>,
}

/// The content of a finding.
pub open spec fn record_of(f: Finding) -> FindingRecord {
    FindingRecord {
        kind: f.kind,
        path: f.evidence.path@,
        line: f.evidence.line as nat,
        excerpt: f.evidence.excerpt@,
        digest: f.evidence.digest,
        remediation: f.remediation@,
    }
}

/// The index of the first line feed at or after `i`, or the length.
pub open spec fn line_end(s: Seq<char>, i: int) -> int
    decreases s.len() - i,
{
    if i >= s.len() {
        s.len() as int
    } else if s[i] == '\n' {
        i
    } else {
        line_end(s, i + 1)
    }
}

proof fn lemma_line_end(s: Seq<char>, i: int)
    requires
        0 <= i <= s.len(),
    ensures
        i <= line_end(s, i) <= s.len(),
        forall|k: int| i <= k < line_end(s, i) ==> #[trigger] s[k] != '\n',
        line_end(s, i) < s.len() ==> s[line_end(s, i)] == '\n',
    decreases s.len() - i,
{
    if i < s.len() && s[i] != '\n' {
        lemma_line_end(s, i + 1);
    }
}

proof fn lemma_line_end_at(s: Seq<char>, i: int, j: int)
    requires
        0 <= i <= j <= s.len(),
        forall|k: int| i <= k < j ==> #[trigger] s[k] != '\n',
        j == s.len() || s[j] == '\n',
    ensures
        line_end(s, i) == j,
    decreases j - i,
{
    if i < j {
        lemma_line_end_at(s, i + 1, j);
    }
}

#[via_fn]
proof fn lines_from_decreases(s: Seq<char>, i: int) {
    if 0 <= i < s.len() {
        lemma_line_end(s, i);
    }
}

/// The lines of `s` from index `i` on (`str::lines`): split after each line
/// feed, without the line feed and a carriage return before it; a final line
/// feed does not start another line.
pub open spec fn lines_from(s: Seq<char>, i: int) -> Seq<Seq<char>>
    decreases s.len() + 1 - i,
    via lines_from_decreases
{
    if i < 0 || i >= s.len() {
        Seq::empty()
    } else {
        let k = line_end(s, i);
        let piece = s.subrange(i, k);
        let line = if k < s.len() && piece.len() > 0 && piece.last() == '\r' {
            piece.drop_last()
        } else {
            piece
        };
        seq![line] + lines_from(s, k + 1)
    }
}

/// The lines of a text.
pub open spec fn text_lines(s: Seq<char>) -> Seq<Seq<char>> {
    lines_from(s, 0)
}

/// Whether a line whose lower-case form is `lower` assigns a literal to
/// something named like a key: it names an API or secret key, has an `=`, and
/// reads no environment variable.
pub open spec fn credential_in(line: Seq<char>, lower: Seq<char>) -> bool {
    (contains_text(lower, "api_key"@) || contains_text(lower, "secret_key"@)) && line.contains('=')
        && !contains_text(lower, "getenv"@) && !contains_text(lower, "env::"@)
}

/// Whether a line whose lower-case form is `lower` builds SQL by
/// concatenation or formatting.
pub open spec fn sql_concat_in(line: Seq<char>, lower: Seq<char>) -> bool {
    contains_text(lower, "select "@) && (line.contains('+') || contains_text(lower, "format!("@))
}

/// Whether a line whose lower-case form is `lower` makes a token from a
/// non-cryptographic random source.
pub open spec fn weak_token_in(lower: Seq<char>) -> bool {
    contains_text(lower, "token"@) && (contains_text(lower, "math.random"@) || contains_text(
        lower,
        "rand::random"@,
    ))
}

/// A line that assigns a literal to something named like a key.
pub open spec fn credential_like(line: Seq<char>) -> bool {
    credential_in(line, lowercase(line))
}

/// A line that builds SQL by concatenation or formatting.
pub open spec fn sql_concat_like(line: Seq<char>) -> bool {
    sql_concat_in(line, lowercase(line))
}

/// A line that makes a token from a non-cryptographic random source.
pub open spec fn weak_token_like(line: Seq<char>) -> bool {
    weak_token_in(lowercase(line))
}

/// The index of the first occurrence of `c` at or after `i`, or the length.
pub open spec fn char_index(s: Seq<char>, c: char, i: int) -> int
    decreases s.len() - i,
{
    if i >= s.len() {
        s.len() as int
    } else if s[i] == c {
        i
    } else {
        char_index(s, c, i + 1)
    }
}

/// The excerpt kept of a line: for an assignment whose left side names a key,
/// the trimmed left side and `=<redacted>`; otherwise the trimmed line, cut to
/// 160 characters.
pub open spec fn redacted(line: Seq<char>) -> Seq<char> {
    let e = char_index(line, '=', 0);
    excerpt_of(line, e < line.len() && contains_text(lowercase(line.take(e)), "key"@))
}

/// The excerpt kept of a line, given whether it is an assignment whose left
/// side names a key.
pub open spec fn excerpt_of(line: Seq<char>, key_assignment: bool) -> Seq<char> {
    if key_assignment {
        trim(line.take(char_index(line, '=', 0))) + "=<redacted>"@
    } else {
        let t = trim(line);
        if t.len() > 160 {
            t.take(160)
        } else {
            t
        }
    }
}

/// The digest of a finding's evidence.
pub open spec fn evidence_digest(path: Seq<char>, line: nat, excerpt: Seq<char>) -> u64 {
    fnv1a(utf8(path + "|"@ + decimal(line) + "|"@ + excerpt))
}

/// The remediation advice for a kind of finding.
pub open spec fn remediation_text(kind: FindingKind) -> Seq<char> {
    match kind {
        FindingKind::EmbeddedCredential => "Move credentials to a secret store and rotate the exposed value."@,
        FindingKind::SqlStringConstruction => "Use a parameterized query API."@,
        FindingKind::InsecureRandomToken => "Use an operating-system cryptographic random source."@,
    }
}

/// Whether a line shows a kind of finding.
pub open spec fn shows(kind: FindingKind, line: Seq<char>) -> bool {
    match kind {
        FindingKind::EmbeddedCredential => credential_like(line),
        FindingKind::SqlStringConstruction => sql_concat_like(line),
        FindingKind::InsecureRandomToken => weak_token_like(line),
    }
}

/// The finding of a kind on line `n` (from 1) of a file.
pub open spec fn record_at(kind: FindingKind, path: Seq<char>, n: nat, line: Seq<char>) -> FindingRecord {
    FindingRecord {
        kind,
        path,
        line: n,
        excerpt: redacted(line),
        digest: evidence_digest(path, n, redacted(line)),
        remediation: remediation_text(kind),
    }
}

/// The findings of one line: credential, then SQL, then token.
pub open spec fn line_records(path: Seq<char>, n: nat, line: Seq<char>) -> Seq<FindingRecord> {
    let a: Seq<FindingRecord> = if shows(FindingKind::EmbeddedCredential, line) {
        seq![record_at(FindingKind::EmbeddedCredential, path, n, line)]
    } else {
        seq![]
    };
    let b: Seq<FindingRecord> = if shows(FindingKind::SqlStringConstruction, line) {
        seq![record_at(FindingKind::SqlStringConstruction, path, n, line)]
    } else {
        seq![]
    };
    let c: Seq<FindingRecord> = if shows(FindingKind::InsecureRandomToken, line) {
        seq![record_at(FindingKind::InsecureRandomToken, path, n, line)]
    } else {
        seq![]
    };
    a + b + c
}

/// The findings of the first `n` lines of a file, in line order.
pub open spec fn lines_records(path: Seq<char>, lines: Seq<Seq<char>>, n: int) -> Seq<FindingRecord>
    decreases n,
{
    if n <= 0 {
        Seq::empty()
    } else {
        lines_records(path, lines, n - 1) + line_records(path, n as nat, lines[n - 1])
    }
}

/// The findings of a file, in line order.
pub open spec fn file_records(file: SourceFile) -> Seq<FindingRecord> {
    let lines = text_lines(file.text@);
    lines_records(file.path@, lines, lines.len() as int)
}

/// The findings of the files, file by file.
pub open spec fn files_records(files: Seq<SourceFile>) -> Seq<FindingRecord>
    decreases files.len(),
{
    if files.len() == 0 {
        Seq::empty()
    } else {
        files_records(files.drop_last()) + file_records(files.last())
    }
}

/// The name of a kind.
pub open spec fn kind_name(kind: FindingKind) -> Seq<char> {
    match kind {
        FindingKind::EmbeddedCredential => "EmbeddedCredential"@,
        FindingKind::SqlStringConstruction => "SqlStringConstruction"@,
        FindingKind::InsecureRandomToken => "InsecureRandomToken"@,
    }
}

/// The report order of findings: by path, then line, then kind name.
pub open spec fn by_location() -> spec_fn(FindingRecord, FindingRecord) -> bool {
    |a: FindingRecord, b: FindingRecord|
        text_lt(a.path, b.path) || (a.path == b.path && (a.line < b.line || (a.line == b.line
            && text_lt(kind_name(a.kind), kind_name(b.kind)))))
}

proof fn lemma_by_location_strict_weak()
    ensures
        crate::order::strict_weak_order(by_location()),
{
    let lt = by_location();
    assert forall|a: FindingRecord| !#[trigger] lt(a, a) by {
        crate::text::lemma_text_lt_irreflexive(a.path);
        crate::text::lemma_text_lt_irreflexive(kind_name(a.kind));
    }
    assert forall|a: FindingRecord, b: FindingRecord, c: FindingRecord|
        #[trigger] lt(a, b) && #[trigger] lt(b, c) implies lt(a, c) by {
        if text_lt(a.path, b.path) && text_lt(b.path, c.path) {
            crate::text::lemma_text_lt_transitive(a.path, b.path, c.path);
        }
        crate::text::lemma_text_lt_irreflexive(a.path);
        crate::text::lemma_text_lt_irreflexive(b.path);
        if text_lt(a.path, b.path) && b.path == c.path {
        } else if a.path == b.path && text_lt(b.path, c.path) {
        } else if a.path == b.path && b.path == c.path && a.line == b.line && b.line == c.line {
            crate::text::lemma_text_lt_transitive(kind_name(a.kind), kind_name(b.kind), kind_name(c.kind));
        }
    }
    assert forall|a: FindingRecord, b: FindingRecord, c: FindingRecord|
        #[trigger] lt(a, b) implies lt(a, c) || #[trigger] lt(c, b) by {
        if c.path != a.path {
            crate::text::lemma_text_lt_total(a.path, c.path);
            if text_lt(c.path, a.path) && text_lt(a.path, b.path) {
                crate::text::lemma_text_lt_transitive(c.path, a.path, b.path);
            }
        } else if c.line == a.line && a.path == b.path && a.line == b.line {
            let (ka, kb, kc) = (kind_name(a.kind), kind_name(b.kind), kind_name(c.kind));
            if kc != ka {
                crate::text::lemma_text_lt_total(ka, kc);
                crate::text::lemma_text_lt_irreflexive(a.path);
                if text_lt(kc, ka) && text_lt(ka, kb) {
                    crate::text::lemma_text_lt_transitive(kc, ka, kb);
                }
            }
        }
    }
}

/// Reports come in location order: by path byte-wise, then by line, then by
/// kind name; no finding is placed after one it sorts before.
pub proof fn lemma_report_order(recs: Seq<FindingRecord>)
    ensures
        forall|i: int, j: int|
            0 <= i < j < sort_by(recs, by_location()).len() ==> {
                let a = #[trigger] sort_by(recs, by_location())[i];
                let b = #[trigger] sort_by(recs, by_location())[j];
                !text_lt(b.path, a.path) && (b.path == a.path ==> (a.line <= b.line && (a.line
                    == b.line ==> !text_lt(kind_name(b.kind), kind_name(a.kind)))))
            },
{
    lemma_by_location_strict_weak();
    crate::order::lemma_sort_sorted(recs, by_location());
}

/// Whether the engagement covers a path.
pub open spec fn covers(allowed: Seq<String>, path: Seq<char>) -> bool {
    exists|i: int| 0 <= i < allowed.len() && #[trigger] allowed[i]@ == path
}

/// The index of the first file the engagement does not cover, if any.
pub open spec fn first_uncovered(allowed: Seq<String>, files: Seq<SourceFile>, n: int) -> Option<int>
    decreases n,
{
    if n <= 0 {
        None
    } else {
        match first_uncovered(allowed, files, n - 1) {
            Some(i) => Some(i),
            None => if covers(allowed, files[n - 1].path@) {
                None
            } else {
                Some(n - 1)
            },
        }
    }
}

/// Whether stored evidence matches a file: the line it names exists, its
/// excerpt is that line redacted, and its digest covers path, line number
/// and excerpt.
pub open spec fn evidence_matches(file: SourceFile, evidence: Evidence) -> bool {
    matches_at(file, evidence.line as nat, evidence.excerpt@, evidence.digest)
}

/// Whether an excerpt and digest for line `line` (from 1; 0 reads as 1) match
/// a file.
pub open spec fn matches_at(file: SourceFile, line: nat, excerpt: Seq<char>, digest: u64) -> bool {
    let lines = text_lines(file.text@);
    let index = if line == 0 { 0 } else { line - 1 };
    &&& index < lines.len()
    &&& redacted(lines[index as int]) == excerpt
    &&& evidence_digest(file.path@, line, excerpt) == digest
}

proof fn lemma_first_uncovered_settles(allowed: Seq<String>, files: Seq<SourceFile>, m: int, n: int)
    requires
        0 <= m <= n,
        first_uncovered(allowed, files, m) is Some,
    ensures
        first_uncovered(allowed, files, n) == first_uncovered(allowed, files, m),
    decreases n - m,
{
    if n > m {
        lemma_first_uncovered_settles(allowed, files, m, n - 1);
    }
}

/// The lines of a text.
fn split_lines(text: &str) -> (r: Vec<String>)
    ensures
        r@.map_values(|l: String| l@) == text_lines(text@),
{
    let cs = chars_of(text);
    let ghost s = text@;
    let mut out: Vec<String> = Vec::new();
    let mut i: usize = 0;
    assert(s.skip(0) =~= s);
    while i < cs.len()
        invariant
            cs@ == s,
            i <= cs.len(),
            text_lines(s) == out@.map_values(|l: String| l@) + lines_from(s, i as int),
        decreases cs.len() - i,
    {
        let mut j: usize = i;
        while j < cs.len() && cs[j] != '\n'
            invariant
                i <= j <= cs.len(),
                cs@ == s,
                forall|k: int| i <= k < j ==> #[trigger] s[k] != '\n',
            decreases cs.len() - j,
        {
            j = j + 1;
        }
        proof {
            lemma_line_end_at(s, i as int, j as int);
        }
        let end = if j < cs.len() && j > i && cs[j - 1] == '\r' {
            j - 1
        } else {
            j
        };
        let line = string_from_chars(&cs, i, end);
        let ghost before = out@;
        out.push(line);
        proof {
            let piece = s.subrange(i as int, j as int);
            if j < cs.len() && j > i && cs[j - 1] == '\r' {
                assert(piece.drop_last() =~= s.subrange(i as int, end as int));
            }
            assert(lines_from(s, i as int) == seq![line@] + lines_from(s, j + 1));
            assert(out@.map_values(|l: String| l@) =~= before.map_values(|l: String| l@).push(line@));
        }
        if j < cs.len() {
            i = j + 1;
        } else {
            assert(lines_from(s, j + 1) =~= lines_from(s, j as int));
            i = j;
        }
    }
    assert(lines_from(s, i as int) =~= Seq::<Seq<char>>::empty());
    out
}

/// Whether a line, given its lower-case form, assigns a literal to something
/// named like a key.
pub fn credential_in_line(line: &str, lower: &str) -> (r: bool)
    ensures
        r == credential_in(line@, lower@),
{
    let lower = chars_of(lower);
    let raw = chars_of(line);
    (contains_str(&lower, "api_key") || contains_str(&lower, "secret_key")) && contains_char(
        &raw,
        '=',
    ) && !contains_str(&lower, "getenv") && !contains_str(&lower, "env::")
}

/// Whether a line, given its lower-case form, builds SQL by concatenation or
/// formatting.
pub fn sql_concat_in_line(line: &str, lower: &str) -> (r: bool)
    ensures
        r == sql_concat_in(line@, lower@),
{
    let lower = chars_of(lower);
    let raw = chars_of(line);
    contains_str(&lower, "select ") && (contains_char(&raw, '+') || contains_str(&lower, "format!("))
}

/// Whether a line, given as its lower-case form, makes a token from a
/// non-cryptographic random source.
pub fn weak_token_in_line(lower: &str) -> (r: bool)
    ensures
        r == weak_token_in(lower@),
{
    let lower = chars_of(lower);
    contains_str(&lower, "token") && (contains_str(&lower, "math.random") || contains_str(
        &lower,
        "rand::random",
    ))
}

fn looks_like_credential(line: &str) -> (r: bool)
    ensures
        r == credential_like(line@),
{
    let lower = to_lowercase(line);
    credential_in_line(line, lower.as_str())
}

fn looks_like_sql_concat(line: &str) -> (r: bool)
    ensures
        r == sql_concat_like(line@),
{
    let lower = to_lowercase(line);
    sql_concat_in_line(line, lower.as_str())
}

fn looks_like_weak_token(line: &str) -> (r: bool)
    ensures
        r == weak_token_like(line@),
{
    let lower = to_lowercase(line);
    weak_token_in_line(lower.as_str())
}

proof fn lemma_char_index_at(s: Seq<char>, c: char, i: int, j: int)
    requires
        0 <= i <= j <= s.len(),
        forall|k: int| i <= k < j ==> #[trigger] s[k] != c,
        j == s.len() || s[j] == c,
    ensures
        char_index(s, c, i) == j,
    decreases j - i,
{
    if i < j {
        lemma_char_index_at(s, c, i + 1, j);
    }
}

/// The index of the first `=` of a line, or its length.
fn equals_index(cs: &Vec<char>) -> (e: usize)
    ensures
        e == char_index(cs@, '=', 0),
        e <= cs.len(),
{
    let mut e: usize = 0;
    while e < cs.len() && cs[e] != '='
        invariant
            e <= cs.len(),
            forall|k: int| 0 <= k < e ==> #[trigger] cs@[k] != '=',
        decreases cs.len() - e,
    {
        e = e + 1;
    }
    proof {
        lemma_char_index_at(cs@, '=', 0, e as int);
    }
    e
}

fn redact(line: &str) -> (r: String)
    ensures
        r@ == redacted(line@),
{
    let cs = chars_of(line);
    let e = equals_index(&cs);
    let mut key_assignment = false;
    if e < cs.len() {
        let left = string_from_chars(&cs, 0, e);
        assert(left@ =~= line@.take(e as int));
        let lower = chars_of(to_lowercase(left.as_str()).as_str());
        key_assignment = contains_str(&lower, "key");
    }
    excerpt(line, key_assignment)
}

/// The excerpt kept of a line, given whether it is an assignment whose left
/// side names a key: then the trimmed left side and `=<redacted>`, otherwise
/// the trimmed line cut to 160 characters.
pub fn excerpt(line: &str, key_assignment: bool) -> (r: String)
    ensures
        r@ == excerpt_of(line@, key_assignment),
{
    let cs = chars_of(line);
    if key_assignment {
        let e = equals_index(&cs);
        let left = string_from_chars(&cs, 0, e);
        assert(left@ =~= line@.take(e as int));
        let t = trimmed(left.as_str());
        let mut out = string_from_chars(&t, 0, t.len());
        assert(out@ =~= t@);
        push_str(&mut out, "=<redacted>");
        return out;
    }
    let t = trimmed(line);
    let n = if t.len() > 160 {
        160
    } else {
        t.len()
    };
    let out = string_from_chars(&t, 0, n);
    assert(out@ =~= excerpt_of(line@, key_assignment));
    out
}

fn evidence_hash(path: &str, line: usize, excerpt: &str) -> (r: u64)
    ensures
        r == evidence_digest(path@, line as nat, excerpt@),
{
    let mut text = String::new();
    push_str(&mut text, path);
    push_str(&mut text, "|");
    push_decimal(&mut text, line as u64);
    push_str(&mut text, "|");
    push_str(&mut text, excerpt);
    assert(text@ =~= path@ + "|"@ + decimal(line as nat) + "|"@ + excerpt@);
    fnv1a_hash(text.as_str().as_bytes())
}

fn remediation_for(kind: FindingKind) -> (r: &'static str)
    ensures
        r@ == remediation_text(kind),
{
    match kind {
        FindingKind::EmbeddedCredential => "Move credentials to a secret store and rotate the exposed value.",
        FindingKind::SqlStringConstruction => "Use a parameterized query API.",
        FindingKind::InsecureRandomToken => "Use an operating-system cryptographic random source.",
    }
}

fn kind_name_str(kind: FindingKind) -> (r: &'static str)
    ensures
        r@ == kind_name(kind),
{
    match kind {
        FindingKind::EmbeddedCredential => "EmbeddedCredential",
        FindingKind::SqlStringConstruction => "SqlStringConstruction",
        FindingKind::InsecureRandomToken => "InsecureRandomToken",
    }
}

fn finding_at(kind: FindingKind, path: &String, n: usize, line: &str) -> (r: Finding)
    ensures
        record_of(r) == record_at(kind, path@, n as nat, line@),
{
    let excerpt = redact(line);
    let digest = evidence_hash(path.as_str(), n, excerpt.as_str());
    Finding {
        kind,
        evidence: Evidence { path: path.clone(), line: n, excerpt, digest },
        remediation: remediation_for(kind),
    }
}

/// The records of a list of findings.
pub open spec fn records(fs: Seq<Finding>) -> Seq<FindingRecord> {
    fs.map_values(|f: Finding| record_of(f))
}

/// Analyzes the files of an authorized engagement.
///
/// Without authorization nothing is read. The first file the engagement
/// does not cover stops the analysis. Otherwise every line of every file is
/// checked for an embedded credential, SQL built by concatenation and a token
/// from a weak random source, and the findings are reported by path, line and
/// kind.
pub fn analyze(scope: &Scope, files: &[SourceFile]) -> (r: Result<Report, String>)
    ensures
        !scope.authorized ==> (r matches Err(m) && m@ == "written authorization flag is required"@),
        scope.authorized ==> match first_uncovered(scope.allowed_files@, files@, files@.len() as int) {
            Some(i) => r matches Err(m) && m@ == files@[i].path@ + " is outside the engagement scope"@,
            None => r matches Ok(report) && report.engagement_id@ == scope.engagement_id@
                && records(report.findings@) == sort_by(files_records(files@), by_location()),
        },
{
    if !scope.authorized {
        let mut m = String::new();
        push_str(&mut m, "written authorization flag is required");
        return Err(m);
    }
    let mut findings: Vec<Finding> = Vec::new();
    let mut f: usize = 0;
    while f < files.len()
        invariant
            f <= files.len(),
            scope.authorized,
            first_uncovered(scope.allowed_files@, files@, f as int) is None,
            records(findings@) == files_records(files@.take(f as int)),
        decreases files.len() - f,
    {
        let file = &files[f];
        let mut covered = false;
        let mut a: usize = 0;
        while a < scope.allowed_files.len()
            invariant
                a <= scope.allowed_files.len(),
                covered == exists|k: int| 0 <= k < a && #[trigger] scope.allowed_files@[k]@ == file.path@,
            decreases scope.allowed_files.len() - a,
        {
            if text_eq(scope.allowed_files[a].as_str(), file.path.as_str()) {
                covered = true;
            }
            a = a + 1;
        }
        if !covered {
            let mut m = String::new();
            push_str(&mut m, file.path.as_str());
            push_str(&mut m, " is outside the engagement scope");
            proof {
                assert(first_uncovered(scope.allowed_files@, files@, f + 1) == Some(f as int));
                lemma_first_uncovered_settles(scope.allowed_files@, files@, f + 1, files@.len() as int);
            }
            return Err(m);
        }
        let lines = split_lines(file.text.as_str());
        let ghost ls = text_lines(file.text@);
        let ghost start = records(findings@);
        let mut index: usize = 0;
        while index < lines.len()
            invariant
                index <= lines.len(),
                lines@.map_values(|l: String| l@) == ls,
                records(findings@) == start + lines_records(file.path@, ls, index as int),
            decreases lines.len() - index,
        {
            let line = lines[index].as_str();
            let n = index + 1;
            let ghost before = records(findings@);
            assert(ls[index as int] == line@);
            if looks_like_credential(line) {
                findings.push(finding_at(FindingKind::EmbeddedCredential, &file.path, n, line));
            }
            let ghost mid1 = records(findings@);
            if looks_like_sql_concat(line) {
                findings.push(finding_at(FindingKind::SqlStringConstruction, &file.path, n, line));
            }
            let ghost mid2 = records(findings@);
            if looks_like_weak_token(line) {
                findings.push(finding_at(FindingKind::InsecureRandomToken, &file.path, n, line));
            }
            proof {
                let l = line@;
                assert(mid1 =~= before + (if shows(FindingKind::EmbeddedCredential, l) { seq![record_at(FindingKind::EmbeddedCredential, file.path@, n as nat, l)] } else { Seq::<FindingRecord>::empty() }));
                assert(mid2 =~= mid1 + (if shows(FindingKind::SqlStringConstruction, l) { seq![record_at(FindingKind::SqlStringConstruction, file.path@, n as nat, l)] } else { Seq::<FindingRecord>::empty() }));
                assert(records(findings@) =~= mid2 + (if shows(FindingKind::InsecureRandomToken, l) { seq![record_at(FindingKind::InsecureRandomToken, file.path@, n as nat, l)] } else { Seq::<FindingRecord>::empty() }));
                assert(records(findings@) =~= start + lines_records(file.path@, ls, n as int));
            }
            index = index + 1;
        }
        proof {
            assert(files@.take(f + 1).drop_last() =~= files@.take(f as int));
            assert(files@.take(f + 1).last() == *file);
            assert(first_uncovered(scope.allowed_files@, files@, f + 1) is None);
        }
        f = f + 1;
    }
    assert(files@.take(f as int) =~= files@);
    let less = |a: &Finding, b: &Finding| -> (r: bool)
        ensures
            r == by_location()(record_of(*a), record_of(*b)),
        {
            if text_less(a.evidence.path.as_str(), b.evidence.path.as_str()) {
                true
            } else if !text_eq(a.evidence.path.as_str(), b.evidence.path.as_str()) {
                false
            } else if a.evidence.line != b.evidence.line {
                a.evidence.line < b.evidence.line
            } else {
                text_less(kind_name_str(a.kind), kind_name_str(b.kind))
            }
        };
    let ghost by_record = |a: Finding, b: Finding| by_location()(record_of(a), record_of(b));
    let sorted = sort_with(findings, &less, Ghost(by_record));
    proof {
        lemma_sort_map(findings@, |f: Finding| record_of(f), by_record, by_location());
    }
    Ok(Report { engagement_id: scope.engagement_id.clone(), findings: sorted })
}

/// Checks a finding's evidence against the file it names: the excerpt must be
/// the redaction of the named line and the digest must match.
pub fn verify_evidence(file: &SourceFile, evidence: &Evidence) -> (r: bool)
    ensures
        r == evidence_matches(*file, *evidence),
{
    let lines = split_lines(file.text.as_str());
    let index = if evidence.line == 0 {
        0
    } else {
        evidence.line - 1
    };
    if index >= lines.len() {
        return false;
    }
    let excerpt = redact(lines[index].as_str());
    text_eq(excerpt.as_str(), evidence.excerpt.as_str()) && evidence_hash(
        file.path.as_str(),
        evidence.line,
        excerpt.as_str(),
    ) == evidence.digest
}

proof fn lemma_lines_records_origin(path: Seq<char>, lines: Seq<Seq<char>>, n: int, k: int)
    requires
        0 <= n <= lines.len(),
        0 <= k < lines_records(path, lines, n).len(),
    ensures
        ({
            let rec = lines_records(path, lines, n)[k];
            exists|j: int|
                0 <= j < n && rec.path == path && rec.line == j + 1 && #[trigger] redacted(lines[j])
                    == rec.excerpt && rec.digest == evidence_digest(path, (j + 1) as nat, rec.excerpt)
        }),
    decreases n,
{
    let before = lines_records(path, lines, n - 1);
    if k < before.len() {
        lemma_lines_records_origin(path, lines, n - 1, k);
        assert(lines_records(path, lines, n)[k] == before[k]);
    } else {
        let rec = lines_records(path, lines, n)[k];
        assert(rec == line_records(path, n as nat, lines[n - 1])[k - before.len()]);
        assert(redacted(lines[n - 1]) == rec.excerpt);
    }
}

proof fn lemma_files_records_origin(files: Seq<SourceFile>, k: int)
    requires
        0 <= k < files_records(files).len(),
    ensures
        exists|i: int| 0 <= i < files.len() && file_records(#[trigger] files[i]).contains(files_records(files)[k]),
    decreases files.len(),
{
    let before = files_records(files.drop_last());
    if k < before.len() {
        lemma_files_records_origin(files.drop_last(), k);
        let i = choose|i: int| 0 <= i < files.drop_last().len() && file_records(#[trigger] files.drop_last()[i]).contains(before[k]);
        assert(files[i] == files.drop_last()[i]);
        assert(files_records(files)[k] == before[k]);
    } else {
        let i = files.len() - 1;
        assert(files_records(files)[k] == file_records(files.last())[k - before.len()]);
        assert(files[i] == files.last());
    }
}

/// Every finding a report gives carries evidence that replays: it names one of
/// the analyzed files, and its excerpt and digest match that file at its line.
pub proof fn lemma_reported_evidence_matches(files: Seq<SourceFile>, rec: FindingRecord)
    requires
        sort_by(files_records(files), by_location()).contains(rec),
    ensures
        exists|i: int|
            0 <= i < files.len() && files[i].path@ == rec.path && matches_at(
                #[trigger] files[i],
                rec.line,
                rec.excerpt,
                rec.digest,
            ),
{
    let all = files_records(files);
    crate::order::lemma_sort_permutes(all, by_location());
    assert(sort_by(all, by_location()).to_multiset().count(rec) > 0);
    assert(all.contains(rec));
    let k = choose|k: int| 0 <= k < all.len() && all[k] == rec;
    lemma_files_records_origin(files, k);
    let i = choose|i: int| 0 <= i < files.len() && file_records(#[trigger] files[i]).contains(all[k]);
    let file = files[i];
    let lines = text_lines(file.text@);
    let m = choose|m: int| 0 <= m < file_records(file).len() && file_records(file)[m] == rec;
    lemma_lines_records_origin(file.path@, lines, lines.len() as int, m);
    assert(matches_at(files[i], rec.line, rec.excerpt, rec.digest));
}

} // verus!
