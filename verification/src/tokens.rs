//! Lexical tokens: the maximal runs of alphanumeric characters of a text,
//! lower-cased, as a set.

use vstd::prelude::*;

use crate::collections::{views, TextSet};
use crate::text::{alphanumeric, chars_of, is_alphanumeric, lowercase, string_from_chars, to_lowercase};

verus! {

/// The index of the first character at or after `i` that is not
/// alphanumeric, or the length of `s`.
pub open spec fn word_end(s: Seq<char>, i: int) -> int
    decreases s.len() - i,
{
    if i >= s.len() {
        s.len() as int
    } else if !alphanumeric(s[i]) {
        i
    } else {
        word_end(s, i + 1)
    }
}

/// Where the word starting at `i` ends, and that all of it is alphanumeric.
pub proof fn lemma_word_end_bounds(s: Seq<char>, i: int)
    requires
        0 <= i <= s.len(),
    ensures
        i <= word_end(s, i) <= s.len(),
        forall|k: int| i <= k < word_end(s, i) ==> alphanumeric(#[trigger] s[k]),
        word_end(s, i) < s.len() ==> !alphanumeric(s[word_end(s, i)]),
    decreases s.len() - i,
{
    if i < s.len() && alphanumeric(s[i]) {
        lemma_word_end_bounds(s, i + 1);
    }
}

proof fn lemma_word_end_at(s: Seq<char>, i: int, j: int)
    requires
        0 <= i <= j <= s.len(),
        forall|k: int| i <= k < j ==> alphanumeric(#[trigger] s[k]),
        j == s.len() || !alphanumeric(s[j]),
    ensures
        word_end(s, i) == j,
    decreases j - i,
{
    if i < j {
        lemma_word_end_at(s, i + 1, j);
    }
}

/// The pieces of `s` from index `i` on, split at characters that are not
/// alphanumeric, without the empty pieces.
pub open spec fn words_from(s: Seq<char>, i: int) -> Seq<Seq<char>>
    decreases s.len() + 1 - i,
    via words_from_decreases
{
    if i < 0 || i >= s.len() {
        Seq::empty()
    } else {
        let k = word_end(s, i);
        let rest = words_from(s, k + 1);
        if k > i {
            seq![s.subrange(i, k)] + rest
        } else {
            rest
        }
    }
}

#[via_fn]
proof fn words_from_decreases(s: Seq<char>, i: int) {
    if 0 <= i < s.len() {
        lemma_word_end_bounds(s, i);
    }
}

/// Each text lower-cased.
pub open spec fn lowered(ws: Seq<Seq<char>>) -> Seq<Seq<char>> {
    ws.map_values(|w: Seq<char>| lowercase(w))
}

/// The set of tokens of a text: its alphanumeric runs, each lower-cased.
pub open spec fn token_set(s: Seq<char>) -> Set<Seq<char>> {
    lowered(words_from(s, 0)).to_set()
}

/// The tokens of a text.
pub fn tokens(text: &str) -> (r: TextSet)
    ensures
        r.contents() == token_set(text@),
{
    let cs = chars_of(text);
    let ghost s = text@;
    let mut out = TextSet::new();
    let ghost mut done: Seq<Seq<char>> = Seq::empty();
    let mut i: usize = 0;
    while i < cs.len()
        invariant
            cs@ == s,
            i <= cs.len(),
            words_from(s, 0) == done + words_from(s, i as int),
            out.contents() == lowered(done).to_set(),
        decreases cs.len() - i,
    {
        let mut j: usize = i;
        while j < cs.len() && is_alphanumeric(cs[j])
            invariant
                i <= j <= cs.len(),
                cs@ == s,
                forall|k: int| i <= k < j ==> alphanumeric(#[trigger] s[k]),
            decreases cs.len() - j,
        {
            j = j + 1;
        }
        proof {
            lemma_word_end_at(s, i as int, j as int);
            lemma_word_end_bounds(s, i as int);
        }
        let ghost rest = words_from(s, j + 1);
        if j > i {
            let word = string_from_chars(&cs, i, j);
            let low = to_lowercase(word.as_str());
            assert(low@ == lowercase(s.subrange(i as int, j as int)));
            assert(words_from(s, i as int) == seq![s.subrange(i as int, j as int)] + rest);
            out.insert(low);
            proof {
                let w = s.subrange(i as int, j as int);
                assert(lowered(done + seq![w]) =~= lowered(done).push(lowercase(w)));
                crate::collections::lemma_push_to_set(lowered(done), lowercase(w));
                assert(done + words_from(s, i as int) =~= (done + seq![w]) + rest);
                done = done + seq![w];
            }
        } else {
            assert(words_from(s, i as int) == rest);
        }
        if j < cs.len() {
            i = j + 1;
        } else {
            assert(words_from(s, j + 1) =~= words_from(s, j as int));
            i = j;
        }
    }
    assert(words_from(s, i as int) =~= Seq::<Seq<char>>::empty());
    assert(done =~= words_from(s, 0));
    out
}

/// The number of texts the two sets share.
pub fn shared_count(q: &TextSet, d: &TextSet) -> (r: usize)
    ensures
        r == q.contents().intersect(d.contents()).len(),
{
    let items = q.items();
    let ghost qs = views(items@);
    proof {
        crate::collections::lemma_sorted_texts_distinct(qs);
    }
    let ghost ds = d.contents();
    let ghost mut common: Seq<Seq<char>> = Seq::empty();
    let mut count: usize = 0;
    let mut i: usize = 0;
    while i < items.len()
        invariant
            i <= items.len(),
            qs == views(items@),
            qs == q.elements(),
            qs.no_duplicates(),
            ds == d.contents(),
            count == common.len(),
            common.len() <= i,
            common.no_duplicates(),
            common.to_set() == qs.take(i as int).to_set().intersect(ds),
            forall|x: Seq<char>| common.contains(x) ==> qs.take(i as int).contains(x),
        decreases items.len() - i,
    {
        let ghost x = qs[i as int];
        assert(qs.take(i + 1) =~= qs.take(i as int).push(x));
        proof {
            crate::collections::lemma_push_to_set(qs.take(i as int), x);
        }
        if d.contains(items[i].as_str()) {
            proof {
                assert(!common.contains(x)) by {
                    if common.contains(x) {
                        let k = choose|k: int| 0 <= k < i && qs.take(i as int)[k] == x;
                        assert(qs[k] == qs[i as int]);
                    }
                }
                crate::collections::lemma_push_to_set(common, x);
                assert forall|a: int, b: int| 0 <= a < b < common.push(x).len() implies common.push(x)[a] != common.push(x)[b] by {
                    if b == common.len() {
                        assert(common.contains(common[a]));
                    }
                }
                assert(common.push(x).to_set() =~= qs.take(i + 1).to_set().intersect(ds));
                assert forall|y: Seq<char>| common.push(x).contains(y) implies qs.take(i + 1).contains(y) by {
                    if y == x {
                        assert(qs.take(i + 1)[i as int] == x);
                    } else {
                        let k = choose|k: int| 0 <= k < common.push(x).len() && common.push(x)[k] == y;
                        assert(common[k] == y);
                        assert(common.contains(y));
                        let m = choose|m: int| 0 <= m < i && qs.take(i as int)[m] == y;
                        assert(qs.take(i + 1)[m] == y);
                    }
                }
                common = common.push(x);
            }
            count = count + 1;
        } else {
            assert(common.to_set() =~= qs.take(i + 1).to_set().intersect(ds));
            assert forall|y: Seq<char>| common.contains(y) implies qs.take(i + 1).contains(y) by {
                let m = choose|m: int| 0 <= m < i && qs.take(i as int)[m] == y;
                assert(qs.take(i + 1)[m] == y);
            }
        }
        i = i + 1;
    }
    proof {
        assert(qs.take(i as int) =~= qs);
        common.unique_seq_to_set();
    }
    count
}

/// The number of tokens a query and a text share.
pub open spec fn overlap(query: Seq<char>, text: Seq<char>) -> nat {
    token_set(query).intersect(token_set(text)).len()
}

} // verus!
