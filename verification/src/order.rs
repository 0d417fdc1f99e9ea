//! Stable insertion sorting, with the facts that make a sorted result
//! canonical: it is a permutation of its input, it is ordered, and any two
//! ordered permutations of the same items are the same sequence.

use vstd::prelude::*;

use crate::text::{lemma_text_lt_irreflexive, lemma_text_lt_total, lemma_text_lt_transitive, text_lt};

verus! {

broadcast use vstd::seq_lib::group_to_multiset_ensures;

/// The index at which a stable insertion places `x` into `s`: before the first
/// element that `x` sorts strictly before.
pub open spec fn insert_pos<T>(s: Seq<T>, x: T, lt: spec_fn(T, T) -> bool) -> int
    decreases s.len(),
{
    if s.len() == 0 {
        0
    } else if lt(x, s[0]) {
        0
    } else {
        1 + insert_pos(s.drop_first(), x, lt)
    }
}

/// The stable sort of `s` by the strict order `lt`: each item, in input order,
/// goes after every earlier item that it does not sort strictly before.
pub open spec fn sort_by<T>(s: Seq<T>, lt: spec_fn(T, T) -> bool) -> Seq<T>
    decreases s.len(),
{
    if s.len() == 0 {
        s
    } else {
        let r = sort_by(s.drop_last(), lt);
        r.insert(insert_pos(r, s.last(), lt), s.last())
    }
}

/// `lt` is a strict weak order: irreflexive, transitive, and an item that
/// sorts before another sorts before or after any third item.
pub open spec fn strict_weak_order<T>(lt: spec_fn(T, T) -> bool) -> bool {
    &&& forall|a: T| !#[trigger] lt(a, a)
    &&& forall|a: T, b: T, c: T| #[trigger] lt(a, b) && #[trigger] lt(b, c) ==> lt(a, c)
    &&& forall|a: T, b: T, c: T| #[trigger] lt(a, b) ==> lt(a, c) || #[trigger] lt(c, b)
}

/// No item sorts strictly before an item placed ahead of it.
pub open spec fn is_sorted_by<T>(s: Seq<T>, lt: spec_fn(T, T) -> bool) -> bool {
    forall|i: int, j: int| 0 <= i < j < s.len() ==> !lt(#[trigger] s[j], #[trigger] s[i])
}

/// Any two different items of `s` are ordered one way or the other.
pub open spec fn comparable_items<T>(s: Seq<T>, lt: spec_fn(T, T) -> bool) -> bool {
    forall|x: T, y: T|
        s.contains(x) && s.contains(y) && x != y ==> #[trigger] lt(x, y) || #[trigger] lt(y, x)
}

proof fn lemma_insert_pos_bounds<T>(s: Seq<T>, x: T, lt: spec_fn(T, T) -> bool)
    ensures
        0 <= insert_pos(s, x, lt) <= s.len(),
    decreases s.len(),
{
    if s.len() > 0 && !lt(x, s[0]) {
        lemma_insert_pos_bounds(s.drop_first(), x, lt);
    }
}

proof fn lemma_insert_pos_at<T>(s: Seq<T>, x: T, lt: spec_fn(T, T) -> bool, q: int)
    requires
        0 <= q <= s.len(),
        forall|k: int| 0 <= k < q ==> !lt(x, #[trigger] s[k]),
        q == s.len() || lt(x, s[q]),
    ensures
        insert_pos(s, x, lt) == q,
    decreases q,
{
    if q > 0 {
        assert(!lt(x, s[0]));
        assert forall|k: int| 0 <= k < q - 1 implies !lt(x, #[trigger] s.drop_first()[k]) by {
            assert(s.drop_first()[k] == s[k + 1]);
        }
        lemma_insert_pos_at(s.drop_first(), x, lt, q - 1);
    }
}

proof fn lemma_insert_pos_first<T>(s: Seq<T>, x: T, lt: spec_fn(T, T) -> bool)
    ensures
        forall|k: int| 0 <= k < insert_pos(s, x, lt) ==> !lt(x, #[trigger] s[k]),
        insert_pos(s, x, lt) == s.len() || lt(x, s[insert_pos(s, x, lt)]),
    decreases s.len(),
{
    lemma_insert_pos_bounds(s, x, lt);
    if s.len() > 0 && !lt(x, s[0]) {
        lemma_insert_pos_first(s.drop_first(), x, lt);
        lemma_insert_pos_bounds(s.drop_first(), x, lt);
        let p = insert_pos(s, x, lt);
        if p < s.len() {
            assert(s[p] == s.drop_first()[p - 1]);
        }
        assert forall|k: int| 0 <= k < insert_pos(s, x, lt) implies !lt(x, #[trigger] s[k]) by {
            if k > 0 {
                assert(s[k] == s.drop_first()[k - 1]);
            }
        }
    }
}

/// Sorting keeps exactly the items it is given.
pub proof fn lemma_sort_permutes<T>(s: Seq<T>, lt: spec_fn(T, T) -> bool)
    ensures
        sort_by(s, lt).to_multiset() == s.to_multiset(),
        sort_by(s, lt).len() == s.len(),
    decreases s.len(),
{
    if s.len() > 0 {
        let r = sort_by(s.drop_last(), lt);
        lemma_sort_permutes(s.drop_last(), lt);
        let p = insert_pos(r, s.last(), lt);
        lemma_insert_pos_bounds(r, s.last(), lt);
        let t = r.insert(p, s.last());
        assert(t.remove(p) =~= r);
        assert(t.remove(p).to_multiset() == t.to_multiset().remove(s.last()));
        assert(t.contains(s.last())) by {
            assert(t[p] == s.last());
        }
        assert(t.to_multiset() =~= r.to_multiset().insert(s.last()));
        assert(s =~= s.drop_last().push(s.last()));
    }
}

/// Sorting by a strict weak order gives an ordered sequence.
pub proof fn lemma_sort_sorted<T>(s: Seq<T>, lt: spec_fn(T, T) -> bool)
    requires
        strict_weak_order(lt),
    ensures
        is_sorted_by(sort_by(s, lt), lt),
    decreases s.len(),
{
    if s.len() > 0 {
        let x = s.last();
        let r = sort_by(s.drop_last(), lt);
        lemma_sort_sorted(s.drop_last(), lt);
        let p = insert_pos(r, x, lt);
        lemma_insert_pos_first(r, x, lt);
        lemma_insert_pos_bounds(r, x, lt);
        let t = r.insert(p, x);
        assert forall|i: int, j: int| 0 <= i < j < t.len() implies !lt(
            #[trigger] t[j],
            #[trigger] t[i],
        ) by {
            if j < p {
                assert(t[i] == r[i] && t[j] == r[j]);
            } else if j == p {
                assert(t[i] == r[i]);
            } else if i == p {
                let q = j - 1;
                assert(t[j] == r[q]);
                assert(lt(x, r[p])) by {
                    assert(p < r.len());
                }
                if q > p {
                    assert(!lt(r[q], r[p]));
                }
                assert(lt(x, r[q]));
                if lt(r[q], x) {
                    assert(lt(x, x));
                }
            } else if i < p {
                assert(t[i] == r[i] && t[j] == r[j - 1]);
            } else {
                assert(t[i] == r[i - 1] && t[j] == r[j - 1]);
            }
        }
    }
}

/// Two ordered sequences holding the same items, any two different of which
/// are ordered one way or the other, are equal.
pub proof fn lemma_sorted_unique<T>(r1: Seq<T>, r2: Seq<T>, lt: spec_fn(T, T) -> bool)
    requires
        is_sorted_by(r1, lt),
        is_sorted_by(r2, lt),
        r1.to_multiset() == r2.to_multiset(),
        comparable_items(r1, lt),
    ensures
        r1 == r2,
    decreases r1.len(),
{
    assert(r1.len() == r1.to_multiset().len());
    assert(r2.len() == r2.to_multiset().len());
    if r1.len() > 0 {
        let a = r1[0];
        let b = r2[0];
        assert(r2.contains(b));
        assert(r1.contains(a));
        assert(r1.to_multiset().count(b) > 0);
        assert(r2.to_multiset().count(a) > 0);
        assert(r1.contains(b));
        assert(r2.contains(a));
        if a != b {
            let j = choose|j: int| 0 <= j < r1.len() && r1[j] == b;
            let i = choose|i: int| 0 <= i < r2.len() && r2[i] == a;
            assert(j != 0 && i != 0);
            assert(!lt(r1[j], r1[0]));
            assert(!lt(r2[i], r2[0]));
            assert(lt(a, b) || lt(b, a));
        }
        let s1 = r1.drop_first();
        let s2 = r2.drop_first();
        assert(r1.remove(0) =~= s1);
        assert(r2.remove(0) =~= s2);
        assert(s1.to_multiset() == r1.to_multiset().remove(a));
        assert(s2.to_multiset() == r2.to_multiset().remove(b));
        assert forall|i: int, j: int| 0 <= i < j < s1.len() implies !lt(
            #[trigger] s1[j],
            #[trigger] s1[i],
        ) by {
            assert(s1[j] == r1[j + 1] && s1[i] == r1[i + 1]);
        }
        assert forall|i: int, j: int| 0 <= i < j < s2.len() implies !lt(
            #[trigger] s2[j],
            #[trigger] s2[i],
        ) by {
            assert(s2[j] == r2[j + 1] && s2[i] == r2[i + 1]);
        }
        assert forall|x: T, y: T|
            s1.contains(x) && s1.contains(y) && x != y implies #[trigger] lt(x, y)
                || #[trigger] lt(y, x) by {
            let k = choose|k: int| 0 <= k < s1.len() && s1[k] == x;
            let l = choose|l: int| 0 <= l < s1.len() && s1[l] == y;
            assert(r1[k + 1] == x && r1[l + 1] == y);
            assert(r1.contains(x) && r1.contains(y));
        }
        lemma_sorted_unique(s1, s2, lt);
        assert(r1 =~= seq![a] + s1);
        assert(r2 =~= seq![b] + s2);
    } else {
        assert(r2.len() == 0);
        assert(r1 =~= r2);
    }
}

/// Sorting forgets the input order: any two permutations of the same items,
/// any two different of which are ordered one way or the other, sort to the
/// same sequence.
pub proof fn lemma_sort_canonical<T>(s1: Seq<T>, s2: Seq<T>, lt: spec_fn(T, T) -> bool)
    requires
        strict_weak_order(lt),
        s1.to_multiset() == s2.to_multiset(),
        comparable_items(s1, lt),
    ensures
        sort_by(s1, lt) == sort_by(s2, lt),
{
    lemma_sort_permutes(s1, lt);
    lemma_sort_permutes(s2, lt);
    lemma_sort_sorted(s1, lt);
    lemma_sort_sorted(s2, lt);
    let r1 = sort_by(s1, lt);
    assert forall|x: T, y: T|
        r1.contains(x) && r1.contains(y) && x != y implies #[trigger] lt(x, y)
            || #[trigger] lt(y, x) by {
        assert(r1.to_multiset().count(x) > 0);
        assert(r1.to_multiset().count(y) > 0);
        assert(s1.contains(x) && s1.contains(y));
    }
    lemma_sorted_unique(r1, sort_by(s2, lt), lt);
}

/// Sorts `v` stably by the strict order that `less` computes.
pub fn sort_with<T, F: Fn(&T, &T) -> bool>(v: Vec<T>, less: &F, Ghost(lt): Ghost<
    spec_fn(T, T) -> bool,
>) -> (r: Vec<T>)
    requires
        forall|a: &T, b: &T| #[trigger] less.requires((a, b)),
        forall|a: &T, b: &T, res: bool| #[trigger] less.ensures((a, b), res) ==> res == lt(*a, *b),
    ensures
        r@ == sort_by(v@, lt),
{
    let ghost original = v@;
    let n = v.len();
    let mut input = v;
    let mut out: Vec<T> = Vec::new();
    let mut k: usize = 0;
    assert(original.take(0) =~= Seq::<T>::empty());
    assert(original.skip(0) =~= original);
    while input.len() > 0
        invariant
            k <= original.len() == n,
            input@ == original.skip(k as int),
            out@ == sort_by(original.take(k as int), lt),
            forall|a: &T, b: &T| #[trigger] less.requires((a, b)),
            forall|a: &T, b: &T, res: bool| #[trigger] less.ensures((a, b), res) ==> res == lt(
                *a,
                *b,
            ),
        decreases input.len(),
    {
        let x = input.remove(0);
        let mut q: usize = 0;
        while q < out.len() && !less(&x, &out[q])
            invariant
                q <= out.len(),
                forall|j: int| 0 <= j < q ==> !lt(x, #[trigger] out@[j]),
                forall|a: &T, b: &T| #[trigger] less.requires((a, b)),
                forall|a: &T, b: &T, res: bool| #[trigger] less.ensures((a, b), res) ==> res
                    == lt(*a, *b),
            decreases out.len() - q,
        {
            q = q + 1;
        }
        proof {
            lemma_insert_pos_at(out@, x, lt, q as int);
            assert(x == original[k as int]);
            assert(original.take(k + 1).drop_last() =~= original.take(k as int));
            assert(original.take(k + 1).last() == x);
            assert(input@ =~= original.skip(k + 1));
        }
        out.insert(q, x);
        k = k + 1;
    }
    assert(original.take(k as int) =~= original);
    out
}

proof fn lemma_insert_pos_map<A, B>(
    s: Seq<A>,
    x: A,
    f: spec_fn(A) -> B,
    lt_a: spec_fn(A, A) -> bool,
    lt_b: spec_fn(B, B) -> bool,
)
    requires
        forall|a1: A, a2: A| #[trigger] lt_a(a1, a2) == lt_b(f(a1), f(a2)),
    ensures
        insert_pos(s.map_values(f), f(x), lt_b) == insert_pos(s, x, lt_a),
    decreases s.len(),
{
    if s.len() > 0 {
        assert(s.map_values(f).drop_first() =~= s.drop_first().map_values(f));
        assert(lt_a(x, s[0]) == lt_b(f(x), f(s[0])));
        lemma_insert_pos_map(s.drop_first(), x, f, lt_a, lt_b);
    }
}

/// Sorting commutes with a map that the order only looks through: sorting
/// items by the order of their images gives the images in sorted order.
pub proof fn lemma_sort_map<A, B>(
    s: Seq<A>,
    f: spec_fn(A) -> B,
    lt_a: spec_fn(A, A) -> bool,
    lt_b: spec_fn(B, B) -> bool,
)
    requires
        forall|a1: A, a2: A| #[trigger] lt_a(a1, a2) == lt_b(f(a1), f(a2)),
    ensures
        sort_by(s, lt_a).map_values(f) == sort_by(s.map_values(f), lt_b),
    decreases s.len(),
{
    if s.len() > 0 {
        let r = sort_by(s.drop_last(), lt_a);
        lemma_sort_map(s.drop_last(), f, lt_a, lt_b);
        assert(s.map_values(f).drop_last() =~= s.drop_last().map_values(f));
        lemma_insert_pos_map(r, s.last(), f, lt_a, lt_b);
        lemma_insert_pos_bounds(r, s.last(), lt_a);
        let p = insert_pos(r, s.last(), lt_a);
        assert(r.insert(p, s.last()).map_values(f) =~= r.map_values(f).insert(p, f(s.last())));
    } else {
        assert(sort_by(s, lt_a).map_values(f) =~= sort_by(s.map_values(f), lt_b));
    }
}

/// The byte-wise order of texts.
pub open spec fn text_order() -> spec_fn(Seq<char>, Seq<char>) -> bool {
    |a: Seq<char>, b: Seq<char>| text_lt(a, b)
}

/// The byte-wise order of texts is a strict total order.
pub proof fn lemma_text_order_total(s: Seq<Seq<char>>)
    ensures
        strict_weak_order(text_order()),
        comparable_items(s, text_order()),
{
    let lt = text_order();
    assert forall|a: Seq<char>| !#[trigger] lt(a, a) by {
        lemma_text_lt_irreflexive(a);
    }
    assert forall|a: Seq<char>, b: Seq<char>, c: Seq<char>| #[trigger] lt(a, b) && #[trigger] lt(
        b,
        c,
    ) implies lt(a, c) by {
        lemma_text_lt_transitive(a, b, c);
    }
    assert forall|a: Seq<char>, b: Seq<char>, c: Seq<char>| #[trigger] lt(a, b) implies lt(a, c)
        || #[trigger] lt(c, b) by {
        if a != c {
            lemma_text_lt_total(a, c);
            if text_lt(c, a) {
                lemma_text_lt_transitive(c, a, b);
            }
        }
    }
    assert forall|x: Seq<char>, y: Seq<char>|
        s.contains(x) && s.contains(y) && x != y implies #[trigger] lt(x, y) || #[trigger] lt(y, x) by {
        lemma_text_lt_total(x, y);
    }
}

} // verus!
