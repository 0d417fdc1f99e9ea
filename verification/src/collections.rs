//! Ordered collections of texts: a set and a map, each kept sorted by the
//! byte-wise order of its texts with no text twice, as `BTreeSet<String>` and
//! `BTreeMap<String, String>` iterate.

use vstd::prelude::*;

use crate::text::{
    lemma_text_lt_irreflexive, lemma_text_lt_total, lemma_text_lt_transitive, text_eq, text_less,
    text_lt,
};

verus! {

/// Texts strictly increasing in byte-wise order (hence pairwise different).
pub open spec fn strictly_sorted(s: Seq<Seq<char>>) -> bool {
    forall|i: int, j: int| 0 <= i < j < s.len() ==> text_lt(#[trigger] s[i], #[trigger] s[j])
}

/// The views of a sequence of strings.
pub open spec fn views(s: Seq<String>) -> Seq<Seq<char>> {
    s.map_values(|x: String| x@)
}

/// The keys of a sequence of pairs.
pub open spec fn pair_keys(s: Seq<(String, String)>) -> Seq<Seq<char>> {
    s.map_values(|p: (String, String)| p.0@)
}

/// Whether some pair has key `k`.
pub open spec fn has_key(s: Seq<(String, String)>, k: Seq<char>) -> bool {
    exists|i: int| 0 <= i < s.len() && #[trigger] s[i].0@ == k
}

/// An index of a pair with key `k`.
pub open spec fn key_index(s: Seq<(String, String)>, k: Seq<char>) -> int {
    choose|i: int| 0 <= i < s.len() && #[trigger] s[i].0@ == k
}

/// The map that a sequence of pairs with distinct keys denotes.
pub open spec fn pairs_map(s: Seq<(String, String)>) -> Map<Seq<char>, Seq<char>> {
    Map::new(|k: Seq<char>| has_key(s, k), |k: Seq<char>| s[key_index(s, k)].1@)
}

/// In a key-sorted sequence, a key occurs at one index only.
pub proof fn lemma_sorted_key_unique(s: Seq<(String, String)>, i: int, j: int)
    requires
        strictly_sorted(pair_keys(s)),
        0 <= i < s.len(),
        0 <= j < s.len(),
        s[i].0@ == s[j].0@,
    ensures
        i == j,
{
    if i < j {
        assert(text_lt(pair_keys(s)[i], pair_keys(s)[j]));
        lemma_text_lt_irreflexive(s[i].0@);
    } else if j < i {
        assert(text_lt(pair_keys(s)[j], pair_keys(s)[i]));
        lemma_text_lt_irreflexive(s[i].0@);
    }
}

/// In a key-sorted sequence, the pair at index `i` gives the map's value there.
pub proof fn lemma_pairs_map_at(s: Seq<(String, String)>, i: int)
    requires
        strictly_sorted(pair_keys(s)),
        0 <= i < s.len(),
    ensures
        pairs_map(s).contains_key(s[i].0@),
        pairs_map(s)[s[i].0@] == s[i].1@,
{
    assert(has_key(s, s[i].0@));
    let j = key_index(s, s[i].0@);
    lemma_sorted_key_unique(s, i, j);
}

/// Pushing an item adds it to the set of items.
pub proof fn lemma_push_to_set<T>(s: Seq<T>, x: T)
    ensures
        s.push(x).to_set() == s.to_set().insert(x),
{
    assert forall|y: T| s.push(x).to_set().contains(y) implies s.to_set().insert(x).contains(y) by {
        let k = choose|k: int| 0 <= k < s.push(x).len() && s.push(x)[k] == y;
        if k < s.len() {
            assert(s[k] == y);
        }
    }
    assert forall|y: T| s.to_set().insert(x).contains(y) implies s.push(x).to_set().contains(y) by {
        if y == x {
            assert(s.push(x)[s.len() as int] == x);
        } else {
            let k = choose|k: int| 0 <= k < s.len() && s[k] == y;
            assert(s.push(x)[k] == y);
        }
    }
    assert(s.push(x).to_set() =~= s.to_set().insert(x));
}

/// Texts in strictly increasing order are all different.
pub proof fn lemma_sorted_texts_distinct(e: Seq<Seq<char>>)
    requires
        strictly_sorted(e),
    ensures
        e.no_duplicates(),
{
    assert forall|i: int, j: int| 0 <= i < e.len() && 0 <= j < e.len() && i != j implies e[i] != e[j] by {
        if i < j {
            assert(text_lt(e[i], e[j]));
        } else {
            assert(text_lt(e[j], e[i]));
        }
        crate::text::lemma_text_lt_irreflexive(e[i]);
    }
}

/// The contents of a set of texts have as many members as it has elements.
proof fn lemma_set_size(t: TextSet)
    requires
        strictly_sorted(t.elements()),
    ensures
        t.contents().len() == t.elements().len(),
{
    lemma_sorted_texts_distinct(t.elements());
    t.elements().unique_seq_to_set();
}

/// A set of texts, iterated in byte-wise order.
#[derive(Debug, PartialEq, Eq)]
pub struct TextSet {
    items: Vec<String>,
}

impl TextSet {
    #[verifier::type_invariant]
    spec fn sorted_items(self) -> bool {
        strictly_sorted(views(self.items@))
    }

    /// The texts in iteration (byte-wise) order.
    pub closed spec fn elements(self) -> Seq<Seq<char>> {
        views(self.items@)
    }

    /// The texts.
    pub open spec fn contents(self) -> Set<Seq<char>> {
        self.elements().to_set()
    }

    /// An empty set.
    pub fn new() -> (r: TextSet)
        ensures
            r.elements() == Seq::<Seq<char>>::empty(),
    {
        let r = TextSet { items: Vec::new() };
        assert(r.elements() =~= Seq::<Seq<char>>::empty());
        r
    }

    /// The set of the given texts (later duplicates are dropped).
    pub fn from_vec(texts: Vec<String>) -> (r: TextSet)
        ensures
            r.contents() == views(texts@).to_set(),
            strictly_sorted(r.elements()),
    {
        let mut r = TextSet::new();
        let mut i: usize = 0;
        let ghost vs = views(texts@);
        while i < texts.len()
            invariant
                i <= texts.len(),
                vs == views(texts@),
                r.contents() == vs.take(i as int).to_set(),
            decreases texts.len() - i,
        {
            let t = texts[i].clone();
            assert(vs[i as int] == t@);
            r.insert(t);
            assert(vs.take(i + 1) =~= vs.take(i as int).push(vs[i as int]));
            proof { lemma_push_to_set(vs.take(i as int), vs[i as int]); }
            i = i + 1;
        }
        assert(vs.take(i as int) =~= vs);
        proof {
            use_type_invariant(&r);
        }
        r
    }

    /// The texts, in byte-wise order.
    pub fn items(&self) -> (r: &[String])
        ensures
            views(r@) == self.elements(),
            strictly_sorted(self.elements()),
    {
        proof {
            use_type_invariant(self);
        }
        self.items.as_slice()
    }

    /// The number of texts.
    pub fn len(&self) -> (r: usize)
        ensures
            r == self.elements().len(),
            r == self.contents().len(),
    {
        proof {
            use_type_invariant(self);
            lemma_set_size(*self);
        }
        self.items.len()
    }

    /// Whether the set holds `t`.
    pub fn contains(&self, t: &str) -> (r: bool)
        ensures
            r == self.contents().contains(t@),
    {
        let mut i: usize = 0;
        while i < self.items.len()
            invariant
                i <= self.items.len(),
                forall|k: int| 0 <= k < i ==> self.items@[k]@ != t@,
            decreases self.items.len() - i,
        {
            if text_eq(self.items[i].as_str(), t) {
                assert(self.elements()[i as int] == t@);
                return true;
            }
            i = i + 1;
        }
        assert(!self.elements().contains(t@)) by {
            if self.elements().contains(t@) {
                let k = choose|k: int| 0 <= k < self.elements().len() && self.elements()[k] == t@;
                assert(self.items@[k]@ == t@);
            }
        }
        false
    }

    /// Adds `t`; returns whether it was absent.
    pub fn insert(&mut self, t: String) -> (r: bool)
        ensures
            final(self).contents() == old(self).contents().insert(t@),
            r == !old(self).contents().contains(t@),
    {
        proof {
            use_type_invariant(&*self);
        }
        let ghost old_elems = self.elements();
        let mut p: usize = 0;
        while p < self.items.len() && text_less(self.items[p].as_str(), t.as_str())
            invariant
                p <= self.items.len(),
                old_elems == views(self.items@),
                forall|k: int| 0 <= k < p ==> text_lt(#[trigger] old_elems[k], t@),
            decreases self.items.len() - p,
        {
            p = p + 1;
        }
        if p < self.items.len() && text_eq(self.items[p].as_str(), t.as_str()) {
            assert(old_elems[p as int] == t@);
            assert(old_elems.to_set().insert(t@) =~= old_elems.to_set());
            return false;
        }
        let ghost tv = t@;
        let ghost new_elems = old_elems.insert(p as int, tv);
        proof {
            if p < old_elems.len() {
                lemma_text_lt_total(old_elems[p as int], tv);
            }
            assert forall|k: int| p <= k < old_elems.len() implies text_lt(tv, #[trigger] old_elems[k]) by {
                if k > p {
                    lemma_text_lt_transitive(tv, old_elems[p as int], old_elems[k]);
                }
            }
            assert(!old_elems.contains(tv)) by {
                if old_elems.contains(tv) {
                    let k = choose|k: int| 0 <= k < old_elems.len() && old_elems[k] == tv;
                    lemma_text_lt_irreflexive(tv);
                    if k < p {
                        assert(text_lt(old_elems[k], tv));
                    } else {
                        assert(text_lt(tv, old_elems[k]));
                    }
                }
            }
            assert(strictly_sorted(new_elems)) by {
                assert forall|i: int, j: int| 0 <= i < j < new_elems.len() implies text_lt(
                    #[trigger] new_elems[i],
                    #[trigger] new_elems[j],
                ) by {
                    if j < p {
                        assert(new_elems[i] == old_elems[i] && new_elems[j] == old_elems[j]);
                    } else if j == p {
                        assert(new_elems[i] == old_elems[i]);
                    } else if i == p {
                        assert(new_elems[j] == old_elems[j - 1]);
                    } else if i < p {
                        assert(new_elems[i] == old_elems[i] && new_elems[j] == old_elems[j - 1]);
                    } else {
                        assert(new_elems[i] == old_elems[i - 1] && new_elems[j] == old_elems[j - 1]);
                    }
                }
            }
            assert(new_elems.to_set() =~= old_elems.to_set().insert(tv)) by {
                assert forall|x: Seq<char>| new_elems.contains(x) implies old_elems.to_set().insert(tv).contains(x) by {
                    let k = choose|k: int| 0 <= k < new_elems.len() && new_elems[k] == x;
                    if k < p {
                        assert(old_elems[k] == x);
                    } else if k > p {
                        assert(old_elems[k - 1] == x);
                    }
                }
                assert forall|x: Seq<char>| old_elems.to_set().insert(tv).contains(x) implies new_elems.contains(x) by {
                    if x == tv {
                        assert(new_elems[p as int] == tv);
                    } else {
                        let k = choose|k: int| 0 <= k < old_elems.len() && old_elems[k] == x;
                        if k < p {
                            assert(new_elems[k] == x);
                        } else {
                            assert(new_elems[k + 1] == x);
                        }
                    }
                }
            }
        }
        let mut items: Vec<String> = Vec::new();
        std::mem::swap(&mut items, &mut self.items);
        items.insert(p, t);
        assert(views(items@) =~= new_elems);
        self.items = items;
        true
    }
}

impl Clone for TextSet {
    fn clone(&self) -> (r: TextSet)
        ensures
            r.elements() == self.elements(),
    {
        proof {
            use_type_invariant(self);
        }
        let r = TextSet { items: self.items.clone() };
        assert(r.elements() =~= self.elements());
        r
    }
}


/// A map from texts to texts, iterated in byte-wise order of its keys.
#[derive(Debug, PartialEq, Eq)]
pub struct TextMap {
    entries: Vec<(String, String)>,
}

impl View for TextMap {
    type V = Map<Seq<char>, Seq<char>>;

    closed spec fn view(&self) -> Map<Seq<char>, Seq<char>> {
        pairs_map(self.entries@)
    }
}

impl TextMap {
    #[verifier::type_invariant]
    spec fn sorted_keys(self) -> bool {
        strictly_sorted(pair_keys(self.entries@))
    }

    /// The keys in iteration (byte-wise) order.
    pub closed spec fn keys(self) -> Seq<Seq<char>> {
        pair_keys(self.entries@)
    }

    /// The pairs in iteration (byte-wise) order of their keys.
    pub closed spec fn entry_seq(self) -> Seq<(String, String)> {
        self.entries@
    }

    /// An empty map.
    pub fn new() -> (r: TextMap)
        ensures
            r@ == Map::<Seq<char>, Seq<char>>::empty(),
            r.keys() == Seq::<Seq<char>>::empty(),
            r.entry_seq() == Seq::<(String, String)>::empty(),
    {
        let r = TextMap { entries: Vec::new() };
        assert(r@ =~= Map::<Seq<char>, Seq<char>>::empty());
        assert(r.keys() =~= Seq::<Seq<char>>::empty());
        r
    }

    /// The map holding the given pairs, a later pair for a key replacing an
    /// earlier one.
    pub fn from_pairs(pairs: Vec<(String, String)>) -> (r: TextMap)
        ensures
            r@ == pairs_in_order(pairs@),
    {
        let mut r = TextMap::new();
        let mut i: usize = 0;
        assert(pairs@.take(0) =~= Seq::<(String, String)>::empty());
        while i < pairs.len()
            invariant
                i <= pairs.len(),
                r@ == pairs_in_order(pairs@.take(i as int)),
            decreases pairs.len() - i,
        {
            let k = pairs[i].0.clone();
            let v = pairs[i].1.clone();
            r.insert(k, v);
            assert(pairs@.take(i + 1).drop_last() =~= pairs@.take(i as int));
            i = i + 1;
        }
        assert(pairs@.take(i as int) =~= pairs@);
        r
    }

    /// The pairs, in byte-wise order of their keys.
    pub fn entries(&self) -> (r: &[(String, String)])
        ensures
            r@ == self.entry_seq(),
            pair_keys(r@) == self.keys(),
            strictly_sorted(self.keys()),
            pairs_map(r@) == self@,
    {
        proof {
            use_type_invariant(self);
        }
        self.entries.as_slice()
    }

    /// The index of key `k`, if present.
    fn find(&self, k: &str) -> (r: Option<usize>)
        ensures
            match r {
                Some(i) => i < self.entries@.len() && self.entries@[i as int].0@ == k@,
                None => !has_key(self.entries@, k@),
            },
    {
        let mut i: usize = 0;
        while i < self.entries.len()
            invariant
                i <= self.entries.len(),
                forall|j: int| 0 <= j < i ==> #[trigger] self.entries@[j].0@ != k@,
            decreases self.entries.len() - i,
        {
            if text_eq(self.entries[i].0.as_str(), k) {
                return Some(i);
            }
            i = i + 1;
        }
        None
    }

    /// Whether the map has key `k`.
    pub fn contains_key(&self, k: &str) -> (r: bool)
        ensures
            r == self@.contains_key(k@),
    {
        self.find(k).is_some()
    }

    /// The value at key `k`, if any.
    pub fn get(&self, k: &str) -> (r: Option<&String>)
        ensures
            match r {
                Some(v) => self@.contains_key(k@) && v@ == self@[k@],
                None => !self@.contains_key(k@),
            },
    {
        proof {
            use_type_invariant(self);
        }
        match self.find(k) {
            Some(i) => {
                proof {
                    lemma_pairs_map_at(self.entries@, i as int);
                }
                Some(&self.entries[i].1)
            },
            None => None,
        }
    }

    /// Sets key `k` to `v`; returns the value it replaced, if any.
    pub fn insert(&mut self, k: String, v: String) -> (r: Option<String>)
        ensures
            final(self)@ == old(self)@.insert(k@, v@),
            strictly_sorted(final(self).keys()),
            pair_keys(final(self).entry_seq()) == final(self).keys(),
            pairs_map(final(self).entry_seq()) == final(self)@,
            match r {
                Some(o) => old(self)@.contains_key(k@) && o@ == old(self)@[k@],
                None => !old(self)@.contains_key(k@),
            },
    {
        proof {
            use_type_invariant(&*self);
        }
        let ghost old_entries = self.entries@;
        let ghost ks = pair_keys(old_entries);
        let ghost kv = k@;
        let ghost vv = v@;
        let mut p: usize = 0;
        while p < self.entries.len() && text_less(self.entries[p].0.as_str(), k.as_str())
            invariant
                p <= self.entries.len(),
                old_entries == self.entries@,
                ks == pair_keys(old_entries),
                kv == k@,
                forall|j: int| 0 <= j < p ==> text_lt(#[trigger] ks[j], kv),
            decreases self.entries.len() - p,
        {
            assert(ks[p as int] == self.entries@[p as int].0@);
            p = p + 1;
        }
        let mut entries: Vec<(String, String)> = Vec::new();
        std::mem::swap(&mut entries, &mut self.entries);
        if p < entries.len() && text_eq(entries[p].0.as_str(), k.as_str()) {
            let ghost t = old_entries.update(p as int, (k, v));
            let (_, previous) = entries.remove(p);
            proof {
                lemma_pairs_map_at(old_entries, p as int);
            }
            entries.insert(p, (k, v));
            assert(entries@ =~= t);
            proof {
                assert(pair_keys(t) =~= ks);
                assert(pairs_map(t) =~= pairs_map(old_entries).insert(kv, vv)) by {
                    assert forall|x: Seq<char>| #[trigger] has_key(t, x) == has_key(old_entries, x) by {
                        if has_key(t, x) {
                            let i = choose|i: int| 0 <= i < t.len() && #[trigger] t[i].0@ == x;
                            assert(old_entries[i].0@ == x);
                        }
                        if has_key(old_entries, x) {
                            let i = choose|i: int| 0 <= i < old_entries.len() && #[trigger] old_entries[i].0@ == x;
                            assert(t[i].0@ == x);
                        }
                    }
                    assert forall|x: Seq<char>| has_key(t, x) implies #[trigger] pairs_map(t)[x] == pairs_map(old_entries).insert(kv, vv)[x] by {
                        let i = choose|i: int| 0 <= i < t.len() && #[trigger] t[i].0@ == x;
                        lemma_pairs_map_at(t, i);
                        lemma_pairs_map_at(old_entries, i);
                        if x == kv {
                            assert(t[p as int].0@ == kv);
                            lemma_sorted_key_unique(t, i, p as int);
                        } else {
                            assert(i != p);
                        }
                    }
                }
            }
            self.entries = entries;
            Some(previous)
        } else {
            let ghost t = old_entries.insert(p as int, (k, v));
            proof {
                if p < old_entries.len() {
                    lemma_text_lt_total(ks[p as int], kv);
                }
                assert forall|j: int| p <= j < ks.len() implies text_lt(kv, #[trigger] ks[j]) by {
                    if j > p {
                        lemma_text_lt_transitive(kv, ks[p as int], ks[j]);
                    }
                }
                assert(!has_key(old_entries, kv)) by {
                    if has_key(old_entries, kv) {
                        let j = choose|j: int| 0 <= j < old_entries.len() && #[trigger] old_entries[j].0@ == kv;
                        lemma_text_lt_irreflexive(kv);
                        assert(ks[j] == kv);
                    }
                }
                let nk = pair_keys(t);
                assert(nk =~= ks.insert(p as int, kv));
                assert(strictly_sorted(nk)) by {
                    assert forall|i: int, j: int| 0 <= i < j < nk.len() implies text_lt(
                        #[trigger] nk[i],
                        #[trigger] nk[j],
                    ) by {
                        if j < p {
                            assert(nk[i] == ks[i] && nk[j] == ks[j]);
                        } else if j == p {
                            assert(nk[i] == ks[i]);
                        } else if i == p {
                            assert(nk[j] == ks[j - 1]);
                        } else if i < p {
                            assert(nk[i] == ks[i] && nk[j] == ks[j - 1]);
                        } else {
                            assert(nk[i] == ks[i - 1] && nk[j] == ks[j - 1]);
                        }
                    }
                }
                assert(pairs_map(t) =~= pairs_map(old_entries).insert(kv, vv)) by {
                    assert forall|x: Seq<char>| #[trigger] has_key(t, x) == (has_key(old_entries, x) || x == kv) by {
                        if has_key(t, x) {
                            let i = choose|i: int| 0 <= i < t.len() && #[trigger] t[i].0@ == x;
                            if i < p {
                                assert(old_entries[i].0@ == x);
                            } else if i > p {
                                assert(old_entries[i - 1].0@ == x);
                            }
                        }
                        if has_key(old_entries, x) {
                            let i = choose|i: int| 0 <= i < old_entries.len() && #[trigger] old_entries[i].0@ == x;
                            if i < p {
                                assert(t[i].0@ == x);
                            } else {
                                assert(t[i + 1].0@ == x);
                            }
                        }
                        if x == kv {
                            assert(t[p as int].0@ == x);
                        }
                    }
                    assert forall|x: Seq<char>| has_key(t, x) implies #[trigger] pairs_map(t)[x] == pairs_map(old_entries).insert(kv, vv)[x] by {
                        let i = choose|i: int| 0 <= i < t.len() && #[trigger] t[i].0@ == x;
                        lemma_pairs_map_at(t, i);
                        if i < p {
                            lemma_pairs_map_at(old_entries, i);
                        } else if i > p {
                            lemma_pairs_map_at(old_entries, i - 1);
                        }
                    }
                }
            }
            entries.insert(p, (k, v));
            assert(entries@ =~= t);
            self.entries = entries;
            None
        }
    }
}

impl Clone for TextMap {
    fn clone(&self) -> (r: TextMap)
        ensures
            r@ == self@,
            r.keys() == self.keys(),
    {
        proof {
            use_type_invariant(self);
        }
        let mut entries: Vec<(String, String)> = Vec::new();
        let mut i: usize = 0;
        while i < self.entries.len()
            invariant
                i <= self.entries.len(),
                entries@ == self.entries@.take(i as int),
            decreases self.entries.len() - i,
        {
            let k = self.entries[i].0.clone();
            let v = self.entries[i].1.clone();
            entries.push((k, v));
            assert(entries@ =~= self.entries@.take(i + 1));
            i = i + 1;
        }
        assert(entries@ =~= self.entries@);
        TextMap { entries }
    }
}

/// The map built by setting each pair in order.
pub open spec fn pairs_in_order(pairs: Seq<(String, String)>) -> Map<Seq<char>, Seq<char>>
    decreases pairs.len(),
{
    if pairs.len() == 0 {
        Map::empty()
    } else {
        pairs_in_order(pairs.drop_last()).insert(pairs.last().0@, pairs.last().1@)
    }
}

} // verus!
