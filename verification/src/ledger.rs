//! A register of weighted-bound entries, kept in byte-wise order of their
//! unique ids. Each entry's accounting terms are real numbers; the register
//! carries them as their IEEE-754 `f64` bit patterns and leaves checking them
//! to the caller, who hands in the outcome of that check.

use vstd::prelude::*;

use crate::order::{comparable_items, is_sorted_by, lemma_sorted_unique};
use crate::text::{
    lemma_text_lt_irreflexive, lemma_text_lt_total, lemma_text_lt_transitive, push_str,
    text_eq, text_less, text_lt,
};

verus! {

broadcast use vstd::seq_lib::group_to_multiset_ensures;

/// Where an entry's data resides.
#[derive(Clone, Copy, Debug, PartialEq, Eq, Structural)]
pub enum ResidencyTier {
    Hot,
    Warm,
    Cold,
    Archive,
}

/// One entry of the register. `term_bits` holds the distortion, rate, side
/// information, lambda, mu and budget, in that order.
#[derive(Clone, Debug, PartialEq)]
pub struct LedgerEntry {
    pub id: String,
    pub tier: ResidencyTier,
    pub term_bits: [u64; 6],
}

/// The ids of the entries, in order.
pub open spec fn entry_ids(entries: Seq<LedgerEntry>) -> Seq<Seq<char>> {
    entries.map_values(|e: LedgerEntry| e.id@)
}

/// Whether some entry has id `id`.
pub open spec fn holds_id(entries: Seq<LedgerEntry>, id: Seq<char>) -> bool {
    exists|i: int| 0 <= i < entries.len() && #[trigger] entries[i].id@ == id
}

/// Whether the ids are in strictly increasing byte-wise order.
pub open spec fn ordered_ids(entries: Seq<LedgerEntry>) -> bool {
    forall|i: int, j: int|
        0 <= i < j < entries.len() ==> text_lt(#[trigger] entries[i].id@, #[trigger] entries[j].id@)
}

/// Where an entry with id `id` goes: after the last entry whose id is
/// smaller, scanning from the end.
pub open spec fn insert_at(entries: Seq<LedgerEntry>, id: Seq<char>) -> int
    decreases entries.len(),
{
    if entries.len() == 0 {
        0
    } else if text_lt(entries.last().id@, id) {
        entries.len() as int
    } else {
        insert_at(entries.drop_last(), id)
    }
}

/// The entries with `entry` placed in id order.
pub open spec fn admitted(entries: Seq<LedgerEntry>, entry: LedgerEntry) -> Seq<LedgerEntry> {
    entries.insert(insert_at(entries, entry.id@), entry)
}

/// The message for an id that is already registered.
pub open spec fn duplicate_message() -> Seq<char> {
    "duplicate ledger id"@
}

proof fn lemma_insert_at_is(entries: Seq<LedgerEntry>, id: Seq<char>, i: int)
    requires
        ordered_ids(entries),
        0 <= i <= entries.len(),
        forall|k: int| 0 <= k < i ==> text_lt(#[trigger] entries[k].id@, id),
        i == entries.len() || !text_lt(entries[i].id@, id),
    ensures
        insert_at(entries, id) == i,
    decreases entries.len(),
{
    if entries.len() > 0 {
        let last = entries.len() - 1;
        if i == entries.len() {
            assert(text_lt(entries[last].id@, id));
        } else {
            if last > i {
                if text_lt(entries[last].id@, id) {
                    assert(text_lt(entries[i].id@, entries[last].id@));
                    lemma_text_lt_transitive(entries[i].id@, entries[last].id@, id);
                }
            }
            let init = entries.drop_last();
            assert(ordered_ids(init)) by {
                assert forall|a: int, b: int| 0 <= a < b < init.len() implies text_lt(
                    #[trigger] init[a].id@,
                    #[trigger] init[b].id@,
                ) by {
                    assert(init[a] == entries[a] && init[b] == entries[b]);
                }
            }
            lemma_insert_at_is(init, id, i);
        }
    }
}

proof fn lemma_admitted_ordered(entries: Seq<LedgerEntry>, entry: LedgerEntry, i: int)
    requires
        ordered_ids(entries),
        0 <= i <= entries.len(),
        forall|k: int| 0 <= k < i ==> text_lt(#[trigger] entries[k].id@, entry.id@),
        forall|k: int| i <= k < entries.len() ==> text_lt(entry.id@, #[trigger] entries[k].id@),
    ensures
        ordered_ids(entries.insert(i, entry)),
{
    let r = entries.insert(i, entry);
    assert forall|a: int, b: int| 0 <= a < b < r.len() implies text_lt(
        #[trigger] r[a].id@,
        #[trigger] r[b].id@,
    ) by {
        if b < i {
            assert(r[a] == entries[a] && r[b] == entries[b]);
        } else if b == i {
            assert(r[a] == entries[a]);
        } else if a < i {
            assert(r[a] == entries[a] && r[b] == entries[b - 1]);
            lemma_text_lt_transitive(entries[a].id@, entry.id@, entries[b - 1].id@);
        } else if a == i {
            assert(r[b] == entries[b - 1]);
        } else {
            assert(r[a] == entries[a - 1] && r[b] == entries[b - 1]);
        }
    }
}

/// The register: entries with distinct ids, in id order.
#[derive(Debug)]
pub struct Ledger {
    entries: Vec<LedgerEntry>,
}

impl Ledger {
    #[verifier::type_invariant]
    spec fn ids_are_ordered(self) -> bool {
        ordered_ids(self.entries@)
    }

    /// The entries, in id order.
    pub closed spec fn log(self) -> Seq<LedgerEntry> {
        self.entries@
    }

    /// Registers an entry whose terms the caller has checked, `check` being
    /// the outcome: a failed check is returned as it is; an id that is
    /// already registered is refused; otherwise the entry is placed in id
    /// order. Nothing changes on a refusal.
    pub fn admit_entry(&mut self, entry: LedgerEntry, check: Result<(), String>) -> (r: Result<
        (),
        String,
    >)
        ensures
            ordered_ids(final(self).log()),
            check matches Err(m) ==> r == Err::<(), String>(m) && final(self).log() == old(
                self,
            ).log(),
            check is Ok && holds_id(old(self).log(), entry.id@) ==> (r matches Err(m) && m@
                == duplicate_message()) && final(self).log() == old(self).log(),
            check is Ok && !holds_id(old(self).log(), entry.id@) ==> r is Ok && final(self).log()
                == admitted(old(self).log(), entry),
    {
        proof {
            use_type_invariant(&*self);
        }
        match check {
            Err(m) => {
                return Err(m);
            },
            Ok(()) => {},
        }
        let ghost old_entries = self.entries@;
        let mut i: usize = 0;
        while i < self.entries.len() && text_less(self.entries[i].id.as_str(), entry.id.as_str())
            invariant
                i <= self.entries.len(),
                self.entries@ == old_entries,
                ordered_ids(old_entries),
                forall|k: int| 0 <= k < i ==> text_lt(#[trigger] old_entries[k].id@, entry.id@),
            decreases self.entries.len() - i,
        {
            i = i + 1;
        }
        if i < self.entries.len() && text_eq(self.entries[i].id.as_str(), entry.id.as_str()) {
            let mut m = String::new();
            push_str(&mut m, "duplicate ledger id");
            return Err(m);
        }
        proof {
            lemma_insert_at_is(old_entries, entry.id@, i as int);
            assert forall|k: int| i <= k < old_entries.len() implies text_lt(
                entry.id@,
                #[trigger] old_entries[k].id@,
            ) by {
                let first = old_entries[i as int].id@;
                assert(first != entry.id@);
                lemma_text_lt_total(first, entry.id@);
                if k > i {
                    assert(text_lt(first, old_entries[k].id@));
                    lemma_text_lt_transitive(entry.id@, first, old_entries[k].id@);
                }
            }
            assert(!holds_id(old_entries, entry.id@)) by {
                if holds_id(old_entries, entry.id@) {
                    let k = choose|k: int| 0 <= k < old_entries.len() && #[trigger] old_entries[k].id@ == entry.id@;
                    if k < i {
                        lemma_text_lt_irreflexive(entry.id@);
                    } else {
                        lemma_text_lt_irreflexive(entry.id@);
                    }
                }
            }
            lemma_admitted_ordered(old_entries, entry, i as int);
        }
        let mut entries: Vec<LedgerEntry> = Vec::new();
        std::mem::swap(&mut entries, &mut self.entries);
        entries.insert(i, entry);
        self.entries = entries;
        Ok(())
    }

    /// The entries, in id order.
    pub fn entries(&self) -> (r: &[LedgerEntry])
        ensures
            r@ == self.log(),
            ordered_ids(r@),
    {
        proof {
            use_type_invariant(self);
        }
        self.entries.as_slice()
    }
}

fn copy_entry(e: &LedgerEntry) -> (r: LedgerEntry)
    ensures
        r == *e,
{
    LedgerEntry { id: e.id.clone(), tier: e.tier, term_bits: e.term_bits }
}

impl Clone for Ledger {
    fn clone(&self) -> (r: Ledger)
        ensures
            r.log() == self.log(),
    {
        proof {
            use_type_invariant(self);
        }
        let mut entries: Vec<LedgerEntry> = Vec::new();
        let mut i: usize = 0;
        while i < self.entries.len()
            invariant
                i <= self.entries.len(),
                entries@ == self.entries@.take(i as int),
            decreases self.entries.len() - i,
        {
            entries.push(copy_entry(&self.entries[i]));
            assert(entries@ =~= self.entries@.take(i + 1));
            i = i + 1;
        }
        assert(entries@ =~= self.entries@);
        Ledger { entries }
    }
}

impl Default for Ledger {
    /// An empty register.
    fn default() -> (r: Ledger)
        ensures
            r.log() == Seq::<LedgerEntry>::empty(),
    {
        Ledger { entries: Vec::new() }
    }
}

proof fn lemma_insert_at_splits(entries: Seq<LedgerEntry>, id: Seq<char>)
    requires
        ordered_ids(entries),
        !holds_id(entries, id),
    ensures
        0 <= insert_at(entries, id) <= entries.len(),
        forall|k: int|
            0 <= k < insert_at(entries, id) ==> text_lt(#[trigger] entries[k].id@, id),
        forall|k: int|
            insert_at(entries, id) <= k < entries.len() ==> text_lt(id, #[trigger] entries[k].id@),
    decreases entries.len(),
{
    if entries.len() > 0 {
        let last = entries.len() - 1;
        let init = entries.drop_last();
        if text_lt(entries[last].id@, id) {
            assert forall|k: int| 0 <= k < entries.len() implies text_lt(
                #[trigger] entries[k].id@,
                id,
            ) by {
                if k < last {
                    lemma_text_lt_transitive(entries[k].id@, entries[last].id@, id);
                }
            }
        } else {
            assert(entries[last].id@ != id);
            lemma_text_lt_total(entries[last].id@, id);
            assert(ordered_ids(init)) by {
                assert forall|a: int, b: int| 0 <= a < b < init.len() implies text_lt(
                    #[trigger] init[a].id@,
                    #[trigger] init[b].id@,
                ) by {
                    assert(init[a] == entries[a] && init[b] == entries[b]);
                }
            }
            assert(!holds_id(init, id)) by {
                if holds_id(init, id) {
                    let k = choose|k: int| 0 <= k < init.len() && #[trigger] init[k].id@ == id;
                    assert(entries[k].id@ == id);
                }
            }
            lemma_insert_at_splits(init, id);
            assert forall|k: int| 0 <= k < insert_at(entries, id) implies text_lt(
                #[trigger] entries[k].id@,
                id,
            ) by {
                assert(entries[k] == init[k]);
            }
            assert forall|k: int| insert_at(entries, id) <= k < entries.len() implies text_lt(
                id,
                #[trigger] entries[k].id@,
            ) by {
                if k < last {
                    assert(entries[k] == init[k]);
                }
            }
        }
    }
}

proof fn lemma_admitted_facts(entries: Seq<LedgerEntry>, entry: LedgerEntry, other: Seq<char>)
    requires
        ordered_ids(entries),
        !holds_id(entries, entry.id@),
    ensures
        ordered_ids(admitted(entries, entry)),
        !holds_id(entries, other) && other != entry.id@ ==> !holds_id(admitted(entries, entry), other),
        admitted(entries, entry).to_multiset() == entries.to_multiset().insert(entry),
{
    lemma_insert_at_splits(entries, entry.id@);
    let p = insert_at(entries, entry.id@);
    lemma_admitted_ordered(entries, entry, p);
    let r = admitted(entries, entry);
    assert(!holds_id(entries, other) && other != entry.id@ ==> !holds_id(r, other)) by {
        if !holds_id(entries, other) && other != entry.id@ && holds_id(r, other) {
            let k = choose|k: int| 0 <= k < r.len() && #[trigger] r[k].id@ == other;
            if k < p {
                assert(r[k] == entries[k]);
            } else if k > p {
                assert(r[k] == entries[k - 1]);
            }
        }
    }
    vstd::seq_lib::to_multiset_insert(entries, p, entry);
}

/// The order of entries by id.
pub open spec fn by_entry_id() -> spec_fn(LedgerEntry, LedgerEntry) -> bool {
    |x: LedgerEntry, y: LedgerEntry| text_lt(x.id@, y.id@)
}

proof fn lemma_ordered_is_sorted(r: Seq<LedgerEntry>)
    requires
        ordered_ids(r),
    ensures
        is_sorted_by(r, by_entry_id()),
        comparable_items(r, by_entry_id()),
{
    assert forall|i: int, j: int| 0 <= i < j < r.len() implies !by_entry_id()(
        #[trigger] r[j],
        #[trigger] r[i],
    ) by {
        if text_lt(r[j].id@, r[i].id@) {
            lemma_text_lt_transitive(r[i].id@, r[j].id@, r[i].id@);
            lemma_text_lt_irreflexive(r[i].id@);
        }
    }
    assert forall|x: LedgerEntry, y: LedgerEntry|
        r.contains(x) && r.contains(y) && x != y implies #[trigger] by_entry_id()(x, y)
        || #[trigger] by_entry_id()(y, x) by {
        let i = choose|i: int| 0 <= i < r.len() && r[i] == x;
        let j = choose|j: int| 0 <= j < r.len() && r[j] == y;
        assert(i != j);
        if i < j {
            assert(text_lt(r[i].id@, r[j].id@));
        } else {
            assert(text_lt(r[j].id@, r[i].id@));
        }
    }
}

/// The register does not depend on the order of admission: admitting two
/// entries with new, different ids one way round or the other gives the same
/// entries in the same order.
pub proof fn lemma_admission_order_irrelevant(
    entries: Seq<LedgerEntry>,
    a: LedgerEntry,
    b: LedgerEntry,
)
    requires
        ordered_ids(entries),
        !holds_id(entries, a.id@),
        !holds_id(entries, b.id@),
        a.id@ != b.id@,
    ensures
        admitted(admitted(entries, a), b) == admitted(admitted(entries, b), a),
{
    lemma_admitted_facts(entries, a, b.id@);
    lemma_admitted_facts(entries, b, a.id@);
    let ea = admitted(entries, a);
    let eb = admitted(entries, b);
    lemma_admitted_facts(ea, b, a.id@);
    lemma_admitted_facts(eb, a, b.id@);
    let r1 = admitted(ea, b);
    let r2 = admitted(eb, a);
    assert(r1.to_multiset() =~= r2.to_multiset());
    lemma_ordered_is_sorted(r1);
    lemma_ordered_is_sorted(r2);
    lemma_sorted_unique(r1, r2, by_entry_id());
}

} // verus!
