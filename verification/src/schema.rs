//! Deterministic schema repair with a bounded loop and an auditable witness:
//! required fields that a document lacks are filled from the schema's
//! defaults, every change is recorded as a patch, and replaying the patches on
//! the original document reproduces the repaired one.

use vstd::prelude::*;

use crate::collections::{views, TextMap, TextSet};

verus! {

/// A document: fields and their values.
pub type Document = TextMap;

/// The fields a document must have, and the defaults that can fill them.
#[derive(Clone, Debug)]
pub struct Schema {
    pub required: TextSet,
    pub defaults: TextMap,
}

/// One change to a field.
#[derive(Clone, Debug, Eq, PartialEq)]
pub struct Patch {
    pub field: String,
    pub before: Option<String>,
    pub after: String,
}

/// The patches of each round of a repair, and whether it left nothing missing.
#[derive(Clone, Debug, Eq, PartialEq)]
pub struct Witness {
    pub rounds: Vec<Vec<Patch>>,
    pub converged: bool,
}

/// The fields of `required`, in order, that `doc` lacks.
pub open spec fn missing_in(required: Seq<Seq<char>>, doc: Map<Seq<char>, Seq<char>>) -> Seq<
    Seq<char>,
>
    decreases required.len(),
{
    if required.len() == 0 {
        Seq::empty()
    } else {
        let rest = missing_in(required.drop_last(), doc);
        if doc.contains_key(required.last()) {
            rest
        } else {
            rest.push(required.last())
        }
    }
}

/// The fields of `fields`, in order, that have a default.
pub open spec fn with_defaults(fields: Seq<Seq<char>>, defaults: Map<Seq<char>, Seq<char>>) -> Seq<
    Seq<char>,
>
    decreases fields.len(),
{
    if fields.len() == 0 {
        Seq::empty()
    } else {
        let rest = with_defaults(fields.drop_last(), defaults);
        if defaults.contains_key(fields.last()) {
            rest.push(fields.last())
        } else {
            rest
        }
    }
}

/// Whether `patches` fill exactly `fields`, in order, from `defaults`, each
/// with no previous value.
pub open spec fn fills(
    patches: Seq<Patch>,
    fields: Seq<Seq<char>>,
    defaults: Map<Seq<char>, Seq<char>>,
) -> bool {
    &&& patches.len() == fields.len()
    &&& forall|i: int|
        0 <= i < patches.len() ==> {
            &&& #[trigger] patches[i].field@ == fields[i]
            &&& patches[i].before is None
            &&& patches[i].after@ == defaults[fields[i]]
        }
}

/// The document after setting each patched field, in order.
pub open spec fn apply_patches(doc: Map<Seq<char>, Seq<char>>, patches: Seq<Patch>) -> Map<
    Seq<char>,
    Seq<char>,
>
    decreases patches.len(),
{
    if patches.len() == 0 {
        doc
    } else {
        apply_patches(doc, patches.drop_last()).insert(patches.last().field@, patches.last().after@)
    }
}

/// The document after applying each round of patches, in order.
pub open spec fn apply_rounds(doc: Map<Seq<char>, Seq<char>>, rounds: Seq<Vec<Patch>>) -> Map<
    Seq<char>,
    Seq<char>,
>
    decreases rounds.len(),
{
    if rounds.len() == 0 {
        doc
    } else {
        apply_patches(apply_rounds(doc, rounds.drop_last()), rounds.last()@)
    }
}

proof fn lemma_missing_in_contains(
    required: Seq<Seq<char>>,
    doc: Map<Seq<char>, Seq<char>>,
    f: Seq<char>,
)
    ensures
        missing_in(required, doc).contains(f) == (required.contains(f) && !doc.contains_key(f)),
    decreases required.len(),
{
    if required.len() > 0 {
        let rest = missing_in(required.drop_last(), doc);
        lemma_missing_in_contains(required.drop_last(), doc, f);
        if required.drop_last().contains(f) {
            let k = choose|k: int| 0 <= k < required.drop_last().len() && required.drop_last()[k] == f;
            assert(required[k] == f);
        }
        if required.contains(f) && f != required.last() {
            let k = choose|k: int| 0 <= k < required.len() && required[k] == f;
            assert(required.drop_last()[k] == f);
        }
        if !doc.contains_key(required.last()) {
            assert(rest.push(required.last())[rest.len() as int] == required.last());
            if rest.push(required.last()).contains(f) && f != required.last() {
                let k = choose|k: int| 0 <= k < rest.push(required.last()).len() && rest.push(required.last())[k] == f;
                assert(rest[k] == f);
            }
            if rest.contains(f) {
                let k = choose|k: int| 0 <= k < rest.len() && rest[k] == f;
                assert(rest.push(required.last())[k] == f);
            }
        }
    }
}

proof fn lemma_with_defaults_contains(
    fields: Seq<Seq<char>>,
    defaults: Map<Seq<char>, Seq<char>>,
    f: Seq<char>,
)
    ensures
        with_defaults(fields, defaults).contains(f) == (fields.contains(f) && defaults.contains_key(f)),
    decreases fields.len(),
{
    if fields.len() > 0 {
        let rest = with_defaults(fields.drop_last(), defaults);
        lemma_with_defaults_contains(fields.drop_last(), defaults, f);
        if fields.drop_last().contains(f) {
            let k = choose|k: int| 0 <= k < fields.drop_last().len() && fields.drop_last()[k] == f;
            assert(fields[k] == f);
        }
        if fields.contains(f) && f != fields.last() {
            let k = choose|k: int| 0 <= k < fields.len() && fields[k] == f;
            assert(fields.drop_last()[k] == f);
        }
        if defaults.contains_key(fields.last()) {
            assert(rest.push(fields.last())[rest.len() as int] == fields.last());
            if rest.push(fields.last()).contains(f) && f != fields.last() {
                let k = choose|k: int| 0 <= k < rest.push(fields.last()).len() && rest.push(fields.last())[k] == f;
                assert(rest[k] == f);
            }
            if rest.contains(f) {
                let k = choose|k: int| 0 <= k < rest.len() && rest[k] == f;
                assert(rest.push(fields.last())[k] == f);
            }
        }
    }
}

proof fn lemma_apply_patches_keys(doc: Map<Seq<char>, Seq<char>>, patches: Seq<Patch>, k: Seq<char>)
    ensures
        apply_patches(doc, patches).contains_key(k) == (doc.contains_key(k) || exists|i: int|
            0 <= i < patches.len() && #[trigger] patches[i].field@ == k),
        doc.contains_key(k) && !(exists|i: int| 0 <= i < patches.len() && #[trigger] patches[i].field@ == k)
            ==> apply_patches(doc, patches)[k] == doc[k],
    decreases patches.len(),
{
    if patches.len() > 0 {
        let init = patches.drop_last();
        lemma_apply_patches_keys(doc, init, k);
        if exists|i: int| 0 <= i < init.len() && #[trigger] init[i].field@ == k {
            let i = choose|i: int| 0 <= i < init.len() && #[trigger] init[i].field@ == k;
            assert(patches[i].field@ == k);
        }
        if exists|i: int| 0 <= i < patches.len() && #[trigger] patches[i].field@ == k {
            let i = choose|i: int| 0 <= i < patches.len() && #[trigger] patches[i].field@ == k;
            if i < init.len() {
                assert(init[i].field@ == k);
            }
        }
    }
}

/// Filling the fillable missing fields leaves no missing field that a default
/// could fill.
proof fn lemma_nothing_left_to_fill(
    required: Seq<Seq<char>>,
    defaults: Map<Seq<char>, Seq<char>>,
    doc: Map<Seq<char>, Seq<char>>,
    patches: Seq<Patch>,
)
    requires
        fills(patches, with_defaults(missing_in(required, doc), defaults), defaults),
    ensures
        with_defaults(missing_in(required, apply_patches(doc, patches)), defaults).len() == 0,
{
    let after = apply_patches(doc, patches);
    let fill = with_defaults(missing_in(required, doc), defaults);
    let left = with_defaults(missing_in(required, after), defaults);
    if left.len() > 0 {
        let f = left[0];
        assert(left.contains(f));
        lemma_with_defaults_contains(missing_in(required, after), defaults, f);
        lemma_missing_in_contains(required, after, f);
        lemma_apply_patches_keys(doc, patches, f);
        lemma_missing_in_contains(required, doc, f);
        lemma_with_defaults_contains(missing_in(required, doc), defaults, f);
        let k = choose|k: int| 0 <= k < fill.len() && fill[k] == f;
        assert(patches[k].field@ == f);
    }
}

impl Schema {
    /// The required fields, in order, that the document lacks.
    pub fn missing(&self, document: &Document) -> (r: Vec<String>)
        ensures
            views(r@) == missing_in(self.required.elements(), document@),
    {
        let required = self.required.items();
        let mut r: Vec<String> = Vec::new();
        let mut i: usize = 0;
        let ghost req = views(required@);
        assert(req.take(0) =~= Seq::<Seq<char>>::empty());
        while i < required.len()
            invariant
                i <= required.len(),
                req == views(required@),
                views(r@) == missing_in(req.take(i as int), document@),
            decreases required.len() - i,
        {
            let field = &required[i];
            assert(req.take(i + 1).drop_last() =~= req.take(i as int));
            assert(req.take(i + 1).last() == field@);
            if !document.contains_key(field.as_str()) {
                r.push(field.clone());
                assert(views(r@) =~= missing_in(req.take(i as int), document@).push(field@));
            }
            i = i + 1;
        }
        assert(req.take(i as int) =~= req);
        r
    }

    /// Repairs a document in at most `maximum_rounds` rounds. Each round sets
    /// every missing required field that has a default to that default,
    /// recording a patch; a round with nothing to set ends the repair. The
    /// witness says whether no required field is missing at the end.
    ///
    /// One round sets every fillable field, so a repair makes at most one
    /// round of patches.
    pub fn repair(&self, document: &mut Document, maximum_rounds: usize) -> (r: Witness)
        ensures
            ({
                let required = self.required.elements();
                let defaults = self.defaults@;
                let fill = with_defaults(missing_in(required, old(document)@), defaults);
                if maximum_rounds == 0 || fill.len() == 0 {
                    &&& final(document)@ == old(document)@
                    &&& r.rounds@.len() == 0
                    &&& r.converged == (missing_in(required, old(document)@).len() == 0)
                } else {
                    &&& r.rounds@.len() == 1
                    &&& fills(r.rounds@[0]@, fill, defaults)
                    &&& final(document)@ == apply_patches(old(document)@, r.rounds@[0]@)
                    &&& r.converged == (missing_in(required, final(document)@).len() == 0)
                }
            }),
    {
        let ghost required = self.required.elements();
        let ghost defaults = self.defaults@;
        let ghost doc0 = document@;
        let ghost fill = with_defaults(missing_in(required, doc0), defaults);
        let mut rounds: Vec<Vec<Patch>> = Vec::new();
        let mut round: usize = 0;
        while round < maximum_rounds
            invariant
                round <= maximum_rounds,
                doc0 == old(document)@,
                required == self.required.elements(),
                defaults == self.defaults@,
                fill == with_defaults(missing_in(required, doc0), defaults),
                round == 0 ==> rounds@.len() == 0 && document@ == doc0,
                round > 0 ==> {
                    &&& rounds@.len() == 1
                    &&& fill.len() > 0
                    &&& fills(rounds@[0]@, fill, defaults)
                    &&& document@ == apply_patches(doc0, rounds@[0]@)
                },
            decreases maximum_rounds - round,
        {
            let missing = self.missing(document);
            let ghost start = document@;
            let ghost mv = views(missing@);
            let mut patches: Vec<Patch> = Vec::new();
            let mut k: usize = 0;
            assert(mv.take(0) =~= Seq::<Seq<char>>::empty());
            while k < missing.len()
                invariant
                    k <= missing.len(),
                    mv == views(missing@),
                    defaults == self.defaults@,
                    fills(patches@, with_defaults(mv.take(k as int), defaults), defaults),
                    document@ == apply_patches(start, patches@),
                decreases missing.len() - k,
            {
                let field = &missing[k];
                assert(mv.take(k + 1).drop_last() =~= mv.take(k as int));
                assert(mv.take(k + 1).last() == field@);
                match self.defaults.get(field.as_str()) {
                    Some(default) => {
                        document.insert(field.clone(), default.clone());
                        let ghost before = patches@;
                        patches.push(Patch { field: field.clone(), before: None, after: default.clone() });
                        assert(patches@.drop_last() =~= before);
                        assert(fills(patches@, with_defaults(mv.take(k + 1), defaults), defaults)) by {
                            let w = with_defaults(mv.take(k + 1), defaults);
                            assert(w == with_defaults(mv.take(k as int), defaults).push(field@));
                            assert forall|i: int| 0 <= i < patches@.len() implies {
                                &&& #[trigger] patches@[i].field@ == w[i]
                                &&& patches@[i].before is None
                                &&& patches@[i].after@ == defaults[w[i]]
                            } by {
                                if i < before.len() {
                                    assert(patches@[i] == before[i]);
                                }
                            }
                        }
                    },
                    None => {},
                }
                k = k + 1;
            }
            assert(mv.take(k as int) =~= mv);
            if patches.len() == 0 {
                proof {
                    if round > 0 {
                        lemma_nothing_left_to_fill(required, defaults, doc0, rounds@[0]@);
                    }
                    assert(apply_patches(start, patches@) == start);
                    if round == 0 {
                        assert(mv == missing_in(required, doc0));
                        assert(fill.len() == 0);
                    }
                }
                let left = self.missing(document);
                assert(views(left@).len() == left@.len());
                return Witness { rounds, converged: left.len() == 0 };
            }
            proof {
                if round > 0 {
                    lemma_nothing_left_to_fill(required, defaults, doc0, rounds@[0]@);
                    assert(false);
                }
            }
            rounds.push(patches);
            round = round + 1;
        }
        let left = self.missing(document);
        assert(views(left@).len() == left@.len());
        Witness { rounds, converged: left.len() == 0 }
    }
}

/// Replays a witness on the original document: every patch of every round,
/// in order, sets its field to its new value.
pub fn replay(original: &Document, witness: &Witness) -> (r: Document)
    ensures
        r@ == apply_rounds(original@, witness.rounds@),
{
    let mut document = original.clone();
    let mut i: usize = 0;
    assert(witness.rounds@.take(0) =~= Seq::<Vec<Patch>>::empty());
    while i < witness.rounds.len()
        invariant
            i <= witness.rounds.len(),
            document@ == apply_rounds(original@, witness.rounds@.take(i as int)),
        decreases witness.rounds.len() - i,
    {
        let round = &witness.rounds[i];
        let ghost start = document@;
        let mut j: usize = 0;
        assert(round@.take(0) =~= Seq::<Patch>::empty());
        while j < round.len()
            invariant
                j <= round.len(),
                document@ == apply_patches(start, round@.take(j as int)),
            decreases round.len() - j,
        {
            let patch = &round[j];
            document.insert(patch.field.clone(), patch.after.clone());
            assert(round@.take(j + 1).drop_last() =~= round@.take(j as int));
            j = j + 1;
        }
        assert(round@.take(j as int) =~= round@);
        assert(witness.rounds@.take(i + 1).drop_last() =~= witness.rounds@.take(i as int));
        i = i + 1;
    }
    assert(witness.rounds@.take(i as int) =~= witness.rounds@);
    document
}

/// Replaying the witness of a repair on the original document gives the
/// repaired document.
pub proof fn lemma_replay_reproduces_repair(
    original: Map<Seq<char>, Seq<char>>,
    repaired: Map<Seq<char>, Seq<char>>,
    rounds: Seq<Vec<Patch>>,
)
    requires
        rounds.len() == 0 ==> repaired == original,
        rounds.len() == 1 ==> repaired == apply_patches(original, rounds[0]@),
        rounds.len() <= 1,
    ensures
        apply_rounds(original, rounds) == repaired,
{
    if rounds.len() == 1 {
        assert(rounds.drop_last() =~= Seq::<Vec<Patch>>::empty());
        assert(rounds.last() == rounds[0]);
        assert(apply_rounds(original, rounds.drop_last()) == original);
    }
}

/// Repair is idempotent: after a repair, nothing is left that a default
/// could fill, so repairing again makes no patch and changes nothing.
pub proof fn lemma_repair_idempotent(
    required: Seq<Seq<char>>,
    defaults: Map<Seq<char>, Seq<char>>,
    doc: Map<Seq<char>, Seq<char>>,
    patches: Seq<Patch>,
)
    requires
        fills(patches, with_defaults(missing_in(required, doc), defaults), defaults),
    ensures
        with_defaults(missing_in(required, apply_patches(doc, patches)), defaults).len() == 0,
{
    lemma_nothing_left_to_fill(required, defaults, doc, patches);
}

/// Repair only adds: every field the document had keeps its value, and the
/// repaired document has every field it had.
pub proof fn lemma_repair_preserves_fields(
    required: Seq<Seq<char>>,
    defaults: Map<Seq<char>, Seq<char>>,
    doc: Map<Seq<char>, Seq<char>>,
    patches: Seq<Patch>,
    k: Seq<char>,
)
    requires
        fills(patches, with_defaults(missing_in(required, doc), defaults), defaults),
        doc.contains_key(k),
    ensures
        apply_patches(doc, patches).contains_key(k),
        apply_patches(doc, patches)[k] == doc[k],
{
    lemma_apply_patches_keys(doc, patches, k);
    let fill = with_defaults(missing_in(required, doc), defaults);
    if exists|i: int| 0 <= i < patches.len() && #[trigger] patches[i].field@ == k {
        let i = choose|i: int| 0 <= i < patches.len() && #[trigger] patches[i].field@ == k;
        assert(fill[i] == k);
        assert(fill.contains(k));
        lemma_with_defaults_contains(missing_in(required, doc), defaults, k);
        lemma_missing_in_contains(required, doc, k);
    }
}

} // verus!
