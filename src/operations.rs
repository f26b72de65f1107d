//! Contract operations and the bundles that commit batches of transitions.

use vstd::prelude::*;

use crate::{BundleId, OpId, Txid};

verus! {

/// An output of an operation: the operation, the assignment type and the
/// index of the assignment.
#[derive(Clone, Copy, Debug, PartialEq, Eq, Structural)]
pub struct Opout {
    pub op: OpId,
    pub ty: u16,
    pub no: u16,
}

/// A transaction output, which single-use seals close over.
#[derive(Clone, Copy, Debug, PartialEq, Eq, Structural)]
pub struct Outpoint {
    pub txid: Txid,
    pub vout: u32,
}

pub struct TransitionModel {
    pub id: OpId,
    pub inputs: Seq<Opout>,
    pub seals: Seq<Option<Outpoint>>,
}

/// A state transition: the outputs it spends and, for each assignment it
/// makes, the seal it assigns to when that seal is revealed.
#[derive(Clone, Debug)]
pub struct Transition {
    pub id: OpId,
    pub inputs: Vec<Opout>,
    pub seals: Vec<Option<Outpoint>>,
}

/// Whether a transition spends an output of operation `op`.
pub open spec fn spends(t: TransitionModel, op: OpId) -> bool {
    exists|i: int| 0 <= i < t.inputs.len() && t.inputs[i].op == op
}

impl Transition {
    pub open spec fn view(&self) -> TransitionModel {
        TransitionModel { id: self.id, inputs: self.inputs@, seals: self.seals@ }
    }

    /// A copy of the transition.
    pub fn duplicate(&self) -> (r: Transition)
        ensures
            r.view() == self.view(),
    {
        let mut inputs: Vec<Opout> = Vec::new();
        let mut i: usize = 0;
        while i < self.inputs.len()
            invariant
                i <= self.inputs@.len(),
                inputs@ == self.inputs@.subrange(0, i as int),
            decreases self.inputs@.len() - i,
        {
            inputs.push(self.inputs[i]);
            i += 1;
            assert(inputs@ =~= self.inputs@.subrange(0, i as int));
        }
        let mut seals: Vec<Option<Outpoint>> = Vec::new();
        let mut j: usize = 0;
        while j < self.seals.len()
            invariant
                j <= self.seals@.len(),
                seals@ == self.seals@.subrange(0, j as int),
            decreases self.seals@.len() - j,
        {
            seals.push(self.seals[j]);
            j += 1;
            assert(seals@ =~= self.seals@.subrange(0, j as int));
        }
        assert(inputs@ =~= self.inputs@);
        assert(seals@ =~= self.seals@);
        Transition { id: self.id, inputs, seals }
    }

    /// Whether the transition spends an output of operation `op`.
    pub fn spends(&self, op: OpId) -> (r: bool)
        ensures
            r == spends(self.view(), op),
    {
        let mut i: usize = 0;
        while i < self.inputs.len()
            invariant
                i <= self.inputs@.len(),
                forall|k: int| 0 <= k < i ==> self.inputs@[k].op != op,
            decreases self.inputs@.len() - i,
        {
            if self.inputs[i].op == op {
                assert(self.view().inputs[i as int].op == op);
                return true;
            }
            i += 1;
        }
        false
    }
}

/// A state extension: an operation that may be referenced by transitions.
#[derive(Clone, Copy, Debug, PartialEq, Eq, Structural)]
pub struct Extension {
    pub id: OpId,
}

/// An entry of a bundle: an operation, revealed or concealed.
#[derive(Clone, Debug)]
pub struct BundleItem {
    pub opid: OpId,
    pub transition: Option<Transition>,
}

pub open spec fn item_view(it: BundleItem) -> (OpId, Option<TransitionModel>) {
    (
        it.opid,
        match it.transition {
            Some(t) => Some(t.view()),
            None => None,
        },
    )
}

/// Whether a bundle entry reveals the transition of operation `op`.
pub open spec fn reveals(it: BundleItem, op: OpId) -> bool {
    it.transition matches Some(t) && t.id == op
}

/// A bundle with `t` revealed at the entry for its operation, where that
/// entry was concealed.
pub open spec fn reveal_spec(items: Seq<(OpId, Option<TransitionModel>)>, t: TransitionModel) -> Seq<
    (OpId, Option<TransitionModel>),
> {
    items.map_values(
        |e: (OpId, Option<TransitionModel>)|
            if e.0 == t.id && e.1 is None {
                (e.0, Some(t))
            } else {
                e
            },
    )
}

/// A bundle with every transition that `b` reveals revealed in `a` as well,
/// or the first operation that `b` reveals and `a` has no entry for.
pub open spec fn reveal_all(
    a: Seq<(OpId, Option<TransitionModel>)>,
    b: Seq<(OpId, Option<TransitionModel>)>,
) -> Result<Seq<(OpId, Option<TransitionModel>)>, OpId>
    decreases b.len(),
{
    if b.len() == 0 {
        Ok(a)
    } else {
        match reveal_all(a, b.drop_last()) {
            Err(op) => Err(op),
            Ok(m) => match b.last().1 {
                None => Ok(m),
                Some(t) => if m.map_values(|e: (OpId, Option<TransitionModel>)| e.0).contains(t.id) {
                    Ok(reveal_spec(m, t))
                } else {
                    Err(t.id)
                },
            },
        }
    }
}

/// Once revealing a prefix of `b` fails, revealing all of `b` fails the
/// same way.
proof fn lemma_reveal_all_prefix(
    a: Seq<(OpId, Option<TransitionModel>)>,
    b: Seq<(OpId, Option<TransitionModel>)>,
    n: int,
)
    requires
        0 <= n <= b.len(),
        reveal_all(a, b.subrange(0, n)) is Err,
    ensures
        reveal_all(a, b) == reveal_all(a, b.subrange(0, n)),
    decreases b.len() - n,
{
    if n < b.len() {
        let next = b.subrange(0, n + 1);
        assert(next.drop_last() =~= b.subrange(0, n));
        lemma_reveal_all_prefix(a, b, n + 1);
    } else {
        assert(b.subrange(0, n) =~= b);
    }
}

/// Whether a bundle, seen as its entries, reveals the transition of `op`.
pub open spec fn view_reveals(v: Seq<(OpId, Option<TransitionModel>)>, op: OpId) -> bool {
    exists|j: int| 0 <= j < v.len() && entry_reveals(#[trigger] v[j], op)
}

pub open spec fn entry_reveals(e: (OpId, Option<TransitionModel>), op: OpId) -> bool {
    e.1 matches Some(m) && m.id == op
}

/// A revealed entry holds the transition of its own operation.
pub open spec fn entry_consistent(e: (OpId, Option<TransitionModel>)) -> bool {
    e.1 matches Some(m) ==> m.id == e.0
}

/// Revealing a transition keeps every revealed entry, and reveals the
/// transition where its operation has an entry whose revealed content, if
/// any, is of that operation.
pub proof fn lemma_reveal_keeps(v: Seq<(OpId, Option<TransitionModel>)>, t: TransitionModel)
    ensures
        forall|x: OpId| view_reveals(v, x) ==> view_reveals(reveal_spec(v, t), x),
        (v.map_values(|e: (OpId, Option<TransitionModel>)| e.0).contains(t.id) && forall|j: int|
            0 <= j < v.len() ==> entry_consistent(#[trigger] v[j])) ==> view_reveals(
            reveal_spec(v, t),
            t.id,
        ),
{
    let r = reveal_spec(v, t);
    assert forall|x: OpId| view_reveals(v, x) implies view_reveals(r, x) by {
        let j = choose|j: int| 0 <= j < v.len() && entry_reveals(#[trigger] v[j], x);
        assert(r[j] == v[j]);
    }
    let ids = v.map_values(|e: (OpId, Option<TransitionModel>)| e.0);
    if ids.contains(t.id) && forall|j: int| 0 <= j < v.len() ==> entry_consistent(#[trigger] v[j]) {
        let j = choose|j: int| 0 <= j < ids.len() && ids[j] == t.id;
        assert(v[j].0 == t.id);
        assert(entry_consistent(v[j]));
        assert(entry_reveals(r[j], t.id));
    }
}

/// Revealing a transition whose entries are all revealed already changes
/// nothing.
pub proof fn lemma_reveal_noop(v: Seq<(OpId, Option<TransitionModel>)>, t: TransitionModel)
    requires
        forall|k: int| 0 <= k < v.len() && (#[trigger] v[k]).0 == t.id ==> v[k].1 is Some,
    ensures
        reveal_spec(v, t) == v,
{
    assert(reveal_spec(v, t) =~= v);
}

/// Revealing a transition keeps the operations a bundle has entries for.
pub proof fn lemma_reveal_ids(v: Seq<(OpId, Option<TransitionModel>)>, t: TransitionModel)
    ensures
        reveal_spec(v, t).map_values(|e: (OpId, Option<TransitionModel>)| e.0) == v.map_values(
            |e: (OpId, Option<TransitionModel>)| e.0,
        ),
{
    assert(reveal_spec(v, t).map_values(|e: (OpId, Option<TransitionModel>)| e.0) =~= v.map_values(
        |e: (OpId, Option<TransitionModel>)| e.0,
    ));
}

/// In a well-formed bundle each revealed entry is of its own operation.
pub proof fn lemma_wf_consistent(b: TransitionBundle)
    requires
        b.wf(),
    ensures
        forall|j: int| 0 <= j < b.view().len() ==> entry_consistent(#[trigger] b.view()[j]),
{
    assert forall|j: int| 0 <= j < b.view().len() implies entry_consistent(#[trigger] b.view()[j]) by {
        assert(b.view()[j] == item_view(b.items@[j]));
        assert(b.items@[j].transition matches Some(t) ==> t.id == b.items@[j].opid);
    }
}

/// Why a transition could not be revealed in a bundle.
#[derive(Clone, Copy, Debug, PartialEq, Eq, Structural)]
pub enum RevealError {
    /// The bundle has no entry for the transition's operation.
    UnrelatedTransition(OpId),
}

/// A batch of transitions committed together under one anchor. Entries may
/// be concealed; revealing one never changes the bundle's identifier.
#[derive(Clone, Debug)]
pub struct TransitionBundle {
    pub id: BundleId,
    pub items: Vec<BundleItem>,
}

impl TransitionBundle {
    pub open spec fn view(&self) -> Seq<(OpId, Option<TransitionModel>)> {
        self.items@.map_values(|it: BundleItem| item_view(it))
    }

    /// Each operation has one entry, and a revealed entry holds the
    /// transition of that operation.
    pub open spec fn wf(&self) -> bool {
        &&& forall|i: int, j: int|
            0 <= i < j < self.items@.len() ==> self.items@[i].opid != self.items@[j].opid
        &&& forall|i: int|
            0 <= i < self.items@.len() ==> ((#[trigger] self.items@[i]).transition matches Some(t)
                ==> t.id == self.items@[i].opid)
    }

    /// Reveals in `self` every transition that `other` reveals. Both must be
    /// copies of one bundle.
    pub fn merge_reveal(self, other: TransitionBundle) -> (r: Result<TransitionBundle, RevealError>)
        requires
            self.wf(),
            other.wf(),
            self.id == other.id,
        ensures
            match r {
                Ok(m) => m.wf() && m.id == self.id && reveal_all(self.view(), other.view()) == Ok::<
                    Seq<(OpId, Option<TransitionModel>)>,
                    OpId,
                >(m.view()),
                Err(RevealError::UnrelatedTransition(op)) => reveal_all(self.view(), other.view())
                    == Err::<Seq<(OpId, Option<TransitionModel>)>, OpId>(op),
            },
    {
        let mut merged = self;
        let mut i: usize = 0;
        while i < other.items.len()
            invariant
                merged.wf(),
                merged.id == self.id,
                i <= other.items@.len(),
                reveal_all(self.view(), other.view().subrange(0, i as int)) == Ok::<
                    Seq<(OpId, Option<TransitionModel>)>,
                    OpId,
                >(merged.view()),
            decreases other.items@.len() - i,
        {
            let ghost pre = other.view().subrange(0, i + 1);
            assert(pre.drop_last() =~= other.view().subrange(0, i as int));
            assert(pre.last() == item_view(other.items@[i as int]));
            if let Some(t) = &other.items[i].transition {
                match merged.reveal_transition(t) {
                    Ok(()) => {},
                    Err(e) => {
                        proof {
                            lemma_reveal_all_prefix(self.view(), other.view(), i as int + 1);
                        }
                        return Err(e);
                    },
                }
            }
            i += 1;
        }
        assert(other.view().subrange(0, other.items@.len() as int) =~= other.view());
        Ok(merged)
    }

    /// A copy of the bundle.
    pub fn duplicate(&self) -> (r: TransitionBundle)
        requires
            self.wf(),
        ensures
            r.wf(),
            r.id == self.id,
            r.view() == self.view(),
    {
        let mut items: Vec<BundleItem> = Vec::new();
        let mut i: usize = 0;
        while i < self.items.len()
            invariant
                self.wf(),
                i <= self.items@.len(),
                items@.len() == i,
                forall|k: int| 0 <= k < i ==> item_view(#[trigger] items@[k]) == item_view(self.items@[k]),
                forall|k: int| 0 <= k < i ==> (#[trigger] items@[k]).opid == self.items@[k].opid,
            decreases self.items@.len() - i,
        {
            let opid = self.items[i].opid;
            let transition = match &self.items[i].transition {
                Some(t) => Some(t.duplicate()),
                None => None,
            };
            items.push(BundleItem { opid, transition });
            i += 1;
        }
        let r = TransitionBundle { id: self.id, items };
        proof {
            assert(r.view() =~= self.view());
            assert forall|k: int| 0 <= k < r.items@.len() implies ((#[trigger] r.items@[k]).transition matches Some(t)
                ==> t.id == r.items@[k].opid) by {
                assert(item_view(r.items@[k]) == item_view(self.items@[k]));
            }
        }
        r
    }

    pub fn bundle_id(&self) -> (r: BundleId)
        ensures
            r == self.id,
    {
        self.id
    }

    /// Reveals `t` in the entry for its operation. Fails if the bundle has no
    /// such entry; an entry that is revealed already stays as it is.
    pub fn reveal_transition(&mut self, t: &Transition) -> (r: Result<(), RevealError>)
        requires
            old(self).wf(),
        ensures
            final(self).wf(),
            final(self).id == old(self).id,
            r is Ok <==> old(self).view().map_values(|e: (OpId, Option<TransitionModel>)| e.0).contains(
                t.id,
            ),
            r is Ok ==> final(self).view() == reveal_spec(old(self).view(), t.view()),
            r is Err ==> r == Err::<(), RevealError>(RevealError::UnrelatedTransition(t.id))
                && final(self).view() == old(self).view(),
    {
        let ghost ids = self.view().map_values(|e: (OpId, Option<TransitionModel>)| e.0);
        let mut i: usize = 0;
        while i < self.items.len()
            invariant
                self.wf(),
                self.id == old(self).id,
                i <= self.items@.len(),
                self.items@.len() == old(self).items@.len(),
                ids == old(self).view().map_values(|e: (OpId, Option<TransitionModel>)| e.0),
                self.view() == old(self).view(),
                forall|k: int| 0 <= k < i ==> self.items@[k].opid != t.id,
            decreases self.items@.len() - i,
        {
            if self.items[i].opid == t.id {
                let ghost before = self.view();
                assert(ids[i as int] == t.id);
                if self.items[i].transition.is_none() {
                    let copy = t.duplicate();
                    let opid = self.items[i].opid;
                    self.items.set(i, BundleItem { opid, transition: Some(copy) });
                }
                proof {
                    assert(self.view() =~= reveal_spec(before, t.view())) by {
                        assert forall|k: int| 0 <= k < before.len() implies self.view()[k] == reveal_spec(
                            before,
                            t.view(),
                        )[k] by {
                            if k != i {
                                assert(self.items@[k].opid != t.id);
                            }
                        }
                    }
                }
                return Ok(());
            }
            i += 1;
        }
        proof {
            assert forall|k: int| 0 <= k < ids.len() implies ids[k] != t.id by {
                assert(ids[k] == self.items@[k].opid);
            }
        }
        Err(RevealError::UnrelatedTransition(t.id))
    }
}

} // verus!
