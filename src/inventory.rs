//! A store of contract data, and the consignments it builds from it.

use vstd::prelude::*;

use crate::anchors::{AnchoredBundle, MergeRevealError};
use crate::consignment::{
    contains_id, Consignment, ContractId, Genesis, IfaceId, IfaceImplId, Schema, SchemaId, Status,
    Terminal, CONTAINER_VERSION,
};
use crate::operations::{
    item_view, lemma_reveal_ids, lemma_reveal_keeps, reveal_spec, lemma_reveal_noop, lemma_wf_consistent, spends, view_reveals,
    Opout, Outpoint, RevealError, Transition, TransitionModel,
};
use crate::{BundleId, OpId, Txid};

verus! {

/// A failure of the stash's own invariants: a defect, not the caller's
/// fault.
#[derive(Clone, Copy, Debug, PartialEq, Eq, Structural)]
pub enum InventoryInconsistency {
    /// No state is known for a contract.
    StateAbsent(ContractId),
    /// No disclosure is known for a witness transaction.
    DisclosureAbsent(Txid),
    /// No bundle holds the operation.
    BundleAbsent(OpId),
    /// A bundle holds the operation only in concealed form.
    TransitionConcealed(OpId),
    /// A bundle has no anchor.
    NoBundleAnchor(BundleId),
    /// An anchor does not commit to its bundle.
    UnrelatedAnchor,
    /// A transition could not be revealed in its bundle.
    BundleReveal(RevealError),
    /// A bundle holds more transitions than it may.
    OutsizedBundle,
}

/// Why an interface implementation could not be used.
#[derive(Clone, Copy, Debug, PartialEq, Eq, Structural)]
pub enum IfaceImplError {
    UnknownSchema(SchemaId),
    UnknownIface(IfaceId),
}

/// Why outside data was not admitted.
#[derive(Clone, Copy, Debug, PartialEq, Eq, Structural)]
pub enum DataError {
    /// The consignment was never validated.
    NotValidated,
    /// The consignment failed validation.
    Invalid(Status),
    /// Some referenced transactions could not be resolved.
    UnresolvedTransactions,
    /// Some terminals are not mined yet.
    TerminalsUnmined,
    Reveal(RevealError),
    Merge(MergeRevealError),
    /// The outpoint holds no state of the contract.
    OutpointUnknown(Outpoint, ContractId),
    /// A collection would exceed its maximum size.
    Confinement,
    IfaceImpl(IfaceImplError),
}

/// Errors of operations that import data.
#[derive(Clone, Copy, Debug, PartialEq, Eq, Structural)]
pub enum InventoryDataError {
    DataError(DataError),
}

/// Errors of operations on the inventory.
#[derive(Clone, Copy, Debug, PartialEq, Eq, Structural)]
pub enum InventoryError {
    DataError(DataError),
    InternalInconsistency(InventoryInconsistency),
}

/// Why a consignment could not be built.
#[derive(Clone, Copy, Debug, PartialEq, Eq, Structural)]
pub enum ConsignerError {
    /// The consignment would hold more terminals than it may.
    TooManyTerminals,
    /// The consignment would hold more bundles than it may.
    TooManyBundles,
    Reveal(RevealError),
    InventoryError(InventoryError),
}

/// The largest number of bundles a consignment holds.
pub const MAX_BUNDLES: usize = 0xFFFF_FFFF;

/// The largest number of terminals a consignment holds.
pub const MAX_TERMINALS: usize = 0xFFFF;

/// The data a store holds on one contract: its schema and genesis, the
/// interface implementations of the schema, the anchored bundles known, the
/// outputs that are public, and which outputs assign state to which
/// outpoints.
#[derive(Clone, Debug)]
pub struct Inventory {
    pub schema: Schema,
    pub genesis: Genesis,
    pub iimpls: Vec<(IfaceId, IfaceImplId)>,
    pub bundles: Vec<AnchoredBundle>,
    pub public: Vec<Opout>,
    pub allocations: Vec<(Outpoint, Opout)>,
}

/// Whether `bundles` hold an entry for operation `opid`.
pub open spec fn has_entry(bundles: Seq<AnchoredBundle>, opid: OpId) -> bool {
    exists|i: int, j: int|
        0 <= i < bundles.len() && 0 <= j < bundles[i].bundle.items@.len()
            && bundles[i].bundle.items@[j].opid == opid
}

/// `bundles[i]` is the first of `bundles` with an entry for `opid`.
pub open spec fn first_holder(bundles: Seq<AnchoredBundle>, opid: OpId, i: int) -> bool {
    &&& 0 <= i < bundles.len()
    &&& has_entry(seq![bundles[i]], opid)
    &&& forall|k: int| 0 <= k < i ==> !has_entry(seq![bundles[k]], opid)
}

/// The first bundle with an entry for `opid` reveals `t` there.
pub open spec fn holds_transition(bundles: Seq<AnchoredBundle>, opid: OpId, t: Transition) -> bool {
    exists|i: int, j: int|
        first_holder(bundles, opid, i) && 0 <= j < bundles[i].bundle.items@.len()
            && bundles[i].bundle.items@[j].opid == opid && bundles[i].bundle.items@[j].transition
            == Some(t)
}

/// The first bundle with an entry for `opid` reveals its transition there.
pub open spec fn first_reveals(bundles: Seq<AnchoredBundle>, opid: OpId) -> bool {
    exists|i: int, j: int|
        first_holder(bundles, opid, i) && 0 <= j < bundles[i].bundle.items@.len()
            && bundles[i].bundle.items@[j].opid == opid && bundles[i].bundle.items@[j].transition is Some
}

/// The identifier of the first bundle with an entry for `opid`.
pub open spec fn holder_id(bundles: Seq<AnchoredBundle>, opid: OpId) -> BundleId {
    bundles[choose|i: int| first_holder(bundles, opid, i)].bundle.id
}

/// `y` is an operation other than genesis that the transition of `x`, as
/// its first holder reveals it, spends from.
pub open spec fn parent(inv: Inventory, x: OpId, y: OpId) -> bool {
    y != inv.genesis.id && exists|t: Transition|
        #[trigger] holds_transition(inv.bundles@, x, t) && spends(t.view(), y)
}

/// `x` is the operation of a requested output.
pub open spec fn requested_op(inv: Inventory, outpoints: Seq<Outpoint>, x: OpId) -> bool {
    exists|o: Opout| #[trigger] requested(inv, outpoints, o) && o.op == x
}

/// `path` leads from a requested operation backward, each step to an
/// operation the previous one spends from.
pub open spec fn chain_to(inv: Inventory, outpoints: Seq<Outpoint>, path: Seq<OpId>) -> bool {
    &&& path.len() > 0
    &&& requested_op(inv, outpoints, path[0])
    &&& forall|k: int| 1 <= k < path.len() ==> parent(inv, path[k - 1], #[trigger] path[k])
}

/// The backward closure: the requested operations and every operation
/// other than genesis that they descend from.
pub open spec fn in_closure(inv: Inventory, outpoints: Seq<Outpoint>, x: OpId) -> bool {
    exists|path: Seq<OpId>| #[trigger] chain_to(inv, outpoints, path) && path.last() == x
}

/// The identifiers of the bundles that first hold the closure's operations.
pub open spec fn closure_bundle_ids(inv: Inventory, outpoints: Seq<Outpoint>) -> Set<BundleId> {
    Set::new(|b: BundleId| exists|x: OpId| in_closure(inv, outpoints, x) && holder_id(inv.bundles@, x) == b)
}

/// The terminals owed: each seal that the transition of a requested output
/// reveals, in the bundle first holding that transition.
pub open spec fn closure_terminals(inv: Inventory, outpoints: Seq<Outpoint>) -> Set<Terminal> {
    Set::new(
        |term: Terminal|
            exists|o: Opout, t: Transition|
                #[trigger] requested(inv, outpoints, o) && #[trigger] holds_transition(inv.bundles@, o.op, t)
                    && t.seals@.contains(Some(term.seal)) && term.bundle_id == holder_id(inv.bundles@, o.op),
    )
}

/// Every operation of the closure is revealed where it is first held.
pub open spec fn lookups_ok(inv: Inventory, outpoints: Seq<Outpoint>) -> bool {
    forall|x: OpId| in_closure(inv, outpoints, x) ==> first_reveals(inv.bundles@, x)
}

/// The identifiers of the bundles first holding the operations of `vis`.
pub open spec fn visited_ids(bundles: Seq<AnchoredBundle>, vis: Seq<OpId>) -> Set<BundleId> {
    Set::new(|b: BundleId| exists|x: OpId| vis.contains(x) && holder_id(bundles, x) == b)
}

/// The transition noted for `v` is the one its first holder reveals.
pub open spec fn noted_first(bundles: Seq<AnchoredBundle>, tv: Map<OpId, TransitionModel>, v: OpId) -> bool {
    exists|t: Transition| #[trigger] holds_transition(bundles, v, t) && t.view() == tv[v]
}

/// No two of `bundles` share an identifier, and each is well formed.
pub open spec fn distinct_bundles(bundles: Seq<AnchoredBundle>) -> bool {
    &&& forall|i: int, j: int| 0 <= i < j < bundles.len() ==> bundles[i].bundle.id != bundles[j].bundle.id
    &&& forall|i: int| 0 <= i < bundles.len() ==> (#[trigger] bundles[i]).bundle.wf()
}

/// Whether `op` is accounted for: genesis, visited, or still to visit.
pub open spec fn closed_ref(op: OpId, genesis: OpId, vis: Seq<OpId>, st: Seq<OpId>) -> bool {
    op == genesis || vis.contains(op) || st.contains(op)
}

/// Every output the transition noted for `v` spends is accounted for.
pub open spec fn covered(
    tv: Map<OpId, TransitionModel>,
    v: OpId,
    genesis: OpId,
    vis: Seq<OpId>,
    st: Seq<OpId>,
) -> bool {
    forall|k: int|
        0 <= k < tv[v].inputs.len() ==> closed_ref(#[trigger] tv[v].inputs[k].op, genesis, vis, st)
}

/// Whether some bundle of the stash reveals exactly the transition `t`.
pub open spec fn stash_holds(bundles: Seq<AnchoredBundle>, t: TransitionModel) -> bool {
    exists|i: int, j: int|
        0 <= i < bundles.len() && 0 <= j < bundles[i].bundle.items@.len() && item_view(
            bundles[i].bundle.items@[j],
        ).1 == Some(t)
}

/// Every seal that the transition noted for `op` reveals is a terminal, in
/// the bundle first holding `op`.
pub open spec fn seals_terminal(
    tv: Map<OpId, TransitionModel>,
    op: OpId,
    terms: Seq<Terminal>,
    bundles: Seq<AnchoredBundle>,
) -> bool {
    forall|s: Outpoint|
        #[trigger] tv[op].seals.contains(Some(s)) ==> terms.contains(
            (Terminal { bundle_id: holder_id(bundles, op), seal: s }),
        )
}

/// The consignment `c` is connected to genesis through the operations
/// `vis`: they include every requested output's operation, each is revealed
/// in `c`, and each is a transition of the stash (noted in `tv`) whose every
/// input is genesis or again one of `vis`; the seals the requested
/// transitions reveal are terminals of `c`.
pub open spec fn connected<const TYPE: bool>(
    inv: Inventory,
    outpoints: Seq<Outpoint>,
    c: Consignment<TYPE>,
    vis: Seq<OpId>,
    tv: Map<OpId, TransitionModel>,
) -> bool {
    &&& forall|o: Opout| #[trigger] requested(inv, outpoints, o) ==> vis.contains(o.op)
    &&& forall|o: Opout| #[trigger] requested(inv, outpoints, o) ==> seals_terminal(
        tv,
        o.op,
        c.terminals@,
        inv.bundles@,
    )
    &&& forall|v: OpId|
        #[trigger] vis.contains(v) ==> {
            &&& revealed(c.bundles@, v)
            &&& tv.dom().contains(v)
            &&& tv[v].id == v
            &&& stash_holds(inv.bundles@, tv[v])
            &&& covered(tv, v, inv.genesis.id, vis, Seq::empty())
        }
}


/// The operations a bundle has entries for, in order.
pub open spec fn opids(b: AnchoredBundle) -> Seq<OpId> {
    b.bundle.view().map_values(|e: (OpId, Option<TransitionModel>)| e.0)
}

/// Each of `collected` is a copy of the bundle of `stash` with its
/// identifier: the same entries and the same anchor.
pub open spec fn mirrors_stash(collected: Seq<AnchoredBundle>, stash: Seq<AnchoredBundle>) -> bool {
    forall|k: int|
        0 <= k < collected.len() ==> exists|m: int|
            0 <= m < stash.len() && stash[m].bundle.id == (#[trigger] collected[k]).bundle.id
                && same_bundle(collected[k], stash[m])
}

/// Two anchored bundles hold the same anchor and the same entries.
pub open spec fn same_bundle(a: AnchoredBundle, b: AnchoredBundle) -> bool {
    &&& a.anchor.txid == b.anchor.txid
    &&& a.anchor.known@ == b.anchor.known@
    &&& a.bundle.view() == b.bundle.view()
}

/// The identifiers of `bundles`.
pub open spec fn bundle_ids(bundles: Seq<AnchoredBundle>) -> Set<BundleId> {
    bundles.map_values(|a: AnchoredBundle| a.bundle.id).to_set()
}

/// What building a consignment of contract `cid` for `outpoints`, within
/// `max_bundles` bundles and `max_terminals` terminals, returns. For another
/// contract: that its state is absent. Where the closure's transitions are
/// revealed where first held: the consignment, unless its bundles (checked
/// first) or terminals would exceed their bounds. A consignment holds the
/// schema, genesis and interfaces, the bundles first holding the closure's
/// operations, each once, with those operations revealed and connected to
/// genesis, and the closure's terminals, each once.
pub open spec fn consign_outcome<const TYPE: bool>(
    inv: Inventory,
    cid: ContractId,
    outpoints: Seq<Outpoint>,
    max_bundles: usize,
    max_terminals: usize,
    r: Result<Consignment<TYPE>, ConsignerError>,
) -> bool {
    &&& (cid != inv.genesis.contract_id ==> r == Err::<Consignment<TYPE>, ConsignerError>(
        ConsignerError::InventoryError(
            InventoryError::InternalInconsistency(InventoryInconsistency::StateAbsent(cid)),
        ),
    ))
    &&& (r matches Ok(c) ==> {
        &&& cid == inv.genesis.contract_id
        &&& c.schema == inv.schema
        &&& c.genesis == inv.genesis
        &&& c.transfer == TYPE
        &&& c.version == CONTAINER_VERSION
        &&& c.validation_status is None
        &&& c.ifaces@ == inv.iimpls@
        &&& c.extensions@.len() == 0
        &&& c.bundles@.len() <= max_bundles
        &&& c.terminals@.len() <= max_terminals
        &&& c.terminals@.no_duplicates()
        &&& distinct_bundles(c.bundles@)
        &&& mirrors_stash(c.bundles@, inv.bundles@)
        &&& forall|o: Opout| #[trigger] requested(inv, outpoints, o) ==> revealed(c.bundles@, o.op)
        &&& exists|vis: Seq<OpId>, tv: Map<OpId, TransitionModel>| connected(inv, outpoints, c, vis, tv)
        &&& bundle_ids(c.bundles@) == closure_bundle_ids(inv, outpoints)
        &&& c.terminals@.to_set() == closure_terminals(inv, outpoints)
    })
    &&& (cid == inv.genesis.contract_id && lookups_ok(inv, outpoints) ==> {
        &&& closure_bundle_ids(inv, outpoints).finite()
        &&& (r is Ok || r == Err::<Consignment<TYPE>, ConsignerError>(ConsignerError::TooManyBundles)
            || r == Err::<Consignment<TYPE>, ConsignerError>(ConsignerError::TooManyTerminals))
        &&& closure_terminals(inv, outpoints).finite()
        &&& (r == Err::<Consignment<TYPE>, ConsignerError>(ConsignerError::TooManyBundles)
            <==> closure_bundle_ids(inv, outpoints).len() > max_bundles)
        &&& (r == Err::<Consignment<TYPE>, ConsignerError>(ConsignerError::TooManyTerminals)
            <==> closure_bundle_ids(inv, outpoints).len() <= max_bundles
            && closure_terminals(inv, outpoints).len() > max_terminals)
    })
}

/// Whether some of `bundles` reveals the transition of `opid`.
pub open spec fn revealed(bundles: Seq<AnchoredBundle>, opid: OpId) -> bool {
    exists|i: int| 0 <= i < bundles.len() && view_reveals((#[trigger] bundles[i]).bundle.view(), opid)
}

/// Whether `o` is an output a consignment for `outpoints` is asked to
/// justify: a public one, or one that assigns state to one of `outpoints`.
pub open spec fn requested(inv: Inventory, outpoints: Seq<Outpoint>, o: Opout) -> bool {
    inv.public@.contains(o) || exists|k: int|
        0 <= k < inv.allocations@.len() && inv.allocations@[k].1 == o && outpoints.contains(
            inv.allocations@[k].0,
        )
}

impl Inventory {
    /// The schema is genesis's, and each bundle is well formed and has an
    /// identifier of its own.
    pub open spec fn wf(&self) -> bool {
        &&& self.schema.id == self.genesis.schema_id
        &&& distinct_bundles(self.bundles@)
    }

    /// The first anchored bundle with an entry for operation `opid`.
    pub fn anchored_bundle(&self, opid: OpId) -> (r: Result<&AnchoredBundle, InventoryError>)
        ensures
            r matches Ok(ab) ==> exists|i: int|
                first_holder(self.bundles@, opid, i) && self.bundles@[i] == *ab,
            r is Err <==> !has_entry(self.bundles@, opid),
            r is Err ==> r == Err::<&AnchoredBundle, InventoryError>(
                InventoryError::InternalInconsistency(InventoryInconsistency::BundleAbsent(opid)),
            ),
    {
        let mut i: usize = 0;
        while i < self.bundles.len()
            invariant
                i <= self.bundles@.len(),
                forall|x: int, y: int|
                    0 <= x < i && 0 <= y < self.bundles@[x].bundle.items@.len()
                        ==> self.bundles@[x].bundle.items@[y].opid != opid,
            decreases self.bundles@.len() - i,
        {
            match find_entry(&self.bundles[i].bundle.items, opid) {
                Some(j) => {
                    proof {
                        let b = self.bundles@[i as int];
                        assert(seq![b][0] == b);
                        assert(has_entry(seq![b], opid));
                        assert forall|k: int| 0 <= k < i implies !has_entry(seq![self.bundles@[k]], opid) by {
                            if has_entry(seq![self.bundles@[k]], opid) {
                                let (x, y) = choose|x: int, y: int|
                                    0 <= x < 1 && 0 <= y < seq![self.bundles@[k]][x].bundle.items@.len()
                                        && seq![self.bundles@[k]][x].bundle.items@[y].opid == opid;
                                assert(seq![self.bundles@[k]][x] == self.bundles@[k]);
                            }
                        }
                    }
                    return Ok(&self.bundles[i]);
                },
                None => {},
            }
            i += 1;
        }
        Err(InventoryError::InternalInconsistency(InventoryInconsistency::BundleAbsent(opid)))
    }

    /// The transition of operation `opid`, from the bundle that holds it. A
    /// bundle that holds the operation concealed breaks the stash's
    /// invariant, and is reported as such.
    pub fn transition(&self, opid: OpId) -> (r: Result<&Transition, InventoryError>)
        requires
            self.wf(),
        ensures
            r matches Ok(t) ==> t.id == opid && holds_transition(self.bundles@, opid, *t),
            !has_entry(self.bundles@, opid) ==> r == Err::<&Transition, InventoryError>(
                InventoryError::InternalInconsistency(InventoryInconsistency::BundleAbsent(opid)),
            ),
            r is Ok <==> first_reveals(self.bundles@, opid),
            has_entry(self.bundles@, opid) && r is Err ==> r == Err::<&Transition, InventoryError>(
                InventoryError::InternalInconsistency(
                    InventoryInconsistency::TransitionConcealed(opid),
                ),
            ),
    {
        let ab = self.anchored_bundle(opid)?;
        let ghost bi = choose|i: int| 0 <= i < self.bundles@.len() && self.bundles@[i] == *ab;
        match find_entry(&ab.bundle.items, opid) {
            Some(j) => match &ab.bundle.items[j].transition {
                Some(t) => {
                    assert(self.bundles@[bi].bundle.wf());
                    Ok(t)
                },
                None => Err(
                    InventoryError::InternalInconsistency(
                        InventoryInconsistency::TransitionConcealed(opid),
                    ),
                ),
            },
            None => {
                proof {
                    let (x, y) = choose|x: int, y: int|
                        0 <= x < 1 && 0 <= y < seq![*ab][x].bundle.items@.len()
                            && seq![*ab][x].bundle.items@[y].opid == opid;
                    assert(seq![*ab][x] == *ab);
                }
                Err(
                    InventoryError::InternalInconsistency(
                        InventoryInconsistency::TransitionConcealed(opid),
                    ),
                )
            },
        }
    }

    /// Every operation identifier that some bundle has an entry for.
    fn all_op_ids(&self) -> (r: Vec<OpId>)
        ensures
            forall|i: int, j: int|
                0 <= i < self.bundles@.len() && 0 <= j < self.bundles@[i].bundle.items@.len()
                    ==> r@.contains(#[trigger] self.bundles@[i].bundle.items@[j].opid),
    {
        let mut ids: Vec<OpId> = Vec::new();
        let mut i: usize = 0;
        while i < self.bundles.len()
            invariant
                i <= self.bundles@.len(),
                forall|a: int, b: int|
                    0 <= a < i && 0 <= b < self.bundles@[a].bundle.items@.len()
                        ==> ids@.contains(#[trigger] self.bundles@[a].bundle.items@[b].opid),
            decreases self.bundles@.len() - i,
        {
            let items = &self.bundles[i].bundle.items;
            let mut j: usize = 0;
            while j < items.len()
                invariant
                    i < self.bundles@.len(),
                    items == &self.bundles@[i as int].bundle.items,
                    j <= items@.len(),
                    forall|a: int, b: int|
                        0 <= a < i && 0 <= b < self.bundles@[a].bundle.items@.len()
                            ==> ids@.contains(#[trigger] self.bundles@[a].bundle.items@[b].opid),
                    forall|b: int| 0 <= b < j ==> ids@.contains(#[trigger] items@[b].opid),
                decreases items@.len() - j,
            {
                let ghost prev = ids@;
                ids.push(items[j].opid);
                proof {
                    assert(ids@[prev.len() as int] == items@[j as int].opid);
                    assert forall|x: OpId| prev.contains(x) implies ids@.contains(x) by {
                        let k = choose|k: int| 0 <= k < prev.len() && prev[k] == x;
                        assert(ids@[k] == x);
                    }
                }
                j += 1;
            }
            i += 1;
        }
        ids
    }

    /// Builds the consignment of contract `contract_id` that justifies the
    /// public outputs of the contract and the state at `outpoints`: the
    /// bundles of those outputs' transitions and of every transition they
    /// descend from, back to genesis, and as terminals the revealed seals of
    /// the transitions themselves. Each operation is visited once. A
    /// consignment that would hold more than `max_bundles` bundles or
    /// `max_terminals` terminals is refused, never cut short.
    pub fn consign_bounded<const TYPE: bool>(
        &self,
        contract_id: ContractId,
        outpoints: &Vec<Outpoint>,
        max_bundles: usize,
        max_terminals: usize,
    ) -> (r: Result<Consignment<TYPE>, ConsignerError>)
        requires
            self.wf(),
        ensures
            consign_outcome(*self, contract_id, outpoints@, max_bundles, max_terminals, r),
    {
        let mut seeds = match self.public_opouts(contract_id) {
            Ok(v) => v,
            Err(e) => return Err(ConsignerError::InventoryError(e)),
        };
        let extra = match self.outpoint_opouts(contract_id, outpoints) {
            Ok(v) => v,
            Err(e) => return Err(ConsignerError::InventoryError(e)),
        };
        let ghost public = seeds@;
        let mut n: usize = 0;
        while n < extra.len()
            invariant
                n <= extra@.len(),
                seeds@ == public + extra@.subrange(0, n as int),
            decreases extra@.len() - n,
        {
            seeds.push(extra[n]);
            n += 1;
            assert(seeds@ =~= public + extra@.subrange(0, n as int));
        }
        assert(extra@.subrange(0, extra@.len() as int) =~= extra@);
        proof {
            assert forall|o: Opout| #[trigger] requested(*self, outpoints@, o) implies seeds@.contains(o) by {
                if public.contains(o) {
                    let q = choose|q: int| 0 <= q < public.len() && public[q] == o;
                    assert(seeds@[q] == o);
                } else {
                    assert(extra@.contains(o));
                    let q = choose|q: int| 0 <= q < extra@.len() && extra@[q] == o;
                    assert(seeds@[public.len() + q] == o);
                }
            }
        }
        proof {
            assert forall|q: int| 0 <= q < seeds@.len() implies requested(*self, outpoints@, #[trigger] seeds@[q]) by {
                if q < public.len() {
                    assert(seeds@[q] == public[q]);
                    assert(self.public@.contains(public[q]));
                } else {
                    assert(seeds@[q] == extra@[q - public.len()]);
                    assert(extra@.contains(extra@[q - public.len()]));
                }
            }
            assert(bundle_ids(Seq::<AnchoredBundle>::empty()) =~= visited_ids(self.bundles@, Seq::empty()));
        }
        let all_ids = self.all_op_ids();
        let mut visited: Vec<OpId> = Vec::new();
        let mut stack: Vec<OpId> = Vec::new();
        let mut collected: Vec<AnchoredBundle> = Vec::new();
        let mut terminals: Vec<Terminal> = Vec::new();
        let ghost mut tv: Map<OpId, TransitionModel> = Map::empty();

        // the transitions of the requested outputs, and their seals as terminals
        let mut k: usize = 0;
        while k < seeds.len()
            invariant
                self.wf(),
                contract_id == self.genesis.contract_id,
                k <= seeds@.len(),
                forall|v: OpId| #[trigger] visited@.contains(v) ==> in_closure(*self, outpoints@, v)
                    && noted_first(self.bundles@, tv, v),
                forall|y: OpId| #[trigger] stack@.contains(y) ==> y == self.genesis.id || in_closure(
                    *self,
                    outpoints@,
                    y,
                ),
                bundle_ids(collected@) == visited_ids(self.bundles@, visited@),
                forall|x: Terminal| #[trigger] terminals@.contains(x) ==> closure_terminals(
                    *self,
                    outpoints@,
                ).contains(x),
                forall|q: int| 0 <= q < seeds@.len() ==> requested(*self, outpoints@, #[trigger] seeds@[q]),
                forall|v: OpId| #[trigger] visited@.contains(v) ==> revealed(collected@, v),
                forall|q: int| 0 <= q < k ==> visited@.contains(#[trigger] seeds@[q].op),
                forall|v: OpId| #[trigger] visited@.contains(v) ==> seals_terminal(tv, v, terminals@, self.bundles@),
                forall|v: OpId| #[trigger] visited@.contains(v) ==> {
                    &&& tv.dom().contains(v)
                    &&& tv[v].id == v
                    &&& stash_holds(self.bundles@, tv[v])
                    &&& covered(tv, v, self.genesis.id, visited@, stack@)
                },

                visited@.no_duplicates(),
                forall|v: OpId| #[trigger] visited@.contains(v) ==> all_ids@.contains(v),
                forall|i: int, j: int|
                    0 <= i < self.bundles@.len() && 0 <= j < self.bundles@[i].bundle.items@.len()
                        ==> all_ids@.contains(#[trigger] self.bundles@[i].bundle.items@[j].opid),
                distinct_bundles(collected@),
                terminals@.no_duplicates(),
                mirrors_stash(collected@, self.bundles@),
            decreases seeds@.len() - k,
        {
            let op = seeds[k].op;
            k += 1;
            if contains_id(&visited, op) {
                continue;
            }
            proof {
                lemma_requested_in_closure(*self, outpoints@, seeds@[k - 1]);
            }
            let t = match self.transition(op) {
                Ok(t) => t,
                Err(e) => return Err(ConsignerError::InventoryError(e)),
            };
            proof {
                lemma_first_reveals_has_entry(self.bundles@, op);
            }
            let ab = match self.anchored_bundle(op) {
                Ok(ab) => ab,
                Err(e) => return Err(ConsignerError::InventoryError(e)),
            };
            let ghost bi = choose|i: int| first_holder(self.bundles@, op, i) && self.bundles@[i] == *ab;
            assert(self.bundles@[bi].bundle.wf());
            proof {
                lemma_first_holder_unique(self.bundles@, op, bi);
            }
            let bundle_id = ab.bundle.id;
            let ghost old_terms = terminals@;
            let mut s: usize = 0;
            while s < t.seals.len()
                invariant
                    s <= t.seals@.len(),
                    terminals@.no_duplicates(),
                    forall|x: Terminal| #[trigger] old_terms.contains(x) ==> terminals@.contains(x),
                    forall|x: Terminal| #[trigger] terminals@.contains(x) ==> closure_terminals(
                        *self,
                        outpoints@,
                    ).contains(x),
                    requested(*self, outpoints@, seeds@[k - 1]),
                    seeds@[k - 1].op == op,
                    t.id == op,
                    holds_transition(self.bundles@, op, *t),
                    bundle_id == holder_id(self.bundles@, op),
                    1 <= k <= seeds@.len(),
                    forall|p: Outpoint|
                        #[trigger] t.seals@.subrange(0, s as int).contains(Some(p)) ==> terminals@.contains(
                            (Terminal { bundle_id, seal: p }),
                        ),
                decreases t.seals@.len() - s,
            {
                let ghost before_terms = terminals@;
                if let Some(seal) = t.seals[s] {
                    let term = Terminal { bundle_id, seal };
                    if !contains_terminal(&terminals, term) {
                        let ghost prev = terminals@;
                        terminals.push(term);
                        proof {
                            assert forall|x: int, y: int| 0 <= x < y < terminals@.len() implies terminals@[x]
                                != terminals@[y] by {
                                if y == prev.len() {
                                    assert(prev.contains(prev[x]));
                                }
                            }
                            assert(terminals@[prev.len() as int] == term);
                            assert(t.seals@.contains(Some(seal))) by {
                                assert(t.seals@[s as int] == Some(seal));
                            }
                            assert(closure_terminals(*self, outpoints@).contains(term));
                            assert forall|x: Terminal| #[trigger] terminals@.contains(x) implies closure_terminals(
                                *self,
                                outpoints@,
                            ).contains(x) by {
                                if x != term {
                                    let w = choose|w: int| 0 <= w < terminals@.len() && terminals@[w] == x;
                                    assert(prev[w] == x);
                                    assert(prev.contains(x));
                                    assert(before_terms.contains(x));
                                }
                            }
                        }
                    }
                }
                proof {
                    assert forall|x: Terminal| #[trigger] before_terms.contains(x) implies terminals@.contains(x) by {
                        let w = choose|w: int| 0 <= w < before_terms.len() && before_terms[w] == x;
                        assert(terminals@[w] == x);
                    }
                    assert forall|p: Outpoint| #[trigger] t.seals@.subrange(0, s + 1).contains(Some(p)) implies terminals@.contains(
                        (Terminal { bundle_id, seal: p }),
                    ) by {
                        let y = choose|y: int| 0 <= y < s + 1 && #[trigger] t.seals@.subrange(0, s + 1)[y] == Some(p);
                        if y < s {
                            assert(t.seals@.subrange(0, s as int)[y] == Some(p));
                            assert(t.seals@.subrange(0, s as int).contains(Some(p)));
                        }
                    }
                }
                s += 1;
            }
            assert(t.seals@.subrange(0, t.seals@.len() as int) =~= t.seals@);
            proof {
                let (i, j) = choose|i: int, j: int|
                    0 <= i < self.bundles@.len() && 0 <= j < self.bundles@[i].bundle.items@.len()
                        && self.bundles@[i].bundle.items@[j].transition == Some(*t);
                assert(self.bundles@[i].bundle.wf());
                assert(all_ids@.contains(self.bundles@[i].bundle.items@[j].opid));
            }
            let ghost pv = visited@;
            let ghost pc = collected@;
            let ghost ps = stack@;
            let ghost ptv = tv;
            self.visit(&mut visited, &mut stack, &mut collected, &all_ids, op, t, ab)?;
            proof {
                tv = tv.insert(op, t.view());
                assert forall|v: OpId| #[trigger] visited@.contains(v) implies seals_terminal(tv, v, terminals@, self.bundles@) by {
                    if v != op {
                        let w = choose|w: int| 0 <= w < visited@.len() && visited@[w] == v;
                        assert(pv[w] == v);
                        assert(pv.contains(v));
                        lemma_seals_terminal_mono(ptv, tv, v, old_terms, terminals@, self.bundles@);
                    } else {
                        assert forall|p: Outpoint| #[trigger] tv[op].seals.contains(Some(p)) implies terminals@.contains(
                            (Terminal { bundle_id: holder_id(self.bundles@, op), seal: p }),
                        ) by {
                            let y = choose|y: int| 0 <= y < t.seals@.len() && t.seals@[y] == Some(p);
                            assert(terminals@.contains(Terminal { bundle_id, seal: p }));
                        }
                    }
                }
                lemma_noted(self.bundles@, ptv, tv, pv, visited@, ps, ps, stack@, op, t.view(), self.genesis.id);
                lemma_requested_in_closure(*self, outpoints@, seeds@[k - 1]);
                let hi = choose|i: int| first_holder(self.bundles@, op, i) && self.bundles@[i] == *ab;
                lemma_first_holder_unique(self.bundles@, op, hi);
                lemma_closure_step(*self, outpoints@, ptv, tv, pv, visited@, ps, ps, stack@, pc, collected@, op, *t);
                lemma_visited_grows(pv, visited@, op, pc, collected@);
                assert forall|q: int| 0 <= q < k implies visited@.contains(#[trigger] seeds@[q].op) by {
                    if q < k - 1 {
                        assert(pv.contains(seeds@[q].op));
                    } else {
                        assert(visited@[pv.len() as int] == op);
                    }
                }
            }
        }

        proof {
            assert forall|q: int| 0 <= q < seeds@.len() implies seals_terminal(tv, #[trigger] seeds@[q].op, terminals@, self.bundles@) by {
                assert(visited@.contains(seeds@[q].op));
            }
        }
        // everything the collected transitions descend from, back to genesis
        while stack.len() > 0
            invariant
                self.wf(),
                contract_id == self.genesis.contract_id,
                visited@.no_duplicates(),
                forall|v: OpId| #[trigger] visited@.contains(v) ==> in_closure(*self, outpoints@, v)
                    && noted_first(self.bundles@, tv, v),
                forall|y: OpId| #[trigger] stack@.contains(y) ==> y == self.genesis.id || in_closure(
                    *self,
                    outpoints@,
                    y,
                ),
                bundle_ids(collected@) == visited_ids(self.bundles@, visited@),
                forall|x: Terminal| #[trigger] terminals@.contains(x) ==> closure_terminals(
                    *self,
                    outpoints@,
                ).contains(x),
                forall|q: int| 0 <= q < seeds@.len() ==> requested(*self, outpoints@, #[trigger] seeds@[q]),
                forall|v: OpId| #[trigger] visited@.contains(v) ==> revealed(collected@, v),
                forall|q: int| 0 <= q < seeds@.len() ==> visited@.contains(#[trigger] seeds@[q].op),
                forall|o: Opout| #[trigger] requested(*self, outpoints@, o) ==> seeds@.contains(o),
                forall|q: int| 0 <= q < seeds@.len() ==> seals_terminal(tv, #[trigger] seeds@[q].op, terminals@, self.bundles@),
                forall|v: OpId| #[trigger] visited@.contains(v) ==> {
                    &&& tv.dom().contains(v)
                    &&& tv[v].id == v
                    &&& stash_holds(self.bundles@, tv[v])
                    &&& covered(tv, v, self.genesis.id, visited@, stack@)
                },

                forall|v: OpId| #[trigger] visited@.contains(v) ==> all_ids@.contains(v),
                forall|i: int, j: int|
                    0 <= i < self.bundles@.len() && 0 <= j < self.bundles@[i].bundle.items@.len()
                        ==> all_ids@.contains(#[trigger] self.bundles@[i].bundle.items@[j].opid),
                distinct_bundles(collected@),
                terminals@.no_duplicates(),
                mirrors_stash(collected@, self.bundles@),
            decreases all_ids@.len() - visited@.len(), stack@.len(),
        {
            proof {
                lemma_visited_bound(visited@, all_ids@);
            }
            let ghost before_pop = stack@;
            let id = match stack.pop() {
                Some(id) => id,
                None => 0,
            };
            assert(before_pop == stack@.push(id));
            if id == self.genesis.id || contains_id(&visited, id) {
                proof {
                    assert forall|v: OpId| #[trigger] visited@.contains(v) implies covered(
                        tv,
                        v,
                        self.genesis.id,
                        visited@,
                        stack@,
                    ) by {
                        lemma_covered_mono(tv, v, self.genesis.id, visited@, before_pop, visited@, stack@);
                    }
                    assert forall|y: OpId| #[trigger] stack@.contains(y) implies before_pop.contains(y) by {
                        let w = choose|w: int| 0 <= w < stack@.len() && stack@[w] == y;
                        assert(before_pop[w] == y);
                    }
                }
                continue;
            }
            proof {
                assert(before_pop[before_pop.len() - 1] == id);
                assert(before_pop.contains(id));
            }
            let t = match self.transition(id) {
                Ok(t) => t,
                Err(e) => return Err(ConsignerError::InventoryError(e)),
            };
            proof {
                lemma_first_reveals_has_entry(self.bundles@, id);
            }
            let ab = match self.anchored_bundle(id) {
                Ok(ab) => ab,
                Err(e) => return Err(ConsignerError::InventoryError(e)),
            };
            proof {
                let (i, j) = choose|i: int, j: int|
                    0 <= i < self.bundles@.len() && 0 <= j < self.bundles@[i].bundle.items@.len()
                        && self.bundles@[i].bundle.items@[j].transition == Some(*t);
                assert(self.bundles@[i].bundle.wf());
                assert(all_ids@.contains(self.bundles@[i].bundle.items@[j].opid));
            }
            let ghost pv = visited@;
            let ghost pc = collected@;
            let ghost ps = stack@;
            let ghost ptv = tv;
            self.visit(&mut visited, &mut stack, &mut collected, &all_ids, id, t, ab)?;
            proof {
                tv = tv.insert(id, t.view());
                assert forall|q: int| 0 <= q < seeds@.len() implies seals_terminal(tv, #[trigger] seeds@[q].op, terminals@, self.bundles@) by {
                    assert(pv.contains(seeds@[q].op));
                    lemma_seals_terminal_mono(ptv, tv, seeds@[q].op, terminals@, terminals@, self.bundles@);
                }
                lemma_noted(self.bundles@, ptv, tv, pv, visited@, before_pop, ps, stack@, id, t.view(), self.genesis.id);
                assert(before_pop.contains(id)) by {
                    assert(before_pop[before_pop.len() - 1] == id);
                }
                let hi = choose|i: int| first_holder(self.bundles@, id, i) && self.bundles@[i] == *ab;
                lemma_first_holder_unique(self.bundles@, id, hi);
                lemma_closure_step(*self, outpoints@, ptv, tv, pv, visited@, before_pop, ps, stack@, pc, collected@, id, *t);
                lemma_visited_grows(pv, visited@, id, pc, collected@);
                assert forall|q: int| 0 <= q < seeds@.len() implies visited@.contains(#[trigger] seeds@[q].op) by {
                    assert(pv.contains(seeds@[q].op));
                }
                lemma_visited_bound(visited@, all_ids@);
            }
        }

        proof {
            assert(stack@ =~= Seq::<OpId>::empty());
            assert forall|o: Opout| #[trigger] requested(*self, outpoints@, o) implies visited@.contains(o.op)
                && seals_terminal(tv, o.op, terminals@, self.bundles@) by {
                let q = choose|q: int| 0 <= q < seeds@.len() && seeds@[q] == o;
                assert(visited@.contains(seeds@[q].op));
                assert(seals_terminal(tv, seeds@[q].op, terminals@, self.bundles@));
            }
        }
        proof {
            assert forall|x: OpId| in_closure(*self, outpoints@, x) implies #[trigger] visited@.contains(x) by {
                lemma_closure_visited(*self, outpoints@, visited@, tv, x);
            }
            assert(closure_bundle_ids(*self, outpoints@) =~= visited_ids(self.bundles@, visited@));
            lemma_distinct_ids(collected@);
            assert forall|x: Terminal| closure_terminals(*self, outpoints@).contains(x) implies #[trigger] terminals@.contains(x) by {
                let (o, t0) = choose|o: Opout, t0: Transition|
                    #[trigger] requested(*self, outpoints@, o) && #[trigger] holds_transition(self.bundles@, o.op, t0)
                        && t0.seals@.contains(Some(x.seal)) && x.bundle_id == holder_id(self.bundles@, o.op);
                assert(visited@.contains(o.op) && seals_terminal(tv, o.op, terminals@, self.bundles@));
                let t2 = choose|t2: Transition| #[trigger] holds_transition(self.bundles@, o.op, t2) && t2.view() == tv[o.op];
                lemma_holds_unique(self.bundles@, o.op, t0, t2);
                assert(tv[o.op].seals.contains(Some(x.seal)));
            }
            assert(terminals@.to_set() =~= closure_terminals(*self, outpoints@));
            terminals@.unique_seq_to_set();
        }
        if collected.len() > max_bundles {
            return Err(ConsignerError::TooManyBundles);
        }
        if terminals.len() > max_terminals {
            return Err(ConsignerError::TooManyTerminals);
        }
        let mut ifaces: Vec<(IfaceId, IfaceImplId)> = Vec::new();
        let mut f: usize = 0;
        while f < self.iimpls.len()
            invariant
                f <= self.iimpls@.len(),
                ifaces@ == self.iimpls@.subrange(0, f as int),
            decreases self.iimpls@.len() - f,
        {
            ifaces.push(self.iimpls[f]);
            f += 1;
            assert(ifaces@ =~= self.iimpls@.subrange(0, f as int));
        }
        assert(ifaces@ =~= self.iimpls@);
        let mut consignment: Consignment<TYPE> = Consignment::new(self.schema, self.genesis);
        consignment.ifaces = ifaces;
        consignment.bundles = collected;
        consignment.terminals = terminals;
        assert(connected(*self, outpoints@, consignment, visited@, tv));
        Ok(consignment)
    }

    /// Builds the consignment of contract `contract_id` for the state at
    /// `outpoints`, within the largest sizes a consignment may have.
    pub fn consign<const TYPE: bool>(&self, contract_id: ContractId, outpoints: &Vec<Outpoint>) -> (r:
        Result<Consignment<TYPE>, ConsignerError>)
        requires
            self.wf(),
        ensures
            consign_outcome(*self, contract_id, outpoints@, MAX_BUNDLES, MAX_TERMINALS, r),
    {
        self.consign_bounded(contract_id, outpoints, MAX_BUNDLES, MAX_TERMINALS)
    }

    /// The consignment transferring the state at `outpoints`: `consign` of
    /// a transfer.
    pub fn transfer(&self, contract_id: ContractId, outpoints: &Vec<Outpoint>) -> (r: Result<
        Consignment<true>,
        ConsignerError,
    >)
        requires
            self.wf(),
        ensures
            consign_outcome(*self, contract_id, outpoints@, MAX_BUNDLES, MAX_TERMINALS, r),
    {
        self.consign::<true>(contract_id, outpoints)
    }

    /// The consignment of the whole public history of the contract: `consign`
    /// of a contract, for no outpoint.
    pub fn export_contract(&self, contract_id: ContractId) -> (r: Result<Consignment<false>, ConsignerError>)
        requires
            self.wf(),
        ensures
            consign_outcome(*self, contract_id, Seq::empty(), MAX_BUNDLES, MAX_TERMINALS, r),
    {
        let none: Vec<Outpoint> = Vec::new();
        assert(none@ =~= Seq::<Outpoint>::empty());
        self.consign::<false>(contract_id, &none)
    }

    /// Marks `op` visited, schedules the operations it spends from, and
    /// collects its bundle with `t` revealed.
    fn visit(
        &self,
        visited: &mut Vec<OpId>,
        stack: &mut Vec<OpId>,
        collected: &mut Vec<AnchoredBundle>,
        all_ids: &Vec<OpId>,
        op: OpId,
        t: &Transition,
        ab: &AnchoredBundle,
    ) -> (r: Result<(), ConsignerError>)
        requires
            self.wf(),
            old(visited)@.no_duplicates(),
            !old(visited)@.contains(op),
            all_ids@.contains(op),
            forall|v: OpId| #[trigger] old(visited)@.contains(v) ==> all_ids@.contains(v),
            distinct_bundles(old(collected)@),
            mirrors_stash(old(collected)@, self.bundles@),
            exists|i: int| 0 <= i < self.bundles@.len() && self.bundles@[i] == *ab,
            has_entry(seq![*ab], op),
            t.id == op,
            holds_transition(self.bundles@, op, *t),
            exists|i: int| first_holder(self.bundles@, op, i) && self.bundles@[i] == *ab,
        ensures
            final(visited)@ == old(visited)@.push(op),
            final(stack)@ == old(stack)@ + t.inputs@.map_values(|i: Opout| i.op),
            forall|x: OpId| revealed(old(collected)@, x) ==> revealed(final(collected)@, x),
            r is Ok,
            revealed(final(collected)@, op),
            bundle_ids(final(collected)@) == bundle_ids(old(collected)@).insert(ab.bundle.id),
            final(visited)@.no_duplicates(),
            forall|v: OpId| #[trigger] final(visited)@.contains(v) ==> all_ids@.contains(v),
            distinct_bundles(final(collected)@),
            mirrors_stash(final(collected)@, self.bundles@),
    {
        let ghost prev = visited@;
        visited.push(op);
        proof {
            assert forall|x: int, y: int| 0 <= x < y < visited@.len() implies visited@[x] != visited@[y] by {
                if y == prev.len() {
                    assert(prev.contains(prev[x]));
                }
            }
            assert forall|v: OpId| #[trigger] visited@.contains(v) implies all_ids@.contains(v) by {
                if v != op {
                    let k = choose|k: int| 0 <= k < visited@.len() && visited@[k] == v;
                    assert(prev[k] == v);
                    assert(prev.contains(v));
                }
            }
        }
        let ghost st = stack@;
        let mut p: usize = 0;
        while p < t.inputs.len()
            invariant
                p <= t.inputs@.len(),
                stack@ == st + t.inputs@.subrange(0, p as int).map_values(|i: Opout| i.op),
            decreases t.inputs@.len() - p,
        {
            stack.push(t.inputs[p].op);
            p += 1;
            assert(stack@ =~= st + t.inputs@.subrange(0, p as int).map_values(|i: Opout| i.op));
        }
        assert(t.inputs@.subrange(0, t.inputs@.len() as int) =~= t.inputs@);
        let ghost bi = choose|i: int| 0 <= i < self.bundles@.len() && self.bundles@[i] == *ab;
        assert(self.bundles@[bi].bundle.wf());
        let ghost before = collected@;
        proof {
            let (i, j) = choose|i: int, j: int|
                first_holder(self.bundles@, op, i) && 0 <= j < self.bundles@[i].bundle.items@.len()
                    && self.bundles@[i].bundle.items@[j].opid == op
                    && self.bundles@[i].bundle.items@[j].transition == Some(*t);
            lemma_first_holder_unique(self.bundles@, op, i);
            let i2 = choose|i2: int| first_holder(self.bundles@, op, i2) && self.bundles@[i2] == *ab;
            assert(i2 == i);
            assert(ab.bundle.items@[j].opid == t.id && ab.bundle.items@[j].transition == Some(*t));
        }
        let res = add_bundle(collected, &self.bundles, ab, t);
        match res {
            Ok(()) => Ok(()),
            Err(e) => Err(ConsignerError::Reveal(e)),
        }
    }

    /// The outputs of the contract that are public.
    pub fn public_opouts(&self, contract_id: ContractId) -> (r: Result<Vec<Opout>, InventoryError>)
        ensures
            contract_id == self.genesis.contract_id <==> r is Ok,
            r matches Ok(v) ==> v@ == self.public@,
            r is Err ==> r == Err::<Vec<Opout>, InventoryError>(
                InventoryError::InternalInconsistency(InventoryInconsistency::StateAbsent(contract_id)),
            ),
    {
        if contract_id != self.genesis.contract_id {
            return Err(
                InventoryError::InternalInconsistency(InventoryInconsistency::StateAbsent(contract_id)),
            );
        }
        let mut v: Vec<Opout> = Vec::new();
        let mut i: usize = 0;
        while i < self.public.len()
            invariant
                i <= self.public@.len(),
                v@ == self.public@.subrange(0, i as int),
            decreases self.public@.len() - i,
        {
            v.push(self.public[i]);
            i += 1;
            assert(v@ =~= self.public@.subrange(0, i as int));
        }
        assert(v@ =~= self.public@);
        Ok(v)
    }

    /// The outputs of the contract that assign state to any of `outpoints`.
    pub fn outpoint_opouts(&self, contract_id: ContractId, outpoints: &Vec<Outpoint>) -> (r: Result<
        Vec<Opout>,
        InventoryError,
    >)
        ensures
            contract_id == self.genesis.contract_id <==> r is Ok,
            r matches Ok(v) ==> forall|o: Opout|
                v@.contains(o) <==> exists|k: int|
                    0 <= k < self.allocations@.len() && self.allocations@[k].1 == o
                        && outpoints@.contains(self.allocations@[k].0),
            r is Err ==> r == Err::<Vec<Opout>, InventoryError>(
                InventoryError::InternalInconsistency(InventoryInconsistency::StateAbsent(contract_id)),
            ),
    {
        if contract_id != self.genesis.contract_id {
            return Err(
                InventoryError::InternalInconsistency(InventoryInconsistency::StateAbsent(contract_id)),
            );
        }
        let mut v: Vec<Opout> = Vec::new();
        let mut i: usize = 0;
        while i < self.allocations.len()
            invariant
                i <= self.allocations@.len(),
                forall|o: Opout|
                    v@.contains(o) <==> exists|k: int|
                        0 <= k < i && self.allocations@[k].1 == o && outpoints@.contains(
                            self.allocations@[k].0,
                        ),
            decreases self.allocations@.len() - i,
        {
            let (point, opout) = self.allocations[i];
            let ghost prev = v@;
            if contains_outpoint(outpoints, point) {
                v.push(opout);
                proof {
                    assert forall|o: Opout|
                        v@.contains(o) <==> exists|k: int|
                            0 <= k < i + 1 && self.allocations@[k].1 == o && outpoints@.contains(
                                self.allocations@[k].0,
                            ) by {
                        if v@.contains(o) && !prev.contains(o) {
                            assert(v@[prev.len() as int] == o);
                        }
                        if prev.contains(o) {
                            let k = choose|k: int| 0 <= k < prev.len() && prev[k] == o;
                            assert(v@[k] == o);
                        }
                        if o == opout {
                            assert(v@[prev.len() as int] == o);
                        }
                    }
                }
            }
            i += 1;
        }
        Ok(v)
    }
}

/// Adds `ab` to the collected bundles with `t` revealed in it; where a
/// bundle with its identifier is collected already, `t` is revealed in that
/// one.
fn add_bundle(
    collected: &mut Vec<AnchoredBundle>,
    stash: &Vec<AnchoredBundle>,
    ab: &AnchoredBundle,
    t: &Transition,
) -> (r: Result<(), RevealError>)
    requires
        distinct_bundles(old(collected)@),
        distinct_bundles(stash@),
        mirrors_stash(old(collected)@, stash@),
        exists|m: int| 0 <= m < stash@.len() && stash@[m] == *ab,
        has_entry(seq![*ab], t.id),
        exists|j: int|
            0 <= j < ab.bundle.items@.len() && ab.bundle.items@[j].opid == t.id
                && ab.bundle.items@[j].transition == Some(*t),
    ensures
        r is Ok,
        distinct_bundles(final(collected)@),
        mirrors_stash(final(collected)@, stash@),
        bundle_ids(final(collected)@) == bundle_ids(old(collected)@).insert(ab.bundle.id),
        forall|x: OpId| revealed(old(collected)@, x) ==> revealed(final(collected)@, x),
        r is Ok ==> revealed(final(collected)@, t.id),
        final(collected)@.len() <= old(collected)@.len() + 1,
        forall|i: int| 0 <= i < final(collected)@.len() ==> ((#[trigger] final(collected)@[i]).bundle.id == ab.bundle.id
            || exists|k: int| 0 <= k < old(collected)@.len() && old(collected)@[k].bundle.id == final(collected)@[i].bundle.id),
{
    let mut i: usize = 0;
    while i < collected.len()
        invariant
            i <= collected@.len(),
            collected@ == old(collected)@,
            distinct_bundles(collected@),
            distinct_bundles(stash@),
            mirrors_stash(collected@, stash@),
            exists|m: int| 0 <= m < stash@.len() && stash@[m] == *ab,
            has_entry(seq![*ab], t.id),
            exists|j: int|
                0 <= j < ab.bundle.items@.len() && ab.bundle.items@[j].opid == t.id
                    && ab.bundle.items@[j].transition == Some(*t),
            forall|k: int| 0 <= k < i ==> collected@[k].bundle.id != ab.bundle.id,
        decreases collected@.len() - i,
    {
        if collected[i].bundle.id == ab.bundle.id {
            let ghost before = collected@;
            let mut entry = collected.remove(i);
            assert(entry == before[i as int]);
            assert(before[i as int].bundle.wf());
            proof {
                let mab = choose|m: int| 0 <= m < stash@.len() && stash@[m] == *ab;
                let m = choose|m: int|
                    0 <= m < stash@.len() && stash@[m].bundle.id == before[i as int].bundle.id
                        && same_bundle(before[i as int], stash@[m]);
                lemma_same_id_same_bundle(stash@, m, mab);
                lemma_entry_in_opids(*ab, t.id);
                lemma_revealed_noop(*ab, *t);
            }
            let res = entry.bundle.reveal_transition(t);
            collected.insert(i, entry);
            proof {
                lemma_reveal_ids(before[i as int].bundle.view(), t.view());
                assert(collected@[i as int].bundle.view() == before[i as int].bundle.view());
                assert forall|k: int| 0 <= k < collected@.len() implies exists|m: int|
                    0 <= m < stash@.len() && stash@[m].bundle.id == (#[trigger] collected@[k]).bundle.id
                        && same_bundle(collected@[k], stash@[m]) by {
                    if k != i {
                        assert(collected@[k] == before[k]);
                    } else {
                        assert(collected@[k].bundle.view() == before[k].bundle.view());
                    }
                }
                assert(collected@.map_values(|a: AnchoredBundle| a.bundle.id) =~= before.map_values(
                    |a: AnchoredBundle| a.bundle.id,
                ));
                assert(before.map_values(|a: AnchoredBundle| a.bundle.id)[i as int] == ab.bundle.id);
                assert(bundle_ids(before).insert(ab.bundle.id) =~= bundle_ids(before));
                lemma_wf_consistent(before[i as int].bundle);
                lemma_reveal_keeps(before[i as int].bundle.view(), t.view());
                assert forall|x: OpId| revealed(before, x) implies revealed(collected@, x) by {
                    let w = choose|w: int| 0 <= w < before.len() && view_reveals((#[trigger] before[w]).bundle.view(), x);
                    if w != i {
                        assert(collected@[w] == before[w]);
                    }
                    assert(view_reveals(collected@[w].bundle.view(), x));
                }
                if res is Ok {
                    assert(view_reveals(collected@[i as int].bundle.view(), t.id));
                }
                assert forall|x: int, y: int| 0 <= x < y < collected@.len() implies collected@[x].bundle.id
                    != collected@[y].bundle.id by {
                    assert(collected@[x].bundle.id == before[x].bundle.id);
                    assert(collected@[y].bundle.id == before[y].bundle.id);
                }
                assert forall|k: int| 0 <= k < collected@.len() implies (#[trigger] collected@[k]).bundle.wf() by {
                    if k != i {
                        assert(collected@[k] == before[k]);
                    }
                }
                assert forall|k: int| 0 <= k < collected@.len() implies ((#[trigger] collected@[k]).bundle.id
                    == ab.bundle.id || exists|m: int| 0 <= m < before.len() && before[m].bundle.id
                    == collected@[k].bundle.id) by {
                    assert(collected@[k].bundle.id == before[k].bundle.id);
                }
            }
            return res;
        }
        i += 1;
    }
    let ghost mab = choose|m: int| 0 <= m < stash@.len() && stash@[m] == *ab;
    assert(stash@[mab].bundle.wf());
    let mut fresh = ab.duplicate();
    let ghost fresh_view = fresh.bundle.view();
    proof {
        lemma_entry_in_opids(*ab, t.id);
        lemma_revealed_noop(*ab, *t);
    }
    let res = fresh.bundle.reveal_transition(t);
    let ghost before = collected@;
    collected.push(fresh);
    proof {
        lemma_reveal_ids(fresh_view, t.view());
        assert forall|k: int| 0 <= k < collected@.len() implies exists|m: int|
            0 <= m < stash@.len() && stash@[m].bundle.id == (#[trigger] collected@[k]).bundle.id
                && same_bundle(collected@[k], stash@[m]) by {
            if k < before.len() {
                assert(collected@[k] == before[k]);
            } else {
                assert(collected@[k].bundle.view() == ab.bundle.view());
            }
        }
        assert(collected@.map_values(|a: AnchoredBundle| a.bundle.id) =~= before.map_values(
            |a: AnchoredBundle| a.bundle.id,
        ).push(ab.bundle.id));
        before.map_values(|a: AnchoredBundle| a.bundle.id).lemma_push_to_set_commute(ab.bundle.id);
        lemma_wf_consistent(ab.bundle);
        lemma_reveal_keeps(fresh_view, t.view());
        assert forall|x: OpId| revealed(before, x) implies revealed(collected@, x) by {
            let w = choose|w: int| 0 <= w < before.len() && view_reveals((#[trigger] before[w]).bundle.view(), x);
            assert(collected@[w] == before[w]);
        }
        if res is Ok {
            assert(view_reveals(collected@[before.len() as int].bundle.view(), t.id));
        }
        assert forall|x: int, y: int| 0 <= x < y < collected@.len() implies collected@[x].bundle.id
            != collected@[y].bundle.id by {
            if y < before.len() {
                assert(collected@[x] == before[x]);
                assert(collected@[y] == before[y]);
            } else {
                assert(collected@[x] == before[x]);
            }
        }
        assert forall|k: int| 0 <= k < collected@.len() implies (#[trigger] collected@[k]).bundle.wf() by {
            if k < before.len() {
                assert(collected@[k] == before[k]);
            }
        }
        assert forall|k: int| 0 <= k < collected@.len() implies ((#[trigger] collected@[k]).bundle.id
            == ab.bundle.id || exists|m: int| 0 <= m < before.len() && before[m].bundle.id
            == collected@[k].bundle.id) by {
            if k < before.len() {
                assert(collected@[k] == before[k]);
            }
        }
    }
    res
}

/// Building a consignment twice from one unchanged store, for one contract
/// and one set of outpoints, gives the same outcome: both succeed or both
/// fail where every transition of the closure is revealed, and two
/// consignments hold the same bundles, entry for entry, and the same
/// terminals.
pub proof fn lemma_consign_deterministic<const TYPE: bool>(
    inv: Inventory,
    cid: ContractId,
    outpoints: Seq<Outpoint>,
    max_bundles: usize,
    max_terminals: usize,
    r1: Result<Consignment<TYPE>, ConsignerError>,
    r2: Result<Consignment<TYPE>, ConsignerError>,
)
    requires
        inv.wf(),
        consign_outcome(inv, cid, outpoints, max_bundles, max_terminals, r1),
        consign_outcome(inv, cid, outpoints, max_bundles, max_terminals, r2),
    ensures
        cid == inv.genesis.contract_id && lookups_ok(inv, outpoints) ==> (r1 is Ok <==> r2 is Ok),
        r1 matches Ok(c1) ==> r2 matches Ok(c2) ==> {
            &&& bundle_ids(c1.bundles@) == bundle_ids(c2.bundles@)
            &&& c1.terminals@.to_set() == c2.terminals@.to_set()
            &&& forall|k: int|
                0 <= k < c1.bundles@.len() ==> exists|l: int|
                    0 <= l < c2.bundles@.len() && same_bundle(#[trigger] c1.bundles@[k], c2.bundles@[l])
        },
{
    if let (Ok(c1), Ok(c2)) = (r1, r2) {
        assert forall|k: int| 0 <= k < c1.bundles@.len() implies exists|l: int|
            0 <= l < c2.bundles@.len() && same_bundle(#[trigger] c1.bundles@[k], c2.bundles@[l]) by {
            let m = choose|m: int|
                0 <= m < inv.bundles@.len() && inv.bundles@[m].bundle.id == c1.bundles@[k].bundle.id
                    && same_bundle(c1.bundles@[k], inv.bundles@[m]);
            let id = c1.bundles@[k].bundle.id;
            assert(c1.bundles@.map_values(|a: AnchoredBundle| a.bundle.id)[k] == id);
            assert(bundle_ids(c1.bundles@).contains(id));
            assert(bundle_ids(c2.bundles@).contains(id));
            let ids2 = c2.bundles@.map_values(|a: AnchoredBundle| a.bundle.id);
            assert(ids2.contains(id));
            let l = choose|l: int| 0 <= l < ids2.len() && #[trigger] ids2[l] == id;
            let m2 = choose|m2: int|
                0 <= m2 < inv.bundles@.len() && inv.bundles@[m2].bundle.id == (#[trigger] c2.bundles@[l]).bundle.id
                    && same_bundle(c2.bundles@[l], inv.bundles@[m2]);
            lemma_same_id_same_bundle(inv.bundles@, m, m2);
        }
    }
}

/// Visiting `op`, an operation of the closure, keeps the visited operations
/// and those still to visit within the closure, and the collected bundles
/// those first holding the visited operations.
proof fn lemma_closure_step(
    inv: Inventory,
    outpoints: Seq<Outpoint>,
    ptv: Map<OpId, TransitionModel>,
    tv: Map<OpId, TransitionModel>,
    pv: Seq<OpId>,
    v: Seq<OpId>,
    st0: Seq<OpId>,
    ps: Seq<OpId>,
    s: Seq<OpId>,
    pc: Seq<AnchoredBundle>,
    c: Seq<AnchoredBundle>,
    op: OpId,
    t: Transition,
)
    requires
        in_closure(inv, outpoints, op),
        holds_transition(inv.bundles@, op, t),
        t.id == op,
        v == pv.push(op),
        !pv.contains(op),
        s == ps + t.inputs@.map_values(|i: Opout| i.op),
        tv == ptv.insert(op, t.view()),
        forall|y: OpId| #[trigger] ps.contains(y) ==> st0.contains(y),
        forall|x: OpId| #[trigger] pv.contains(x) ==> in_closure(inv, outpoints, x) && noted_first(
            inv.bundles@,
            ptv,
            x,
        ),
        forall|y: OpId| #[trigger] st0.contains(y) ==> y == inv.genesis.id || in_closure(
            inv,
            outpoints,
            y,
        ),
        bundle_ids(pc) == visited_ids(inv.bundles@, pv),
        bundle_ids(c) == bundle_ids(pc).insert(holder_id(inv.bundles@, op)),
    ensures
        forall|x: OpId| #[trigger] v.contains(x) ==> in_closure(inv, outpoints, x) && noted_first(
            inv.bundles@,
            tv,
            x,
        ),
        forall|y: OpId| #[trigger] s.contains(y) ==> y == inv.genesis.id || in_closure(
            inv,
            outpoints,
            y,
        ),
        bundle_ids(c) == visited_ids(inv.bundles@, v),
{
    assert forall|x: OpId| #[trigger] v.contains(x) implies in_closure(inv, outpoints, x) && noted_first(
        inv.bundles@,
        tv,
        x,
    ) by {
        if x == op {
            assert(holds_transition(inv.bundles@, op, t) && t.view() == tv[op]);
        } else {
            let w = choose|w: int| 0 <= w < v.len() && v[w] == x;
            assert(pv[w] == x);
            assert(pv.contains(x));
            let t2 = choose|t2: Transition| #[trigger] holds_transition(inv.bundles@, x, t2) && t2.view() == ptv[x];
            assert(holds_transition(inv.bundles@, x, t2) && t2.view() == tv[x]);
        }
    }
    assert forall|y: OpId| #[trigger] s.contains(y) implies y == inv.genesis.id || in_closure(
        inv,
        outpoints,
        y,
    ) by {
        let w = choose|w: int| 0 <= w < s.len() && s[w] == y;
        if w < ps.len() {
            assert(ps[w] == y);
            assert(ps.contains(y));
        } else {
            let k = w - ps.len();
            assert(t.inputs@[k].op == y);
            assert(t.view().inputs[k].op == y);
            assert(spends(t.view(), y));
            if y != inv.genesis.id {
                lemma_extend_closure(inv, outpoints, op, y, t);
            }
        }
    }
    assert forall|b: BundleId| #[trigger] visited_ids(inv.bundles@, v).contains(b) <==> bundle_ids(
        pc,
    ).insert(holder_id(inv.bundles@, op)).contains(b) by {
        if visited_ids(inv.bundles@, v).contains(b) {
            let x = choose|x: OpId| v.contains(x) && holder_id(inv.bundles@, x) == b;
            if x != op {
                let w = choose|w: int| 0 <= w < v.len() && v[w] == x;
                assert(pv[w] == x);
                assert(visited_ids(inv.bundles@, pv).contains(b));
            }
        }
        if visited_ids(inv.bundles@, pv).contains(b) {
            let x = choose|x: OpId| pv.contains(x) && holder_id(inv.bundles@, x) == b;
            let w = choose|w: int| 0 <= w < pv.len() && pv[w] == x;
            assert(v[w] == x);
        }
        if b == holder_id(inv.bundles@, op) {
            assert(v[pv.len() as int] == op);
        }
    }
    assert(visited_ids(inv.bundles@, v) =~= bundle_ids(c));
}

/// Distinct bundles are as many as their identifiers.
proof fn lemma_distinct_ids(bundles: Seq<AnchoredBundle>)
    requires
        distinct_bundles(bundles),
    ensures
        bundle_ids(bundles).finite(),
        bundle_ids(bundles).len() == bundles.len(),
{
    let ids = bundles.map_values(|a: AnchoredBundle| a.bundle.id);
    assert forall|x: int, y: int| 0 <= x < y < ids.len() implies ids[x] != ids[y] by {
        assert(bundles[x].bundle.id != bundles[y].bundle.id);
    }
    assert(ids.no_duplicates());
    ids.unique_seq_to_set();
}

/// An operation revealed where it is first held has an entry in the stash.
proof fn lemma_first_reveals_has_entry(bundles: Seq<AnchoredBundle>, opid: OpId)
    ensures
        first_reveals(bundles, opid) ==> has_entry(bundles, opid),
{
    if first_reveals(bundles, opid) {
        let (i, j) = choose|i: int, j: int|
            first_holder(bundles, opid, i) && 0 <= j < bundles[i].bundle.items@.len()
                && bundles[i].bundle.items@[j].opid == opid && bundles[i].bundle.items@[j].transition is Some;
        assert(bundles[i].bundle.items@[j].opid == opid);
    }
}

/// There is one first holder of an operation.
proof fn lemma_first_holder_unique(bundles: Seq<AnchoredBundle>, opid: OpId, i: int)
    requires
        first_holder(bundles, opid, i),
    ensures
        forall|k: int| first_holder(bundles, opid, k) ==> k == i,
        holder_id(bundles, opid) == bundles[i].bundle.id,
{
    assert forall|k: int| first_holder(bundles, opid, k) implies k == i by {
        if k < i {
            assert(!has_entry(seq![bundles[k]], opid));
        } else if k > i {
            assert(!has_entry(seq![bundles[i]], opid));
        }
    }
}

/// The first holder of an operation reveals at most one transition for it.
proof fn lemma_holds_unique(bundles: Seq<AnchoredBundle>, opid: OpId, t1: Transition, t2: Transition)
    requires
        distinct_bundles(bundles),
        holds_transition(bundles, opid, t1),
        holds_transition(bundles, opid, t2),
    ensures
        t1 == t2,
{
    let (i1, j1) = choose|i: int, j: int|
        first_holder(bundles, opid, i) && 0 <= j < bundles[i].bundle.items@.len()
            && bundles[i].bundle.items@[j].opid == opid && bundles[i].bundle.items@[j].transition == Some(t1);
    let (i2, j2) = choose|i: int, j: int|
        first_holder(bundles, opid, i) && 0 <= j < bundles[i].bundle.items@.len()
            && bundles[i].bundle.items@[j].opid == opid && bundles[i].bundle.items@[j].transition == Some(t2);
    lemma_first_holder_unique(bundles, opid, i1);
    assert(bundles[i1].bundle.wf());
    if j1 < j2 {
        assert(bundles[i1].bundle.items@[j1].opid != bundles[i1].bundle.items@[j2].opid);
    } else if j2 < j1 {
        assert(bundles[i1].bundle.items@[j2].opid != bundles[i1].bundle.items@[j1].opid);
    }
}

/// An operation spent from by a transition of the closure is in the closure,
/// unless it is genesis.
proof fn lemma_extend_closure(inv: Inventory, outpoints: Seq<Outpoint>, x: OpId, y: OpId, t: Transition)
    requires
        in_closure(inv, outpoints, x),
        holds_transition(inv.bundles@, x, t),
        spends(t.view(), y),
        y != inv.genesis.id,
    ensures
        in_closure(inv, outpoints, y),
{
    let path = choose|path: Seq<OpId>| #[trigger] chain_to(inv, outpoints, path) && path.last() == x;
    let next = path.push(y);
    assert(parent(inv, x, y));
    assert forall|k: int| 1 <= k < next.len() implies parent(inv, next[k - 1], #[trigger] next[k]) by {
        if k < path.len() {
            assert(next[k - 1] == path[k - 1] && next[k] == path[k]);
        }
    }
    assert(chain_to(inv, outpoints, next));
}

/// A requested operation is in the closure.
proof fn lemma_requested_in_closure(inv: Inventory, outpoints: Seq<Outpoint>, o: Opout)
    requires
        requested(inv, outpoints, o),
    ensures
        in_closure(inv, outpoints, o.op),
{
    let path = seq![o.op];
    assert(requested_op(inv, outpoints, path[0]));
    assert(chain_to(inv, outpoints, path));
}

/// Operations visited so far, closed under spending, with their first
/// holders' transitions noted, hold the whole closure.
proof fn lemma_closure_visited(
    inv: Inventory,
    outpoints: Seq<Outpoint>,
    vis: Seq<OpId>,
    tv: Map<OpId, TransitionModel>,
    x: OpId,
)
    requires
        inv.wf(),
        in_closure(inv, outpoints, x),
        forall|o: Opout| #[trigger] requested(inv, outpoints, o) ==> vis.contains(o.op),
        forall|v: OpId| #[trigger] vis.contains(v) ==> noted_first(inv.bundles@, tv, v) && covered(
            tv,
            v,
            inv.genesis.id,
            vis,
            Seq::empty(),
        ),
    ensures
        vis.contains(x),
{
    let path = choose|path: Seq<OpId>| #[trigger] chain_to(inv, outpoints, path) && path.last() == x;
    let o = choose|o: Opout| #[trigger] requested(inv, outpoints, o) && o.op == path[0];
    assert(vis.contains(path[0]));
    lemma_path_visited(inv, outpoints, vis, tv, path, path.len() - 1);
}

proof fn lemma_path_visited(
    inv: Inventory,
    outpoints: Seq<Outpoint>,
    vis: Seq<OpId>,
    tv: Map<OpId, TransitionModel>,
    path: Seq<OpId>,
    n: int,
)
    requires
        inv.wf(),
        chain_to(inv, outpoints, path),
        0 <= n < path.len(),
        vis.contains(path[0]),
        forall|v: OpId| #[trigger] vis.contains(v) ==> noted_first(inv.bundles@, tv, v) && covered(
            tv,
            v,
            inv.genesis.id,
            vis,
            Seq::empty(),
        ),
    ensures
        vis.contains(path[n]),
    decreases n,
{
    if n > 0 {
        lemma_path_visited(inv, outpoints, vis, tv, path, n - 1);
        let x = path[n - 1];
        let y = path[n];
        assert(parent(inv, x, y));
        let t = choose|t: Transition| #[trigger] holds_transition(inv.bundles@, x, t) && spends(t.view(), y);
        let t2 = choose|t2: Transition| #[trigger] holds_transition(inv.bundles@, x, t2) && t2.view() == tv[x];
        lemma_holds_unique(inv.bundles@, x, t, t2);
        let k = choose|k: int| 0 <= k < t.view().inputs.len() && t.view().inputs[k].op == y;
        assert(tv[x].inputs[k].op == y);
        assert(closed_ref(tv[x].inputs[k].op, inv.genesis.id, vis, Seq::empty()));
    }
}

/// Revealing in a well-formed bundle a transition it reveals already
/// changes nothing.
proof fn lemma_revealed_noop(ab: AnchoredBundle, t: Transition)
    requires
        ab.bundle.wf(),
        exists|j: int|
            0 <= j < ab.bundle.items@.len() && ab.bundle.items@[j].opid == t.id
                && ab.bundle.items@[j].transition == Some(t),
    ensures
        reveal_spec(ab.bundle.view(), t.view()) == ab.bundle.view(),
{
    let j = choose|j: int|
        0 <= j < ab.bundle.items@.len() && ab.bundle.items@[j].opid == t.id
            && ab.bundle.items@[j].transition == Some(t);
    let v = ab.bundle.view();
    assert forall|k: int| 0 <= k < v.len() && (#[trigger] v[k]).0 == t.id implies v[k].1 is Some by {
        assert(v[k].0 == ab.bundle.items@[k].opid);
        if k < j {
            assert(ab.bundle.items@[k].opid != ab.bundle.items@[j].opid);
        } else if k > j {
            assert(ab.bundle.items@[j].opid != ab.bundle.items@[k].opid);
        }
    }
    lemma_reveal_noop(v, t.view());
}

/// In a stash of distinct identifiers, two bundles with one identifier are
/// one bundle.
proof fn lemma_same_id_same_bundle(stash: Seq<AnchoredBundle>, m: int, n: int)
    requires
        distinct_bundles(stash),
        0 <= m < stash.len(),
        0 <= n < stash.len(),
        stash[m].bundle.id == stash[n].bundle.id,
    ensures
        m == n,
{
    if m < n {
        assert(stash[m].bundle.id != stash[n].bundle.id);
    } else if n < m {
        assert(stash[n].bundle.id != stash[m].bundle.id);
    }
}

/// A bundle with an entry for `op` lists `op` among its operations.
proof fn lemma_entry_in_opids(ab: AnchoredBundle, op: OpId)
    requires
        has_entry(seq![ab], op),
    ensures
        opids(ab).contains(op),
{
    let (x, y) = choose|x: int, y: int|
        0 <= x < 1 && 0 <= y < seq![ab][x].bundle.items@.len() && seq![ab][x].bundle.items@[y].opid == op;
    assert(seq![ab][x] == ab);
    assert(opids(ab)[y] == op);
}

/// A sequence without duplicates, all of whose elements `all` holds, is no
/// longer than `all`.
proof fn lemma_visited_bound(visited: Seq<OpId>, all: Seq<OpId>)
    requires
        visited.no_duplicates(),
        forall|v: OpId| #[trigger] visited.contains(v) ==> all.contains(v),
    ensures
        visited.len() <= all.len(),
{
    visited.unique_seq_to_set();
    all.lemma_cardinality_of_set();
    assert(visited.to_set().subset_of(all.to_set()));
    vstd::set_lib::lemma_len_subset(visited.to_set(), all.to_set());
}

/// More terminals, and notes that agree on `op`, keep its seals terminal.
proof fn lemma_seals_terminal_mono(
    tv: Map<OpId, TransitionModel>,
    tv2: Map<OpId, TransitionModel>,
    op: OpId,
    terms: Seq<Terminal>,
    terms2: Seq<Terminal>,
    bundles: Seq<AnchoredBundle>,
)
    requires
        seals_terminal(tv, op, terms, bundles),
        tv2[op] == tv[op],
        forall|x: Terminal| #[trigger] terms.contains(x) ==> terms2.contains(x),
    ensures
        seals_terminal(tv2, op, terms2, bundles),
{
    assert forall|s: Outpoint| #[trigger] tv2[op].seals.contains(Some(s)) implies terms2.contains(
        (Terminal { bundle_id: holder_id(bundles, op), seal: s }),
    ) by {
        assert(tv[op].seals.contains(Some(s)));
    }
}

/// Accounting for a larger set of operations keeps a transition covered.
proof fn lemma_covered_mono(
    tv: Map<OpId, TransitionModel>,
    v: OpId,
    g: OpId,
    vis: Seq<OpId>,
    st: Seq<OpId>,
    vis2: Seq<OpId>,
    st2: Seq<OpId>,
)
    requires
        covered(tv, v, g, vis, st),
        forall|y: OpId| #[trigger] vis.contains(y) ==> vis2.contains(y),
        forall|y: OpId| #[trigger] st.contains(y) ==> y == g || vis2.contains(y) || st2.contains(y),
    ensures
        covered(tv, v, g, vis2, st2),
{
    assert forall|k: int| 0 <= k < tv[v].inputs.len() implies closed_ref(
        #[trigger] tv[v].inputs[k].op,
        g,
        vis2,
        st2,
    ) by {
        let y = tv[v].inputs[k].op;
        assert(closed_ref(y, g, vis, st));
    }
}

/// Visiting `op`, noting its transition `t` and scheduling what it spends
/// keeps every visited operation noted and covered.
proof fn lemma_noted(
    bundles: Seq<AnchoredBundle>,
    ptv: Map<OpId, TransitionModel>,
    tv: Map<OpId, TransitionModel>,
    pv: Seq<OpId>,
    v: Seq<OpId>,
    st0: Seq<OpId>,
    ps: Seq<OpId>,
    s: Seq<OpId>,
    op: OpId,
    t: TransitionModel,
    g: OpId,
)
    requires
        v == pv.push(op),
        !pv.contains(op),
        s == ps + t.inputs.map_values(|i: Opout| i.op),
        tv == ptv.insert(op, t),
        t.id == op,
        stash_holds(bundles, t),
        forall|y: OpId| #[trigger] st0.contains(y) ==> y == op || ps.contains(y),
        forall|x: OpId| #[trigger] pv.contains(x) ==> {
            &&& ptv.dom().contains(x)
            &&& ptv[x].id == x
            &&& stash_holds(bundles, ptv[x])
            &&& covered(ptv, x, g, pv, st0)
        },
    ensures
        forall|x: OpId| #[trigger] v.contains(x) ==> {
            &&& tv.dom().contains(x)
            &&& tv[x].id == x
            &&& stash_holds(bundles, tv[x])
            &&& covered(tv, x, g, v, s)
        },
{
    assert forall|y: OpId| #[trigger] pv.contains(y) implies v.contains(y) by {
        let w = choose|w: int| 0 <= w < pv.len() && pv[w] == y;
        assert(v[w] == y);
    }
    assert(v[pv.len() as int] == op);
    assert forall|y: OpId| #[trigger] ps.contains(y) implies s.contains(y) by {
        let w = choose|w: int| 0 <= w < ps.len() && ps[w] == y;
        assert(s[w] == y);
    }
    assert forall|x: OpId| #[trigger] v.contains(x) implies {
        &&& tv.dom().contains(x)
        &&& tv[x].id == x
        &&& stash_holds(bundles, tv[x])
        &&& covered(tv, x, g, v, s)
    } by {
        if x == op {
            assert forall|k: int| 0 <= k < tv[x].inputs.len() implies closed_ref(
                #[trigger] tv[x].inputs[k].op,
                g,
                v,
                s,
            ) by {
                assert(s[ps.len() + k] == t.inputs[k].op);
            }
        } else {
            let w = choose|w: int| 0 <= w < v.len() && v[w] == x;
            assert(pv[w] == x);
            assert(pv.contains(x));
            assert(tv[x] == ptv[x]);
            lemma_covered_mono(ptv, x, g, pv, st0, v, s);
        }
    }
}

/// After one more operation is visited and its transition revealed, every
/// visited operation is still revealed, and every one visited before is
/// still visited.
proof fn lemma_visited_grows(
    pv: Seq<OpId>,
    v: Seq<OpId>,
    op: OpId,
    pc: Seq<AnchoredBundle>,
    c: Seq<AnchoredBundle>,
)
    requires
        v == pv.push(op),
        forall|x: OpId| #[trigger] pv.contains(x) ==> revealed(pc, x),
        forall|x: OpId| revealed(pc, x) ==> revealed(c, x),
        revealed(c, op),
    ensures
        forall|x: OpId| #[trigger] v.contains(x) ==> revealed(c, x),
        forall|x: OpId| #[trigger] pv.contains(x) ==> v.contains(x),
{
    assert forall|x: OpId| #[trigger] v.contains(x) implies revealed(c, x) by {
        if x != op {
            let w = choose|w: int| 0 <= w < v.len() && v[w] == x;
            assert(pv[w] == x);
            assert(pv.contains(x));
        }
    }
    assert forall|x: OpId| #[trigger] pv.contains(x) implies v.contains(x) by {
        let w = choose|w: int| 0 <= w < pv.len() && pv[w] == x;
        assert(v[w] == x);
    }
}

/// Whether `v` holds `t`.
fn contains_terminal(v: &Vec<Terminal>, t: Terminal) -> (r: bool)
    ensures
        r == v@.contains(t),
{
    let mut i: usize = 0;
    while i < v.len()
        invariant
            i <= v@.len(),
            forall|k: int| 0 <= k < i ==> v@[k] != t,
        decreases v@.len() - i,
    {
        if v[i].bundle_id == t.bundle_id && v[i].seal.txid == t.seal.txid && v[i].seal.vout == t.seal.vout {
            assert(v@[i as int] == t);
            return true;
        }
        i += 1;
    }
    false
}

/// The position of the entry for `opid` in `items`, if there is one.
fn find_entry(items: &Vec<crate::operations::BundleItem>, opid: OpId) -> (r: Option<usize>)
    ensures
        r matches Some(j) ==> j < items@.len() && items@[j as int].opid == opid,
        r is None ==> forall|j: int| 0 <= j < items@.len() ==> items@[j].opid != opid,
{
    let mut j: usize = 0;
    while j < items.len()
        invariant
            j <= items@.len(),
            forall|k: int| 0 <= k < j ==> items@[k].opid != opid,
        decreases items@.len() - j,
    {
        if items[j].opid == opid {
            return Some(j);
        }
        j += 1;
    }
    None
}

/// Whether `v` holds `p`.
fn contains_outpoint(v: &Vec<Outpoint>, p: Outpoint) -> (r: bool)
    ensures
        r == v@.contains(p),
{
    let mut i: usize = 0;
    while i < v.len()
        invariant
            i <= v@.len(),
            forall|k: int| 0 <= k < i ==> v@[k] != p,
        decreases v@.len() - i,
    {
        if v[i].txid == p.txid && v[i].vout == p.vout {
            assert(v@[i as int] == p);
            return true;
        }
        i += 1;
    }
    false
}

} // verus!
