//! The consignment container and the replay of its history.

use vstd::prelude::*;

use crate::anchors::AnchoredBundle;
use crate::operations::{
    reveals, spends, BundleItem, Extension, Outpoint, Transition, TransitionBundle, TransitionModel,
};
use crate::{BundleId, OpId, Txid};

verus! {

/// Identifier of a schema.
pub type SchemaId = u64;

/// Identifier of a contract.
pub type ContractId = u64;

/// Identifier of an interface.
pub type IfaceId = u64;

/// Identifier of an interface implementation.
pub type IfaceImplId = u64;

/// A schema, and the root schema it is a subset of, if any.
#[derive(Clone, Copy, Debug, PartialEq, Eq, Structural)]
pub struct Schema {
    pub id: SchemaId,
    pub subset_of: Option<SchemaId>,
}

/// The operation that issues a contract.
#[derive(Clone, Copy, Debug, PartialEq, Eq, Structural)]
pub struct Genesis {
    pub id: OpId,
    pub schema_id: SchemaId,
    pub contract_id: ContractId,
}

/// A seal at which a consignment's history may stop, in the bundle that
/// assigns to it.
#[derive(Clone, Copy, Debug, PartialEq, Eq, Structural)]
pub struct Terminal {
    pub bundle_id: BundleId,
    pub seal: Outpoint,
}

/// What a validation run found: how many failures and warnings.
#[derive(Clone, Copy, Debug, PartialEq, Eq, Structural)]
pub struct Status {
    pub failures: u32,
    pub warnings: u32,
}

/// Where in the chain an operation's witness stands: ordered by height, then
/// by transaction identifier.
#[derive(Clone, Copy, Debug, PartialEq, Eq, Structural)]
pub struct WitnessAnchor {
    pub height: u32,
    pub txid: Txid,
}

pub open spec fn anchor_le(a: WitnessAnchor, b: WitnessAnchor) -> bool {
    a.height < b.height || (a.height == b.height && a.txid <= b.txid)
}

impl WitnessAnchor {
    pub fn new(height: u32, txid: Txid) -> (r: WitnessAnchor)
        ensures
            r == (WitnessAnchor { height, txid }),
    {
        WitnessAnchor { height, txid }
    }

    /// Whether `self` comes no later than `other`.
    pub fn le(&self, other: &WitnessAnchor) -> (r: bool)
        ensures
            r == anchor_le(*self, *other),
    {
        self.height < other.height || (self.height == other.height && self.txid <= other.txid)
    }
}

/// The operations of a contract, each at the place in the chain that
/// justifies it, from which its state is replayed.
#[derive(Clone, Debug)]
pub struct ContractHistory {
    pub schema_id: SchemaId,
    pub root_schema_id: Option<SchemaId>,
    pub contract_id: ContractId,
    pub genesis_id: OpId,
    pub transitions: Vec<(WitnessAnchor, OpId)>,
    pub extensions: Vec<(WitnessAnchor, OpId)>,
}

/// A package of contract history, from genesis to a set of terminals.
/// `TYPE` tells a transfer (`true`) from a contract export (`false`).
#[derive(Clone, Debug)]
pub struct Consignment<const TYPE: bool> {
    /// The outcome of the latest local validation; never carried along.
    pub validation_status: Option<Status>,
    pub version: u8,
    pub transfer: bool,
    pub schema: Schema,
    /// The interfaces the contract supports, each with its implementation.
    pub ifaces: Vec<(IfaceId, IfaceImplId)>,
    pub genesis: Genesis,
    pub terminals: Vec<Terminal>,
    pub bundles: Vec<AnchoredBundle>,
    pub extensions: Vec<Extension>,
}

/// A consignment of a transfer.
pub type Transfer = Consignment<true>;

/// A consignment of a whole contract.
pub type Contract = Consignment<false>;

/// The version of the container format written by this library.
pub const CONTAINER_VERSION: u8 = 2;

/// An operation found in a consignment.
#[derive(Debug)]
pub enum OpRef<'a> {
    Genesis(&'a Genesis),
    Transition(&'a Transition),
    Extension(&'a Extension),
}

/// `bundles[i]`'s entry `j` is the first entry for `opid`, bundles and
/// entries taken in order.
pub open spec fn first_entry_at(bundles: Seq<AnchoredBundle>, opid: OpId, i: int, j: int) -> bool {
    &&& 0 <= i < bundles.len()
    &&& 0 <= j < bundles[i].bundle.items@.len()
    &&& bundles[i].bundle.items@[j].opid == opid
    &&& forall|y: int| 0 <= y < j ==> bundles[i].bundle.items@[y].opid != opid
    &&& forall|x: int, y: int|
        0 <= x < i && 0 <= y < bundles[x].bundle.items@.len() ==> bundles[x].bundle.items@[y].opid != opid
}

/// The first entry for `opid` reveals `t`.
pub open spec fn first_revealed(bundles: Seq<AnchoredBundle>, opid: OpId, t: Transition) -> bool {
    exists|i: int, j: int|
        first_entry_at(bundles, opid, i, j) && bundles[i].bundle.items@[j].transition == Some(t)
}

/// No entry for `opid` exists, or the first one is concealed.
pub open spec fn first_concealed(bundles: Seq<AnchoredBundle>, opid: OpId) -> bool {
    forall|i: int, j: int|
        first_entry_at(bundles, opid, i, j) ==> bundles[i].bundle.items@[j].transition is None
}

/// Whether some extension has identifier `opid`.
pub open spec fn has_extension(exts: Seq<Extension>, opid: OpId) -> bool {
    exists|i: int| 0 <= i < exts.len() && exts[i].id == opid
}

/// The transitions a bundle reveals, each at the key of the bundle.
pub open spec fn revealed_in(items: Seq<BundleItem>, key: WitnessAnchor) -> Seq<
    (WitnessAnchor, TransitionModel),
>
    decreases items.len(),
{
    if items.len() == 0 {
        Seq::empty()
    } else {
        revealed_in(items.drop_last(), key) + match items.last().transition {
            Some(t) => seq![(key, t.view())],
            None => Seq::empty(),
        }
    }
}

/// The transitions the entries reveal, in order.
pub open spec fn revealed_transitions(items: Seq<BundleItem>) -> Seq<Transition>
    decreases items.len(),
{
    if items.len() == 0 {
        Seq::empty()
    } else {
        revealed_transitions(items.drop_last()) + match items.last().transition {
            Some(t) => seq![t],
            None => Seq::empty(),
        }
    }
}

pub open spec fn bundle_key(b: AnchoredBundle, height: u32) -> WitnessAnchor {
    WitnessAnchor { height, txid: b.anchor.txid }
}

/// Every revealed transition of the bundles, in order, at the key formed
/// from its bundle's witness and the height that witness was mined at.
pub open spec fn replay_entries(bundles: Seq<AnchoredBundle>, heights: Seq<u32>) -> Seq<
    (WitnessAnchor, TransitionModel),
>
    decreases bundles.len(),
{
    if bundles.len() == 0 {
        Seq::empty()
    } else {
        replay_entries(bundles.drop_last(), heights) + revealed_in(
            bundles.last().bundle.items@,
            bundle_key(bundles.last(), heights[bundles.len() - 1]),
        )
    }
}

/// The earliest key at which a transition spending an output of `ext`
/// stands, if any does.
pub open spec fn earliest(entries: Seq<(WitnessAnchor, TransitionModel)>, ext: OpId) -> Option<
    WitnessAnchor,
>
    decreases entries.len(),
{
    if entries.len() == 0 {
        None
    } else {
        let prev = earliest(entries.drop_last(), ext);
        let (key, t) = entries.last();
        if spends(t, ext) {
            match prev {
                Some(p) => if anchor_le(p, key) {
                    Some(p)
                } else {
                    Some(key)
                },
                None => Some(key),
            }
        } else {
            prev
        }
    }
}

/// The extensions that some transition spends from, each at the earliest
/// key of such a transition, in the order of `exts`.
pub open spec fn placed_extensions(exts: Seq<Extension>, entries: Seq<(WitnessAnchor, TransitionModel)>) -> Seq<
    (WitnessAnchor, OpId),
>
    decreases exts.len(),
{
    if exts.len() == 0 {
        Seq::empty()
    } else {
        placed_extensions(exts.drop_last(), entries) + match earliest(entries, exts.last().id) {
            Some(k) => seq![(k, exts.last().id)],
            None => Seq::empty(),
        }
    }
}

pub open spec fn entry_ids(entries: Seq<(WitnessAnchor, TransitionModel)>) -> Seq<(WitnessAnchor, OpId)> {
    entries.map_values(|e: (WitnessAnchor, TransitionModel)| (e.0, e.1.id))
}

pub open spec fn entries_view(entries: Seq<(WitnessAnchor, Transition)>) -> Seq<
    (WitnessAnchor, TransitionModel),
> {
    entries.map_values(|e: (WitnessAnchor, Transition)| (e.0, e.1.view()))
}

/// History entries are ordered by key, height then transaction, and then by
/// operation.
pub open spec fn entry_le(a: (WitnessAnchor, OpId), b: (WitnessAnchor, OpId)) -> bool {
    a.0.height < b.0.height || (a.0.height == b.0.height && (a.0.txid < b.0.txid || (a.0.txid
        == b.0.txid && a.1 <= b.1)))
}

pub open spec fn sorted_entries(s: Seq<(WitnessAnchor, OpId)>) -> bool {
    forall|i: int, j: int| 0 <= i < j < s.len() ==> entry_le(#[trigger] s[i], #[trigger] s[j])
}

fn entry_le_exec(a: &(WitnessAnchor, OpId), b: &(WitnessAnchor, OpId)) -> (r: bool)
    ensures
        r == entry_le(*a, *b),
{
    a.0.height < b.0.height || (a.0.height == b.0.height && (a.0.txid < b.0.txid || (a.0.txid
        == b.0.txid && a.1 <= b.1)))
}

/// The entries of `v`, in order.
fn sort_entries(v: &Vec<(WitnessAnchor, OpId)>) -> (r: Vec<(WitnessAnchor, OpId)>)
    ensures
        sorted_entries(r@),
        r@.to_multiset() == v@.to_multiset(),
{
    let mut r: Vec<(WitnessAnchor, OpId)> = Vec::new();
    assert(r@ =~= v@.subrange(0, 0));
    let mut i: usize = 0;
    while i < v.len()
        invariant
            i <= v@.len(),
            sorted_entries(r@),
            r@.to_multiset() == v@.subrange(0, i as int).to_multiset(),
        decreases v@.len() - i,
    {
        let x = v[i];
        let mut p: usize = 0;
        while p < r.len() && entry_le_exec(&r[p], &x)
            invariant
                p <= r@.len(),
                forall|q: int| 0 <= q < p ==> entry_le(#[trigger] r@[q], x),
            decreases r@.len() - p,
        {
            p += 1;
        }
        let ghost before = r@;
        r.insert(p, x);
        proof {
            assert(r@ == before.insert(p as int, x));
            vstd::seq_lib::to_multiset_insert(before, p as int, x);
            assert(v@.subrange(0, i + 1) =~= v@.subrange(0, i as int).push(x));
            vstd::seq_lib::to_multiset_build(v@.subrange(0, i as int), x);
            assert forall|a: int, b: int| 0 <= a < b < r@.len() implies entry_le(
                #[trigger] r@[a],
                #[trigger] r@[b],
            ) by {
                if a < p && b == p {
                } else if a == p && b > p {
                    assert(!entry_le(before[p as int], x));
                    if b > p + 1 {
                        assert(entry_le(before[p as int], before[b - 1]));
                    }
                } else if a < p && b > p {
                    assert(entry_le(before[a], before[b - 1]));
                } else if a > p {
                    assert(entry_le(before[a - 1], before[b - 1]));
                } else {
                    assert(entry_le(before[a], before[b]));
                }
            }
        }
        i += 1;
    }
    assert(v@.subrange(0, v@.len() as int) =~= v@);
    r
}

/// `h` is the history with the given identifiers, transitions `ts` and
/// extensions `es`, with the consignment replayed onto it, its witnesses
/// mined at `heights`: every entry in key order, whatever order the bundles
/// and extensions came in.
pub open spec fn replayed<const TYPE: bool>(
    h: ContractHistory,
    ids: (SchemaId, Option<SchemaId>, ContractId, OpId),
    ts: Seq<(WitnessAnchor, OpId)>,
    es: Seq<(WitnessAnchor, OpId)>,
    c: Consignment<TYPE>,
    heights: Seq<u32>,
) -> bool {
    &&& (h.schema_id, h.root_schema_id, h.contract_id, h.genesis_id) == ids
    &&& sorted_entries(h.transitions@)
    &&& sorted_entries(h.extensions@)
    &&& h.transitions@.to_multiset() == (ts + entry_ids(replay_entries(c.bundles@, heights))).to_multiset()
    &&& h.extensions@.to_multiset() == (es + placed_extensions(
        c.extensions@,
        replay_entries(c.bundles@, heights),
    )).to_multiset()
}

/// `h` is `given` (an empty history of the contract where none is given)
/// with the consignment replayed onto it, its witnesses mined at `heights`.
pub open spec fn replayed_from<const TYPE: bool>(
    h: ContractHistory,
    given: Option<ContractHistory>,
    c: Consignment<TYPE>,
    heights: Seq<u32>,
) -> bool {
    &&& heights.len() == c.bundles@.len()
    &&& match given {
        Some(h0) => replayed(h, history_ids(h0), h0.transitions@, h0.extensions@, c, heights),
        None => replayed(h, c.genesis_ids(), Seq::empty(), Seq::empty(), c, heights),
    }
}

pub open spec fn history_ids(h: ContractHistory) -> (SchemaId, Option<SchemaId>, ContractId, OpId) {
    (h.schema_id, h.root_schema_id, h.contract_id, h.genesis_id)
}

/// The earliest key found is that of a transition spending from `ext`, and
/// no transition spending from `ext` stands before it.
pub proof fn lemma_earliest_is_minimum(entries: Seq<(WitnessAnchor, TransitionModel)>, ext: OpId)
    ensures
        earliest(entries, ext) is None <==> forall|i: int|
            0 <= i < entries.len() ==> !spends(#[trigger] entries[i].1, ext),
        earliest(entries, ext) matches Some(k) ==> (exists|i: int|
            0 <= i < entries.len() && spends(#[trigger] entries[i].1, ext) && entries[i].0 == k)
            && forall|i: int|
            0 <= i < entries.len() && spends(#[trigger] entries[i].1, ext) ==> anchor_le(
                k,
                entries[i].0,
            ),
    decreases entries.len(),
{
    if entries.len() > 0 {
        let prev = entries.drop_last();
        lemma_earliest_is_minimum(prev, ext);
        assert forall|i: int| 0 <= i < prev.len() implies prev[i] == entries[i] by {}
        let n = entries.len() - 1;
        if let Some(k) = earliest(entries, ext) {
            if let Some(p) = earliest(prev, ext) {
                let w = choose|i: int| 0 <= i < prev.len() && spends(#[trigger] prev[i].1, ext) && prev[i].0 == p;
                assert(spends(entries[w].1, ext));
            }
        }
        if earliest(entries, ext) is None {
            assert forall|i: int| 0 <= i < entries.len() implies !spends(#[trigger] entries[i].1, ext) by {
                if i < n {
                    assert(prev[i] == entries[i]);
                }
            }
        }
    }
}

/// There is one first entry for an operation.
pub proof fn lemma_first_entry_unique(bundles: Seq<AnchoredBundle>, opid: OpId, i: int, j: int)
    requires
        first_entry_at(bundles, opid, i, j),
    ensures
        forall|x: int, y: int| first_entry_at(bundles, opid, x, y) ==> x == i && y == j,
{
    assert forall|x: int, y: int| first_entry_at(bundles, opid, x, y) implies x == i && y == j by {
        if x < i {
            assert(bundles[x].bundle.items@[y].opid != opid);
        } else if x > i {
            assert(bundles[i].bundle.items@[j].opid != opid);
        } else if y < j {
            assert(bundles[i].bundle.items@[y].opid != opid);
        } else if y > j {
            assert(bundles[x].bundle.items@[j].opid != opid);
        }
    }
}

/// The height taken for each bundle that reveals a transition is one that
/// `resolver` has answered for the bundle's witness.
pub open spec fn resolved_all<R: ResolveHeight>(resolver: R, bundles: Seq<AnchoredBundle>, heights: Seq<u32>) -> bool {
    forall|k: int|
        0 <= k < bundles.len() && !reveals_none(#[trigger] bundles[k].bundle.items@) ==> resolver.resolved(
            bundles[k].anchor.txid,
            heights[k],
        )
}

/// No entry reveals a transition.
pub open spec fn reveals_none(items: Seq<BundleItem>) -> bool {
    forall|j: int| 0 <= j < items.len() ==> (#[trigger] items[j]).transition is None
}

/// Whether some entry reveals a transition.
fn reveals_any(items: &Vec<BundleItem>) -> (r: bool)
    ensures
        r == !reveals_none(items@),
{
    let mut j: usize = 0;
    while j < items.len()
        invariant
            j <= items@.len(),
            forall|y: int| 0 <= y < j ==> (#[trigger] items@[y]).transition is None,
        decreases items@.len() - j,
    {
        if items[j].transition.is_some() {
            return true;
        }
        j += 1;
    }
    false
}

/// Whether `v` holds `id`.
pub fn contains_id(v: &Vec<OpId>, id: OpId) -> (r: bool)
    ensures
        r == v@.contains(id),
{
    let mut i: usize = 0;
    while i < v.len()
        invariant
            i <= v@.len(),
            forall|k: int| 0 <= k < i ==> v@[k] != id,
        decreases v@.len() - i,
    {
        if v[i] == id {
            assert(v@[i as int] == id);
            return true;
        }
        i += 1;
    }
    false
}

/// A source of the heights at which witness transactions were mined.
/// `resolved(txid, height)` says that the resolver has answered `height` for
/// `txid`; what it has answered stays answered.
pub trait ResolveHeight {
    type Error;

    spec fn resolved(&self, txid: Txid, height: u32) -> bool;

    fn resolve_height(&mut self, txid: Txid) -> (r: Result<u32, Self::Error>)
        ensures
            r matches Ok(h) ==> final(self).resolved(txid, h),
            forall|t: Txid, h: u32| old(self).resolved(t, h) ==> final(self).resolved(t, h),
    ;
}

impl<const TYPE: bool> Consignment<TYPE> {
    /// An empty consignment of a contract issued by `genesis` under `schema`.
    pub fn new(schema: Schema, genesis: Genesis) -> (r: Self)
        requires
            schema.id == genesis.schema_id,
        ensures
            r.validation_status is None,
            r.version == CONTAINER_VERSION,
            r.transfer == TYPE,
            r.schema == schema,
            r.genesis == genesis,
            r.ifaces@.len() == 0,
            r.terminals@.len() == 0,
            r.bundles@.len() == 0,
            r.extensions@.len() == 0,
    {
        Consignment {
            validation_status: None,
            version: CONTAINER_VERSION,
            transfer: TYPE,
            schema,
            ifaces: Vec::new(),
            genesis,
            terminals: Vec::new(),
            bundles: Vec::new(),
            extensions: Vec::new(),
        }
    }

    pub fn schema_id(&self) -> (r: SchemaId)
        ensures
            r == self.schema.id,
    {
        self.schema.id
    }

    pub fn root_schema_id(&self) -> (r: Option<SchemaId>)
        ensures
            r == self.schema.subset_of,
    {
        self.schema.subset_of
    }

    pub fn contract_id(&self) -> (r: ContractId)
        ensures
            r == self.genesis.contract_id,
    {
        self.genesis.contract_id
    }

    pub fn schema(&self) -> (r: &Schema)
        ensures
            *r == self.schema,
    {
        &self.schema
    }

    pub fn genesis(&self) -> (r: &Genesis)
        ensures
            *r == self.genesis,
    {
        &self.genesis
    }

    pub fn validation_status(&self) -> (r: Option<&Status>)
        ensures
            match self.validation_status {
                Some(s) => r == Some(&s),
                None => r is None,
            },
    {
        self.validation_status.as_ref()
    }

    pub fn into_validation_status(self) -> (r: Option<Status>)
        ensures
            r == self.validation_status,
    {
        self.validation_status
    }

    pub fn anchored_bundles(&self) -> (r: &Vec<AnchoredBundle>)
        ensures
            r == &self.bundles,
    {
        &self.bundles
    }

    /// The first bundle with the identifier `bundle_id`.
    pub fn anchored_bundle(&self, bundle_id: BundleId) -> (r: Option<&AnchoredBundle>)
        ensures
            r is None ==> forall|i: int|
                0 <= i < self.bundles@.len() ==> self.bundles@[i].bundle.id != bundle_id,
            r matches Some(b) ==> exists|i: int|
                0 <= i < self.bundles@.len() && self.bundles@[i] == *b && b.bundle.id == bundle_id
                    && forall|k: int| 0 <= k < i ==> self.bundles@[k].bundle.id != bundle_id,
    {
        let mut i: usize = 0;
        while i < self.bundles.len()
            invariant
                i <= self.bundles@.len(),
                forall|k: int| 0 <= k < i ==> self.bundles@[k].bundle.id != bundle_id,
            decreases self.bundles@.len() - i,
        {
            if self.bundles[i].bundle.id == bundle_id {
                return Some(&self.bundles[i]);
            }
            i += 1;
        }
        None
    }

    /// The transition in the first entry for `opid`, bundles and entries
    /// taken in order; `None` where no bundle has an entry for `opid` or that
    /// first entry is concealed.
    pub fn transition(&self, opid: OpId) -> (r: Option<&Transition>)
        ensures
            r matches Some(t) ==> first_revealed(self.bundles@, opid, *t),
            r is None ==> first_concealed(self.bundles@, opid),
    {
        let mut i: usize = 0;
        while i < self.bundles.len()
            invariant
                i <= self.bundles@.len(),
                forall|x: int, y: int|
                    0 <= x < i && 0 <= y < self.bundles@[x].bundle.items@.len()
                        ==> self.bundles@[x].bundle.items@[y].opid != opid,
            decreases self.bundles@.len() - i,
        {
            let items = &self.bundles[i].bundle.items;
            let mut j: usize = 0;
            while j < items.len()
                invariant
                    i < self.bundles@.len(),
                    items == &self.bundles@[i as int].bundle.items,
                    j <= items@.len(),
                    forall|y: int| 0 <= y < j ==> items@[y].opid != opid,
                    forall|x: int, y: int|
                        0 <= x < i && 0 <= y < self.bundles@[x].bundle.items@.len()
                            ==> self.bundles@[x].bundle.items@[y].opid != opid,
                decreases items@.len() - j,
            {
                if items[j].opid == opid {
                    assert(first_entry_at(self.bundles@, opid, i as int, j as int));
                    return match &items[j].transition {
                        Some(t) => Some(t),
                        None => None,
                    };
                }
                j += 1;
            }
            i += 1;
        }
        None
    }

    pub open spec fn genesis_ids(&self) -> (SchemaId, Option<SchemaId>, ContractId, OpId) {
        (self.schema.id, self.schema.subset_of, self.genesis.contract_id, self.genesis.id)
    }

    /// Replays the consignment onto `history` (onto an empty history of the
    /// contract where none is given), with the witness of the `i`-th bundle
    /// mined at `heights[i]`: each revealed transition at its bundle's key, in
    /// order, then each extension that some transition spends from, at the
    /// earliest key of such a transition.
    pub fn replay(&self, history: Option<ContractHistory>, heights: &Vec<u32>) -> (r: ContractHistory)
        requires
            heights@.len() == self.bundles@.len(),
        ensures
            history matches Some(h) ==> replayed(
                r,
                history_ids(h),
                h.transitions@,
                h.extensions@,
                *self,
                heights@,
            ),
            history is None ==> replayed(
                r,
                self.genesis_ids(),
                Seq::empty(),
                Seq::empty(),
                *self,
                heights@,
            ),
    {
        let mut hist = match history {
            Some(h) => h,
            None => ContractHistory {
                schema_id: self.schema.id,
                root_schema_id: self.schema.subset_of,
                contract_id: self.genesis.contract_id,
                genesis_id: self.genesis.id,
                transitions: Vec::new(),
                extensions: Vec::new(),
            },
        };
        let ghost base = hist;
        let mut entries: Vec<(WitnessAnchor, Transition)> = Vec::new();
        let mut i: usize = 0;
        while i < self.bundles.len()
            invariant
                heights@.len() == self.bundles@.len(),
                i <= self.bundles@.len(),
                entries_view(entries@) == replay_entries(self.bundles@.subrange(0, i as int), heights@),
                hist.transitions@ == base.transitions@ + entry_ids(entries_view(entries@)),
                hist.extensions@ == base.extensions@,
                hist.schema_id == base.schema_id,
                hist.root_schema_id == base.root_schema_id,
                hist.contract_id == base.contract_id,
                hist.genesis_id == base.genesis_id,
            decreases self.bundles@.len() - i,
        {
            let key = WitnessAnchor { height: heights[i], txid: self.bundles[i].anchor.txid };
            let items = &self.bundles[i].bundle.items;
            let ghost done = entries_view(entries@);
            let mut j: usize = 0;
            while j < items.len()
                invariant
                    i < self.bundles@.len(),
                    items == &self.bundles@[i as int].bundle.items,
                    j <= items@.len(),
                    entries_view(entries@) == done + revealed_in(items@.subrange(0, j as int), key),
                    hist.transitions@ == base.transitions@ + entry_ids(entries_view(entries@)),
                    hist.extensions@ == base.extensions@,
                    hist.schema_id == base.schema_id,
                    hist.root_schema_id == base.root_schema_id,
                    hist.contract_id == base.contract_id,
                    hist.genesis_id == base.genesis_id,
                decreases items@.len() - j,
            {
                let ghost before = entries_view(entries@);
                proof {
                    assert(items@.subrange(0, j + 1).drop_last() =~= items@.subrange(0, j as int));
                }
                if let Some(t) = &items[j].transition {
                    entries.push((key, t.duplicate()));
                    hist.transitions.push((key, t.id));
                    assert(entries_view(entries@) =~= before.push((key, t.view())));
                    assert(entry_ids(entries_view(entries@)) =~= entry_ids(before).push((key, t.id)));
                }
                j += 1;
            }
            proof {
                let pre = self.bundles@.subrange(0, i + 1);
                assert(pre.drop_last() =~= self.bundles@.subrange(0, i as int));
                assert(items@.subrange(0, items@.len() as int) =~= items@);
                assert(pre.last() == self.bundles@[i as int]);
            }
            i += 1;
        }
        proof {
            assert(self.bundles@.subrange(0, self.bundles@.len() as int) =~= self.bundles@);
        }
        let ghost all = entries_view(entries@);
        let mut k: usize = 0;
        while k < self.extensions.len()
            invariant
                k <= self.extensions@.len(),
                all == entries_view(entries@),
                hist.extensions@ == base.extensions@ + placed_extensions(
                    self.extensions@.subrange(0, k as int),
                    all,
                ),
                hist.transitions@ == base.transitions@ + entry_ids(all),
                hist.schema_id == base.schema_id,
                hist.root_schema_id == base.root_schema_id,
                hist.contract_id == base.contract_id,
                hist.genesis_id == base.genesis_id,
            decreases self.extensions@.len() - k,
        {
            let ext = self.extensions[k].id;
            let mut best: Option<WitnessAnchor> = None;
            let mut m: usize = 0;
            while m < entries.len()
                invariant
                    m <= entries@.len(),
                    all == entries_view(entries@),
                    best == earliest(all.subrange(0, m as int), ext),
                decreases entries@.len() - m,
            {
                proof {
                    assert(all.subrange(0, m + 1).drop_last() =~= all.subrange(0, m as int));
                }
                if entries[m].1.spends(ext) {
                    let key = entries[m].0;
                    best = match best {
                        Some(p) => if p.le(&key) {
                            Some(p)
                        } else {
                            Some(key)
                        },
                        None => Some(key),
                    };
                }
                m += 1;
            }
            proof {
                assert(all.subrange(0, all.len() as int) =~= all);
                let pre = self.extensions@.subrange(0, k + 1);
                assert(pre.drop_last() =~= self.extensions@.subrange(0, k as int));
            }
            let ghost before = hist.extensions@;
            if let Some(key) = best {
                hist.extensions.push((key, ext));
            }
            proof {
                let pre = self.extensions@.subrange(0, k + 1);
                assert(hist.extensions@ =~= base.extensions@ + placed_extensions(pre, all));
            }
            k += 1;
        }
        proof {
            assert(self.extensions@.subrange(0, self.extensions@.len() as int) =~= self.extensions@);
        }
        hist.transitions = sort_entries(&hist.transitions);
        hist.extensions = sort_entries(&hist.extensions);
        hist
    }

    /// Replays the consignment onto `history`, resolving through `resolver`
    /// the height of the witness of each bundle that reveals a transition.
    /// The first resolver failure is returned and nothing is replayed; where
    /// no bundle reveals a transition, the resolver is not asked and the
    /// replay succeeds.
    pub fn update_history<R: ResolveHeight>(&self, history: Option<ContractHistory>, resolver: &mut R) -> (r:
        Result<ContractHistory, R::Error>)
        ensures
            r matches Ok(h) ==> exists|heights: Seq<u32>|
                replayed_from(h, history, *self, heights) && resolved_all(*final(resolver), self.bundles@, heights),
            (forall|i: int| 0 <= i < self.bundles@.len() ==> reveals_none(
                #[trigger] self.bundles@[i].bundle.items@,
            )) ==> r is Ok,
    {
        let mut heights: Vec<u32> = Vec::new();
        let mut i: usize = 0;
        while i < self.bundles.len()
            invariant
                i <= self.bundles@.len(),
                heights@.len() == i,
                resolved_all(*resolver, self.bundles@.subrange(0, i as int), heights@),
            decreases self.bundles@.len() - i,
        {
            let ghost before = *resolver;
            if reveals_any(&self.bundles[i].bundle.items) {
                let height = resolver.resolve_height(self.bundles[i].anchor.txid)?;
                heights.push(height);
            } else {
                // no transition of this bundle is replayed, so its height is never read
                heights.push(0);
            }
            proof {
                assert forall|k: int|
                    0 <= k < i + 1 && !reveals_none(
                        #[trigger] self.bundles@.subrange(0, i + 1)[k].bundle.items@,
                    ) implies resolver.resolved(self.bundles@.subrange(0, i + 1)[k].anchor.txid, heights@[k]) by {
                    if k < i {
                        assert(self.bundles@.subrange(0, i + 1)[k] == self.bundles@.subrange(0, i as int)[k]);
                        assert(before.resolved(self.bundles@.subrange(0, i as int)[k].anchor.txid, heights@[k]));
                    }
                }
            }
            i += 1;
        }
        assert(self.bundles@.subrange(0, self.bundles@.len() as int) =~= self.bundles@);
        let ghost given = history;
        let h = self.replay(history, &heights);
        assert(replayed_from(h, given, *self, heights@));
        Ok(h)
    }

    /// The bundle of transitions with identifier `bundle_id`.
    pub fn bundle_by_id(&self, bundle_id: BundleId) -> (r: Option<&TransitionBundle>)
        ensures
            r is None ==> forall|i: int|
                0 <= i < self.bundles@.len() ==> self.bundles@[i].bundle.id != bundle_id,
            r matches Some(b) ==> exists|i: int|
                0 <= i < self.bundles@.len() && self.bundles@[i].bundle == *b && b.id == bundle_id,
    {
        match self.anchored_bundle(bundle_id) {
            Some(ab) => Some(&ab.bundle),
            None => None,
        }
    }

    /// The operation with identifier `opid`: the genesis; else the
    /// transition of the first entry for `opid` if revealed; else the
    /// extension with that identifier.
    pub fn operation(&self, opid: OpId) -> (r: Option<OpRef<'_>>)
        ensures
            opid == self.genesis.id ==> r == Some(OpRef::Genesis(&self.genesis)),
            opid != self.genesis.id ==> match r {
                Some(OpRef::Genesis(_)) => false,
                Some(OpRef::Transition(t)) => first_revealed(self.bundles@, opid, *t),
                Some(OpRef::Extension(e)) => first_concealed(self.bundles@, opid) && e.id == opid
                    && self.extensions@.contains(*e),
                None => first_concealed(self.bundles@, opid) && !has_extension(
                    self.extensions@,
                    opid,
                ),
            },
    {
        if opid == self.genesis.id {
            return Some(OpRef::Genesis(&self.genesis));
        }
        match self.transition(opid) {
            Some(t) => Some(OpRef::Transition(t)),
            None => match self.extension(opid) {
                Some(e) => Some(OpRef::Extension(e)),
                None => None,
            },
        }
    }

    /// Whether `operation(opid)` finds an operation.
    pub fn has_operation(&self, opid: OpId) -> (r: bool)
        ensures
            r == (opid == self.genesis.id || !first_concealed(self.bundles@, opid) || has_extension(
                self.extensions@,
                opid,
            )),
    {
        let r = self.operation(opid).is_some();
        proof {
            if !first_concealed(self.bundles@, opid) {
                let (i, j) = choose|i: int, j: int|
                    first_entry_at(self.bundles@, opid, i, j) && !(self.bundles@[i].bundle.items@[j].transition is None);
                lemma_first_entry_unique(self.bundles@, opid, i, j);
            }
        }
        r
    }

    /// The same consignment, as an export of the contract.
    pub fn into_contract(self) -> (r: Contract)
        ensures
            r.transfer == false,
            r.validation_status == self.validation_status,
            r.version == self.version,
            r.schema == self.schema,
            r.ifaces == self.ifaces,
            r.genesis == self.genesis,
            r.terminals == self.terminals,
            r.bundles == self.bundles,
            r.extensions == self.extensions,
    {
        Consignment {
            validation_status: self.validation_status,
            version: self.version,
            transfer: false,
            schema: self.schema,
            ifaces: self.ifaces,
            genesis: self.genesis,
            terminals: self.terminals,
            bundles: self.bundles,
            extensions: self.extensions,
        }
    }

    /// The transitions revealed in the first bundle with identifier
    /// `bundle_id`, in the bundle's order; `None` where no bundle has it.
    pub fn known_transitions_by_bundle_id(&self, bundle_id: BundleId) -> (r: Option<Vec<&Transition>>)
        ensures
            r is None <==> forall|i: int|
                0 <= i < self.bundles@.len() ==> self.bundles@[i].bundle.id != bundle_id,
            r matches Some(v) ==> exists|i: int|
                0 <= i < self.bundles@.len() && self.bundles@[i].bundle.id == bundle_id
                    && revealed_transitions(self.bundles@[i].bundle.items@) == v@.map_values(
                    |t: &Transition| *t,
                ),
    {
        let ab = self.anchored_bundle(bundle_id)?;
        let items = &ab.bundle.items;
        let mut v: Vec<&Transition> = Vec::new();
        let mut j: usize = 0;
        while j < items.len()
            invariant
                j <= items@.len(),
                v@.map_values(|t: &Transition| *t) == revealed_transitions(items@.subrange(0, j as int)),
            decreases items@.len() - j,
        {
            proof {
                assert(items@.subrange(0, j + 1).drop_last() =~= items@.subrange(0, j as int));
            }
            let ghost prev = v@;
            if let Some(t) = &items[j].transition {
                v.push(t);
                assert(v@.map_values(|t: &Transition| *t) =~= prev.map_values(|t: &Transition| *t).push(
                    *t,
                ));
            }
            j += 1;
        }
        assert(items@.subrange(0, items@.len() as int) =~= items@);
        Some(v)
    }

    /// The identifiers of the revealed transitions that `ids` does not hold,
    /// each once.
    pub fn op_ids_except(&self, ids: &Vec<OpId>) -> (r: Vec<OpId>)
        ensures
            r@.no_duplicates(),
            forall|x: OpId| #[trigger] r@.contains(x) <==> !ids@.contains(x) && exists|i: int, j: int|
                0 <= i < self.bundles@.len() && 0 <= j < self.bundles@[i].bundle.items@.len()
                    && reveals(self.bundles@[i].bundle.items@[j], x),
    {
        let mut out: Vec<OpId> = Vec::new();
        let mut i: usize = 0;
        while i < self.bundles.len()
            invariant
                i <= self.bundles@.len(),
                out@.no_duplicates(),
                forall|x: OpId| #[trigger] out@.contains(x) <==> !ids@.contains(x) && exists|a: int, b: int|
                    0 <= a < i && 0 <= b < self.bundles@[a].bundle.items@.len()
                        && reveals(self.bundles@[a].bundle.items@[b], x),
            decreases self.bundles@.len() - i,
        {
            let items = &self.bundles[i].bundle.items;
            let mut j: usize = 0;
            while j < items.len()
                invariant
                    i < self.bundles@.len(),
                    items == &self.bundles@[i as int].bundle.items,
                    j <= items@.len(),
                    out@.no_duplicates(),
                    forall|x: OpId| #[trigger] out@.contains(x) <==> !ids@.contains(x) && ((exists|a: int, b: int|
                        0 <= a < i && 0 <= b < self.bundles@[a].bundle.items@.len()
                            && reveals(self.bundles@[a].bundle.items@[b], x))
                        || exists|b: int| 0 <= b < j && reveals(items@[b], x)),
                decreases items@.len() - j,
            {
                let ghost prev = out@;
                if let Some(t) = &items[j].transition {
                    let id = t.id;
                    if !contains_id(ids, id) && !contains_id(&out, id) {
                        out.push(id);
                        proof {
                            assert(out@[prev.len() as int] == id);
                            assert(out@.contains(id));
                            assert forall|x: int, y: int| 0 <= x < y < out@.len() implies out@[x]
                                != out@[y] by {
                                if y == prev.len() {
                                    assert(prev.contains(prev[x]));
                                }
                            }
                        }
                    }
                }
                proof {
                    assert forall|x: OpId| #[trigger] out@.contains(x) <==> !ids@.contains(x) && ((
                    exists|a: int, b: int|
                        0 <= a < i && 0 <= b < self.bundles@[a].bundle.items@.len() && reveals(
                            self.bundles@[a].bundle.items@[b],
                            x,
                        )) || exists|b: int| 0 <= b < j + 1 && reveals(items@[b], x)) by {
                        if reveals(items@[j as int], x) {
                            assert(prev.contains(x) || out@.contains(x) || ids@.contains(x));
                        }
                        if out@.contains(x) && !prev.contains(x) {
                            assert(out@[prev.len() as int] == x);
                            assert(reveals(items@[j as int], x));
                        }
                        if prev.contains(x) {
                            let k = choose|k: int| 0 <= k < prev.len() && prev[k] == x;
                            assert(out@[k] == x);
                        }
                    }
                }
                j += 1;
            }
            i += 1;
        }
        out
    }

    /// The extension with identifier `opid`, if the consignment holds it.
    pub fn extension(&self, opid: OpId) -> (r: Option<&Extension>)
        ensures
            r matches Some(e) ==> e.id == opid && self.extensions@.contains(*e),
            r is None ==> !has_extension(self.extensions@, opid),
    {
        let mut i: usize = 0;
        while i < self.extensions.len()
            invariant
                i <= self.extensions@.len(),
                forall|k: int| 0 <= k < i ==> self.extensions@[k].id != opid,
            decreases self.extensions@.len() - i,
        {
            if self.extensions[i].id == opid {
                assert(self.extensions@.contains(self.extensions@[i as int]));
                return Some(&self.extensions[i]);
            }
            i += 1;
        }
        None
    }
}

} // verus!
