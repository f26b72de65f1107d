//! Witnesses, anchors and the way partially revealed copies of them merge.

use vstd::prelude::*;

use crate::operations::{reveal_all, RevealError, TransitionBundle, TransitionModel};
use crate::{BundleId, OpId, Txid};

verus! {

/// A transaction in full: its identifier and its witness data.
#[derive(Clone, Debug)]
pub struct Tx {
    pub txid: Txid,
    pub witness: Vec<u8>,
}

/// A reference to a witness transaction, by identifier only or in full.
#[derive(Clone, Debug)]
pub enum PubWitness {
    Txid(Txid),
    Tx(Tx),
}

/// Why two partially revealed values could not be merged.
#[derive(Clone, Copy, Debug, PartialEq, Eq, Structural)]
pub enum MergeRevealError {
    /// The two witnesses reference different transactions.
    TxidMismatch(Txid, Txid),
    /// The two witnesses live on different chains.
    ChainMismatch { bitcoin: Txid, liquid: Txid },
    /// Two bundles claim the same witness under different anchors.
    AnchorsNonEqual(BundleId),
    /// Two copies of a bundle disagree on its identifier.
    BundleMismatch(BundleId, BundleId),
    /// One copy of a bundle reveals an operation the other has no entry for.
    Reveal(RevealError),
}

impl PubWitness {
    pub open spec fn txid_spec(&self) -> Txid {
        match self {
            PubWitness::Txid(txid) => *txid,
            PubWitness::Tx(tx) => tx.txid,
        }
    }

    /// Which of two witnesses with the same identifier reveals more: a full
    /// transaction beats an identifier, and of two full transactions the one
    /// with more witness data wins (the first one on a tie).
    pub open spec fn richer(a: PubWitness, b: PubWitness) -> PubWitness {
        match (a, b) {
            (PubWitness::Txid(_), PubWitness::Txid(_)) => a,
            (PubWitness::Txid(_), PubWitness::Tx(_)) => b,
            (PubWitness::Tx(_), PubWitness::Txid(_)) => a,
            (PubWitness::Tx(t1), PubWitness::Tx(t2)) => if t2.witness@.len() > t1.witness@.len() {
                b
            } else {
                a
            },
        }
    }

    pub open spec fn merge_spec(a: PubWitness, b: PubWitness) -> Result<PubWitness, MergeRevealError> {
        if a.txid_spec() == b.txid_spec() {
            Ok(PubWitness::richer(a, b))
        } else {
            Err(MergeRevealError::TxidMismatch(a.txid_spec(), b.txid_spec()))
        }
    }

    pub fn new(txid: Txid) -> (r: Self)
        ensures
            r == PubWitness::Txid(txid),
    {
        PubWitness::Txid(txid)
    }

    pub fn with(tx: Tx) -> (r: Self)
        ensures
            r == PubWitness::Tx(tx),
    {
        PubWitness::Tx(tx)
    }

    pub fn txid(&self) -> (r: Txid)
        ensures
            r == self.txid_spec(),
    {
        match self {
            PubWitness::Txid(txid) => *txid,
            PubWitness::Tx(tx) => tx.txid,
        }
    }

    pub fn tx(&self) -> (r: Option<&Tx>)
        ensures
            match self {
                PubWitness::Txid(_) => r.is_none(),
                PubWitness::Tx(tx) => r == Some(tx),
            },
    {
        match self {
            PubWitness::Txid(_) => None,
            PubWitness::Tx(tx) => Some(tx),
        }
    }

    /// Merges two references to the same transaction, keeping the richer one.
    pub fn merge_reveal(self, other: Self) -> (r: Result<Self, MergeRevealError>)
        ensures
            r == PubWitness::merge_spec(self, other),
    {
        let a = self.txid();
        let b = other.txid();
        if a != b {
            return Err(MergeRevealError::TxidMismatch(a, b));
        }
        match (self, other) {
            (PubWitness::Txid(t), PubWitness::Txid(_)) => Ok(PubWitness::Txid(t)),
            (PubWitness::Txid(_), PubWitness::Tx(tx)) => Ok(PubWitness::Tx(tx)),
            (PubWitness::Tx(tx), PubWitness::Txid(_)) => Ok(PubWitness::Tx(tx)),
            (PubWitness::Tx(t1), PubWitness::Tx(t2)) => if t2.witness.len() > t1.witness.len() {
                Ok(PubWitness::Tx(t2))
            } else {
                Ok(PubWitness::Tx(t1))
            },
        }
    }
}

impl PartialEq for PubWitness {
    fn eq(&self, other: &PubWitness) -> (r: bool) {
        self.txid() == other.txid()
    }
}

impl vstd::std_specs::cmp::PartialEqSpecImpl for PubWitness {
    open spec fn obeys_eq_spec() -> bool {
        true
    }

    open spec fn eq_spec(&self, other: &PubWitness) -> bool {
        self.txid_spec() == other.txid_spec()
    }
}

pub open spec fn compare(a: u64, b: u64) -> std::cmp::Ordering {
    if a < b {
        std::cmp::Ordering::Less
    } else if a > b {
        std::cmp::Ordering::Greater
    } else {
        std::cmp::Ordering::Equal
    }
}

fn compare_ids(a: u64, b: u64) -> (r: std::cmp::Ordering)
    ensures
        r == compare(a, b),
{
    if a < b {
        std::cmp::Ordering::Less
    } else if a > b {
        std::cmp::Ordering::Greater
    } else {
        std::cmp::Ordering::Equal
    }
}

/// Witnesses are ordered by their identifiers alone.
impl PartialOrd for PubWitness {
    fn partial_cmp(&self, other: &PubWitness) -> (r: Option<std::cmp::Ordering>) {
        Some(compare_ids(self.txid(), other.txid()))
    }
}

impl vstd::std_specs::cmp::PartialOrdSpecImpl for PubWitness {
    open spec fn obeys_partial_cmp_spec() -> bool {
        true
    }

    open spec fn partial_cmp_spec(&self, other: &PubWitness) -> Option<std::cmp::Ordering> {
        Some(compare(self.txid_spec(), other.txid_spec()))
    }
}

/// A value qualified by the chain it lives on.
#[derive(Clone, Copy, Debug, PartialEq, Eq, Structural)]
pub enum XChain<T> {
    Bitcoin(T),
    Liquid(T),
}

/// A witness qualified by its chain.
pub type XPubWitness = XChain<PubWitness>;

/// A witness identifier qualified by its chain.
pub type XWitnessId = XChain<Txid>;

/// Anything that names a chain-qualified witness transaction.
pub trait ToWitnessId {
    spec fn witness_id_spec(&self) -> XWitnessId;

    fn to_witness_id(&self) -> (r: XWitnessId)
        ensures
            r == self.witness_id_spec(),
    ;
}

impl ToWitnessId for XChain<PubWitness> {
    open spec fn witness_id_spec(&self) -> XWitnessId {
        match self {
            XChain::Bitcoin(w) => XChain::Bitcoin(w.txid_spec()),
            XChain::Liquid(w) => XChain::Liquid(w.txid_spec()),
        }
    }

    fn to_witness_id(&self) -> (r: XWitnessId) {
        match self {
            XChain::Bitcoin(w) => XChain::Bitcoin(w.txid()),
            XChain::Liquid(w) => XChain::Liquid(w.txid()),
        }
    }
}

impl XChain<PubWitness> {
    pub open spec fn merge_spec(a: XPubWitness, b: XPubWitness) -> Result<XPubWitness, MergeRevealError> {
        match (a, b) {
            (XChain::Bitcoin(x), XChain::Bitcoin(y)) => match PubWitness::merge_spec(x, y) {
                Ok(w) => Ok(XChain::Bitcoin(w)),
                Err(e) => Err(e),
            },
            (XChain::Liquid(x), XChain::Liquid(y)) => match PubWitness::merge_spec(x, y) {
                Ok(w) => Ok(XChain::Liquid(w)),
                Err(e) => Err(e),
            },
            (XChain::Bitcoin(x), XChain::Liquid(y)) => Err(
                MergeRevealError::ChainMismatch { bitcoin: x.txid_spec(), liquid: y.txid_spec() },
            ),
            (XChain::Liquid(y), XChain::Bitcoin(x)) => Err(
                MergeRevealError::ChainMismatch { bitcoin: x.txid_spec(), liquid: y.txid_spec() },
            ),
        }
    }

    /// Merges two chain-qualified witnesses; witnesses on different chains
    /// never merge.
    pub fn merge_reveal(self, other: Self) -> (r: Result<Self, MergeRevealError>)
        ensures
            r == XChain::<PubWitness>::merge_spec(self, other),
    {
        match (self, other) {
            (XChain::Bitcoin(x), XChain::Bitcoin(y)) => match x.merge_reveal(y) {
                Ok(w) => Ok(XChain::Bitcoin(w)),
                Err(e) => Err(e),
            },
            (XChain::Liquid(x), XChain::Liquid(y)) => match x.merge_reveal(y) {
                Ok(w) => Ok(XChain::Liquid(w)),
                Err(e) => Err(e),
            },
            (XChain::Bitcoin(x), XChain::Liquid(y)) => Err(
                MergeRevealError::ChainMismatch { bitcoin: x.txid(), liquid: y.txid() },
            ),
            (XChain::Liquid(y), XChain::Bitcoin(x)) => Err(
                MergeRevealError::ChainMismatch { bitcoin: x.txid(), liquid: y.txid() },
            ),
        }
    }
}

/// What an anchor proof is known to commit to: its witness transaction and
/// the messages it reveals, as pairs of leaf position and message.
pub struct AnchorModel {
    pub txid: Txid,
    pub known: Set<(u64, u64)>,
}

/// A set of pairs in which no leaf position carries two messages.
pub open spec fn functional(s: Set<(u64, u64)>) -> bool {
    forall|p: (u64, u64), q: (u64, u64)| s.contains(p) && s.contains(q) && p.0 == q.0 ==> p.1 == q.1
}

/// No leaf position carries one message in `a` and another in `b`.
pub open spec fn compatible(a: Set<(u64, u64)>, b: Set<(u64, u64)>) -> bool {
    forall|p: (u64, u64), q: (u64, u64)| a.contains(p) && b.contains(q) && p.0 == q.0 ==> p.1 == q.1
}

/// Why two anchor proofs could not be merged.
#[derive(Clone, Copy, Debug, PartialEq, Eq, Structural)]
pub enum MergeError {
    /// The proofs commit into different witness transactions.
    UnrelatedProof,
    /// The proofs put different messages at one leaf position.
    LeafConflict,
}

pub open spec fn anchor_merge(a: AnchorModel, b: AnchorModel) -> Result<AnchorModel, MergeError> {
    if a.txid != b.txid {
        Err(MergeError::UnrelatedProof)
    } else if !compatible(a.known, b.known) {
        Err(MergeError::LeafConflict)
    } else {
        Ok(AnchorModel { txid: a.txid, known: a.known.union(b.known) })
    }
}

/// A commitment proof of a batch of bundles into a witness transaction,
/// given by the messages it is known to commit at each leaf position.
#[derive(Clone, Debug)]
pub struct Anchor {
    pub txid: Txid,
    pub known: Vec<(u64, u64)>,
}

impl Anchor {
    pub open spec fn view(&self) -> AnchorModel {
        AnchorModel { txid: self.txid, known: self.known@.to_set() }
    }

    /// Each leaf position is listed once.
    pub open spec fn wf(&self) -> bool {
        forall|i: int, j: int|
            0 <= i < j < self.known@.len() ==> self.known@[i].0 != self.known@[j].0
    }

    /// The message known at a leaf position, if any.
    pub fn message_at(&self, leaf: u64) -> (r: Option<u64>)
        requires
            self.wf(),
        ensures
            r matches Some(m) ==> self.view().known.contains((leaf, m)),
            r is None ==> forall|m: u64| !self.view().known.contains((leaf, m)),
    {
        let mut i: usize = 0;
        while i < self.known.len()
            invariant
                i <= self.known@.len(),
                forall|j: int| 0 <= j < i ==> self.known@[j].0 != leaf,
            decreases self.known@.len() - i,
        {
            if self.known[i].0 == leaf {
                assert(self.known@.contains(self.known@[i as int]));
                return Some(self.known[i].1);
            }
            i += 1;
        }
        proof {
            assert forall|m: u64| !self.view().known.contains((leaf, m)) by {
                if self.known@.contains((leaf, m)) {
                    let j = choose|j: int| 0 <= j < self.known@.len() && self.known@[j] == (leaf, m);
                }
            }
        }
        None
    }

    /// A copy of the anchor.
    pub fn duplicate(&self) -> (r: Anchor)
        ensures
            r.txid == self.txid,
            r.known@ == self.known@,
    {
        let mut known: Vec<(u64, u64)> = Vec::new();
        let mut i: usize = 0;
        while i < self.known.len()
            invariant
                i <= self.known@.len(),
                known@ == self.known@.subrange(0, i as int),
            decreases self.known@.len() - i,
        {
            known.push(self.known[i]);
            i += 1;
            assert(known@ =~= self.known@.subrange(0, i as int));
        }
        assert(known@ =~= self.known@);
        Anchor { txid: self.txid, known }
    }

    /// Whether two anchors are the same proof, entry by entry.
    pub fn same_as(&self, other: &Anchor) -> (r: bool)
        ensures
            r == (self.txid == other.txid && self.known@ == other.known@),
    {
        if self.txid != other.txid || self.known.len() != other.known.len() {
            return false;
        }
        let mut i: usize = 0;
        while i < self.known.len()
            invariant
                self.known@.len() == other.known@.len(),
                i <= self.known@.len(),
                forall|j: int| 0 <= j < i ==> self.known@[j] == other.known@[j],
            decreases self.known@.len() - i,
        {
            if self.known[i].0 != other.known[i].0 || self.known[i].1 != other.known[i].1 {
                return false;
            }
            i += 1;
        }
        assert(self.known@ =~= other.known@);
        true
    }

    /// Merges two proofs of commitments into one witness transaction,
    /// revealing every message either of them reveals.
    pub fn merge_reveal(self, other: Anchor) -> (r: Result<Anchor, MergeError>)
        requires
            self.wf(),
            other.wf(),
        ensures
            match r {
                Ok(a) => a.wf() && anchor_merge(self.view(), other.view()) == Ok::<
                    AnchorModel,
                    MergeError,
                >(a.view()),
                Err(e) => anchor_merge(self.view(), other.view()) == Err::<AnchorModel, MergeError>(
                    e,
                ),
            },
    {
        if self.txid != other.txid {
            return Err(MergeError::UnrelatedProof);
        }
        let mut merged = Anchor { txid: self.txid, known: self.known };
        let ghost a = self.known@.to_set();
        let ghost b = other.known@;
        let mut i: usize = 0;
        while i < other.known.len()
            invariant
                b == other.known@,
                other.wf(),
                merged.wf(),
                merged.txid == self.txid,
                self.txid == other.txid,
                i <= b.len(),
                merged.known@.to_set() == a.union(b.subrange(0, i as int).to_set()),
                compatible(a, b.subrange(0, i as int).to_set()),
                a == self.known@.to_set(),
                self.wf(),
            decreases b.len() - i,
        {
            let (leaf, msg) = other.known[i];
            let ghost sub = b.subrange(0, i as int);
            let ghost next = b.subrange(0, i + 1);
            assert(next.to_set() == sub.to_set().insert((leaf, msg))) by {
                assert(next =~= sub.push((leaf, msg)));
                sub.lemma_push_to_set_commute((leaf, msg));
            }
            match merged.message_at(leaf) {
                Some(m) => {
                    if m != msg {
                        proof {
                            // the entry at `leaf` can only come from `self`
                            if !a.contains((leaf, m)) {
                                assert(sub.to_set().contains((leaf, m)));
                                let j = choose|j: int| 0 <= j < sub.len() && sub[j] == (leaf, m);
                                assert(b[j].0 == b[i as int].0);
                            }
                            assert(a.contains((leaf, m)) && other.known@.to_set().contains((leaf, msg)))
                                by {
                                assert(b[i as int] == (leaf, msg));
                            }
                            assert(!compatible(a, other.known@.to_set()));
                            assert(self.view().known == a);
                            assert(anchor_merge(self.view(), other.view()) == Err::<
                                AnchorModel,
                                MergeError,
                            >(MergeError::LeafConflict));
                        }
                        return Err(MergeError::LeafConflict);
                    }
                    proof {
                        assert(merged.known@.to_set().insert((leaf, msg)) == merged.known@.to_set());
                        assert forall|p: (u64, u64), q: (u64, u64)|
                            a.contains(p) && next.to_set().contains(q) && p.0 == q.0 implies p.1
                            == q.1 by {
                            if q == (leaf, msg) {
                                assert(merged.known@.to_set().contains(p));
                                let x = choose|x: int| 0 <= x < merged.known@.len() && merged.known@[x] == p;
                                let y = choose|y: int| 0 <= y < merged.known@.len() && merged.known@[y] == (leaf, m);
                                // one entry per leaf, so both are the entry at `leaf`
                                assert(x == y);
                            }
                        }
                    }
                },
                None => {
                    let ghost old_known = merged.known@;
                    assert forall|m: u64| !old_known.to_set().contains((leaf, m)) by {
                        assert(!merged.view().known.contains((leaf, m)));
                    }
                    merged.known.push((leaf, msg));
                    proof {
                        old_known.lemma_push_to_set_commute((leaf, msg));
                        assert(merged.known@ == old_known.push((leaf, msg)));
                        assert forall|x: int, y: int|
                            0 <= x < y < merged.known@.len() implies merged.known@[x].0
                            != merged.known@[y].0 by {
                            if y == old_known.len() {
                                assert(old_known.to_set().contains(old_known[x]));
                                if old_known[x].0 == leaf {
                                    assert(old_known[x] == (leaf, old_known[x].1));
                                }
                            }
                        }
                        assert forall|p: (u64, u64), q: (u64, u64)|
                            a.contains(p) && next.to_set().contains(q) && p.0 == q.0 implies p.1
                            == q.1 by {
                            if q == (leaf, msg) {
                                assert(old_known.to_set().contains(p));
                                assert(p == (leaf, p.1));
                            }
                        }
                    }
                },
            }
            i += 1;
        }
        proof {
            assert(b.subrange(0, b.len() as int) =~= b);
        }
        Ok(merged)
    }
}

/// The proofs an anchor set holds, one optional proof per embedding mechanism.
pub struct AnchorSetModel {
    pub tapret: Option<AnchorModel>,
    pub opret: Option<AnchorModel>,
}

pub open spec fn side_merge(a: Option<AnchorModel>, b: Option<AnchorModel>) -> Result<
    Option<AnchorModel>,
    MergeError,
> {
    match (a, b) {
        (None, _) => Ok(b),
        (_, None) => Ok(a),
        (Some(x), Some(y)) => match anchor_merge(x, y) {
            Ok(m) => Ok(Some(m)),
            Err(e) => Err(e),
        },
    }
}

/// Merge of two anchor sets: each mechanism's proofs merge on their own, a
/// mechanism present on one side only passes through, and the tapret side
/// reports its failure first.
pub open spec fn anchor_set_merge(a: AnchorSetModel, b: AnchorSetModel) -> Result<
    AnchorSetModel,
    MergeError,
> {
    match side_merge(a.tapret, b.tapret) {
        Err(e) => Err(e),
        Ok(t) => match side_merge(a.opret, b.opret) {
            Err(e) => Err(e),
            Ok(o) => Ok(AnchorSetModel { tapret: t, opret: o }),
        },
    }
}

/// Every message an anchor's known leaves carry.
pub open spec fn messages(known: Set<(u64, u64)>) -> Set<u64> {
    known.map(|p: (u64, u64)| p.1)
}

pub open spec fn side_messages(a: Option<AnchorModel>) -> Set<u64> {
    match a {
        Some(m) => messages(m.known),
        None => Set::empty(),
    }
}

/// One or both commitment proofs of bundles into one witness transaction.
#[derive(Clone, Debug)]
pub enum AnchorSet {
    Tapret(Anchor),
    Opret(Anchor),
    Double { tapret: Anchor, opret: Anchor },
}

impl AnchorSet {
    pub open spec fn view(&self) -> AnchorSetModel {
        match self {
            AnchorSet::Tapret(t) => AnchorSetModel { tapret: Some(t.view()), opret: None },
            AnchorSet::Opret(o) => AnchorSetModel { tapret: None, opret: Some(o.view()) },
            AnchorSet::Double { tapret, opret } => AnchorSetModel {
                tapret: Some(tapret.view()),
                opret: Some(opret.view()),
            },
        }
    }

    pub open spec fn wf(&self) -> bool {
        match self {
            AnchorSet::Tapret(t) => t.wf(),
            AnchorSet::Opret(o) => o.wf(),
            AnchorSet::Double { tapret, opret } => tapret.wf() && opret.wf(),
        }
    }

    pub fn has_tapret(&self) -> (r: bool)
        ensures
            r == self.view().tapret.is_some(),
    {
        match self {
            AnchorSet::Opret(_) => false,
            _ => true,
        }
    }

    pub fn has_opret(&self) -> (r: bool)
        ensures
            r == self.view().opret.is_some(),
    {
        match self {
            AnchorSet::Tapret(_) => false,
            _ => true,
        }
    }

    /// The bundle identifiers the proofs commit to, each listed once.
    pub fn known_bundle_ids(&self) -> (r: Vec<BundleId>)
        ensures
            r@.no_duplicates(),
            r@.to_set() == side_messages(self.view().tapret).union(
                side_messages(self.view().opret),
            ),
    {
        let mut ids: Vec<BundleId> = Vec::new();
        match self {
            AnchorSet::Tapret(t) => {
                collect_messages(&mut ids, t);
                assert(ids@.to_set() =~= side_messages(self.view().tapret).union(
                    side_messages(self.view().opret),
                ));
            },
            AnchorSet::Opret(o) => {
                collect_messages(&mut ids, o);
                assert(ids@.to_set() =~= side_messages(self.view().tapret).union(
                    side_messages(self.view().opret),
                ));
            },
            AnchorSet::Double { tapret, opret } => {
                collect_messages(&mut ids, tapret);
                collect_messages(&mut ids, opret);
                assert(ids@.to_set() =~= side_messages(self.view().tapret).union(
                    side_messages(self.view().opret),
                ));
            },
        }
        ids
    }

    /// Merges two anchor sets for one witness. Proofs of one mechanism merge
    /// with each other; proofs of different mechanisms combine into a double
    /// anchor; no proof is dropped.
    pub fn merge_reveal(self, other: AnchorSet) -> (r: Result<AnchorSet, MergeError>)
        requires
            self.wf(),
            other.wf(),
        ensures
            match r {
                Ok(m) => m.wf() && anchor_set_merge(self.view(), other.view()) == Ok::<
                    AnchorSetModel,
                    MergeError,
                >(m.view()),
                Err(e) => anchor_set_merge(self.view(), other.view()) == Err::<
                    AnchorSetModel,
                    MergeError,
                >(e),
            },
    {
        match (self, other) {
            (AnchorSet::Tapret(x), AnchorSet::Tapret(y)) => Ok(AnchorSet::Tapret(x.merge_reveal(y)?)),
            (AnchorSet::Opret(x), AnchorSet::Opret(y)) => Ok(AnchorSet::Opret(x.merge_reveal(y)?)),
            (AnchorSet::Tapret(tapret), AnchorSet::Opret(opret)) => Ok(
                AnchorSet::Double { tapret, opret },
            ),
            (AnchorSet::Opret(opret), AnchorSet::Tapret(tapret)) => Ok(
                AnchorSet::Double { tapret, opret },
            ),
            (AnchorSet::Double { tapret, opret }, AnchorSet::Tapret(t)) => Ok(
                AnchorSet::Double { tapret: tapret.merge_reveal(t)?, opret },
            ),
            (AnchorSet::Tapret(t), AnchorSet::Double { tapret, opret }) => Ok(
                AnchorSet::Double { tapret: t.merge_reveal(tapret)?, opret },
            ),
            (AnchorSet::Double { tapret, opret }, AnchorSet::Opret(o)) => Ok(
                AnchorSet::Double { tapret, opret: opret.merge_reveal(o)? },
            ),
            (AnchorSet::Opret(o), AnchorSet::Double { tapret, opret }) => Ok(
                AnchorSet::Double { tapret, opret: o.merge_reveal(opret)? },
            ),
            (AnchorSet::Double { tapret, opret }, AnchorSet::Double { tapret: t, opret: o }) => {
                let tapret = tapret.merge_reveal(t)?;
                let opret = opret.merge_reveal(o)?;
                Ok(AnchorSet::Double { tapret, opret })
            },
        }
    }
}

/// Appends to `ids` each message of `a` that it does not hold yet.
fn collect_messages(ids: &mut Vec<BundleId>, a: &Anchor)
    requires
        old(ids)@.no_duplicates(),
    ensures
        final(ids)@.no_duplicates(),
        final(ids)@.to_set() == old(ids)@.to_set().union(messages(a.view().known)),
{
    let mut i: usize = 0;
    while i < a.known.len()
        invariant
            i <= a.known@.len(),
            ids@.no_duplicates(),
            ids@.to_set() == old(ids)@.to_set().union(
                messages(a.known@.subrange(0, i as int).to_set()),
            ),
        decreases a.known@.len() - i,
    {
        let msg = a.known[i].1;
        let ghost sub = a.known@.subrange(0, i as int);
        proof {
            assert(a.known@.subrange(0, i + 1) =~= sub.push(a.known@[i as int]));
            sub.lemma_push_to_set_commute(a.known@[i as int]);
            lemma_messages_insert(sub.to_set(), a.known@[i as int]);
        }
        let mut found = false;
        let mut j: usize = 0;
        while j < ids.len()
            invariant
                j <= ids@.len(),
                found == exists|k: int| 0 <= k < j && ids@[k] == msg,
            decreases ids@.len() - j,
        {
            if ids[j] == msg {
                found = true;
            }
            j += 1;
        }
        if !found {
            let ghost before = ids@;
            ids.push(msg);
            proof {
                before.lemma_push_to_set_commute(msg);
                assert forall|x: int, y: int| 0 <= x < y < ids@.len() implies ids@[x] != ids@[y] by {
                    if y == before.len() {
                        assert(before[x] == ids@[x]);
                    }
                }
            }
        } else {
            assert(ids@.to_set().insert(msg) =~= ids@.to_set());
        }
        i += 1;
    }
    assert(a.known@.subrange(0, a.known@.len() as int) =~= a.known@);
}

proof fn lemma_messages_insert(s: Set<(u64, u64)>, e: (u64, u64))
    ensures
        messages(s.insert(e)) == messages(s).insert(e.1),
{
    assert forall|x: u64| #[trigger] messages(s.insert(e)).contains(x) <==> messages(s).insert(
        e.1,
    ).contains(x) by {
        if x == e.1 {
            assert(s.insert(e).contains(e));
        }
        if messages(s).contains(x) {
            let p = choose|p: (u64, u64)| s.contains(p) && p.1 == x;
            assert(s.insert(e).contains(p));
        }
    }
    assert(messages(s.insert(e)) =~= messages(s).insert(e.1));
}

/// A witness together with the anchors committed into it.
#[derive(Clone, Debug)]
pub struct SealWitness {
    pub public: XPubWitness,
    pub anchors: AnchorSet,
}

impl SealWitness {
    pub fn new(witness: XPubWitness, anchors: AnchorSet) -> (r: SealWitness)
        ensures
            r.public == witness,
            r.anchors == anchors,
    {
        SealWitness { public: witness, anchors }
    }

    pub fn witness_id(&self) -> (r: XWitnessId)
        ensures
            r == self.public.witness_id_spec(),
    {
        self.public.to_witness_id()
    }
}

/// Merging the result of a merge with one of its inputs again, from either
/// side, gives that same result back.
pub proof fn lemma_anchor_set_merge_absorbs(a: AnchorSetModel, b: AnchorSetModel)
    requires
        a.tapret matches Some(t) ==> functional(t.known),
        a.opret matches Some(o) ==> functional(o.known),
    ensures
        anchor_set_merge(a, b) matches Ok(ab) ==> anchor_set_merge(ab, a) == Ok::<
            AnchorSetModel,
            MergeError,
        >(ab) && anchor_set_merge(a, ab) == Ok::<AnchorSetModel, MergeError>(ab),
{
    if let Ok(ab) = anchor_set_merge(a, b) {
        lemma_side_merge_absorbs(a.tapret, b.tapret);
        lemma_side_merge_absorbs(a.opret, b.opret);
    }
}

proof fn lemma_side_merge_absorbs(a: Option<AnchorModel>, b: Option<AnchorModel>)
    requires
        a matches Some(t) ==> functional(t.known),
    ensures
        side_merge(a, b) matches Ok(ab) ==> side_merge(ab, a) == Ok::<Option<AnchorModel>, MergeError>(
            ab,
        ) && side_merge(a, ab) == Ok::<Option<AnchorModel>, MergeError>(ab),
{
    if let (Some(x), Some(y)) = (a, b) {
        if let Ok(m) = anchor_merge(x, y) {
            assert(m.known.union(x.known) =~= m.known);
            assert(x.known.union(m.known) =~= m.known);
            assert(compatible(m.known, x.known));
            assert(compatible(x.known, m.known));
        }
    }
    if let (Some(x), None) = (a, b) {
        assert(x.known.union(x.known) =~= x.known);
    }
}

/// Anchor set merge does not depend on the order of its arguments.
pub proof fn lemma_anchor_set_merge_commutes(a: AnchorSetModel, b: AnchorSetModel)
    ensures
        anchor_set_merge(a, b) is Ok <==> anchor_set_merge(b, a) is Ok,
        anchor_set_merge(a, b) is Ok ==> anchor_set_merge(a, b) == anchor_set_merge(b, a),
{
    lemma_side_merge_commutes(a.tapret, b.tapret);
    lemma_side_merge_commutes(a.opret, b.opret);
}

proof fn lemma_side_merge_commutes(a: Option<AnchorModel>, b: Option<AnchorModel>)
    ensures
        side_merge(a, b) is Ok <==> side_merge(b, a) is Ok,
        side_merge(a, b) is Ok ==> side_merge(a, b) == side_merge(b, a),
{
    if let (Some(x), Some(y)) = (a, b) {
        assert(x.known.union(y.known) =~= y.known.union(x.known));
        assert(compatible(x.known, y.known) == compatible(y.known, x.known));
    }
}

/// A bundle of transitions with the anchor that commits it.
#[derive(Clone, Debug)]
pub struct AnchoredBundle {
    pub anchor: Anchor,
    pub bundle: TransitionBundle,
}

impl AnchoredBundle {
    /// A copy of the anchored bundle.
    pub fn duplicate(&self) -> (r: AnchoredBundle)
        requires
            self.bundle.wf(),
        ensures
            r.anchor.txid == self.anchor.txid,
            r.anchor.known@ == self.anchor.known@,
            r.bundle.wf(),
            r.bundle.id == self.bundle.id,
            r.bundle.view() == self.bundle.view(),
    {
        AnchoredBundle { anchor: self.anchor.duplicate(), bundle: self.bundle.duplicate() }
    }
}

/// A bundle of transitions, its anchor and the witness it is anchored in:
/// what peers exchange and merge. Two witness bundles count as equal when
/// their witnesses are.
#[derive(Clone, Debug)]
pub struct WitnessBundle {
    pub pub_witness: XPubWitness,
    pub anchor: Anchor,
    pub bundle: TransitionBundle,
}

pub open spec fn witness_bundle_merge(a: WitnessBundle, b: WitnessBundle) -> Result<
    (XPubWitness, Seq<(OpId, Option<TransitionModel>)>),
    MergeRevealError,
> {
    match XChain::<PubWitness>::merge_spec(a.pub_witness, b.pub_witness) {
        Err(e) => Err(e),
        Ok(w) => if !(a.anchor.txid == b.anchor.txid && a.anchor.known@ == b.anchor.known@) {
            Err(MergeRevealError::AnchorsNonEqual(a.bundle.id))
        } else if a.bundle.id != b.bundle.id {
            Err(MergeRevealError::BundleMismatch(a.bundle.id, b.bundle.id))
        } else {
            match reveal_all(a.bundle.view(), b.bundle.view()) {
                Err(op) => Err(MergeRevealError::Reveal(RevealError::UnrelatedTransition(op))),
                Ok(m) => Ok((w, m)),
            }
        }
    }
}

impl WitnessBundle {
    pub fn witness_id(&self) -> (r: XWitnessId)
        ensures
            r == self.pub_witness.witness_id_spec(),
    {
        self.pub_witness.to_witness_id()
    }

    /// Merges two copies of a witness bundle: the witnesses merge, the anchors
    /// must be the same proof, and the bundle reveals what either copy
    /// reveals.
    pub fn merge_reveal(self, other: WitnessBundle) -> (r: Result<WitnessBundle, MergeRevealError>)
        requires
            self.bundle.wf(),
            other.bundle.wf(),
        ensures
            match r {
                Ok(m) => m.bundle.wf() && m.anchor == self.anchor && m.bundle.id == self.bundle.id
                    && witness_bundle_merge(self, other) == Ok::<
                    (XPubWitness, Seq<(OpId, Option<TransitionModel>)>),
                    MergeRevealError,
                >((m.pub_witness, m.bundle.view())),
                Err(e) => witness_bundle_merge(self, other) == Err::<
                    (XPubWitness, Seq<(OpId, Option<TransitionModel>)>),
                    MergeRevealError,
                >(e),
            },
    {
        let ghost a = self;
        let ghost b = other;
        let pub_witness = self.pub_witness.merge_reveal(other.pub_witness)?;
        if !self.anchor.same_as(&other.anchor) {
            return Err(MergeRevealError::AnchorsNonEqual(self.bundle.bundle_id()));
        }
        if self.bundle.id != other.bundle.id {
            return Err(MergeRevealError::BundleMismatch(self.bundle.id, other.bundle.id));
        }
        match self.bundle.merge_reveal(other.bundle) {
            Ok(bundle) => Ok(WitnessBundle { pub_witness, anchor: self.anchor, bundle }),
            Err(e) => Err(MergeRevealError::Reveal(e)),
        }
    }
}

impl PartialEq for WitnessBundle {
    fn eq(&self, other: &WitnessBundle) -> (r: bool) {
        match (&self.pub_witness, &other.pub_witness) {
            (XChain::Bitcoin(x), XChain::Bitcoin(y)) => x.txid() == y.txid(),
            (XChain::Liquid(x), XChain::Liquid(y)) => x.txid() == y.txid(),
            _ => false,
        }
    }
}

impl vstd::std_specs::cmp::PartialEqSpecImpl for WitnessBundle {
    open spec fn obeys_eq_spec() -> bool {
        true
    }

    open spec fn eq_spec(&self, other: &WitnessBundle) -> bool {
        self.pub_witness.witness_id_spec() == other.pub_witness.witness_id_spec()
    }
}

/// Witness bundles are ordered by their witnesses: by chain, bitcoin first,
/// then by identifier.
impl PartialOrd for WitnessBundle {
    fn partial_cmp(&self, other: &WitnessBundle) -> (r: Option<std::cmp::Ordering>) {
        match (&self.pub_witness, &other.pub_witness) {
            (XChain::Bitcoin(x), XChain::Bitcoin(y)) => Some(compare_ids(x.txid(), y.txid())),
            (XChain::Liquid(x), XChain::Liquid(y)) => Some(compare_ids(x.txid(), y.txid())),
            (XChain::Bitcoin(_), XChain::Liquid(_)) => Some(std::cmp::Ordering::Less),
            (XChain::Liquid(_), XChain::Bitcoin(_)) => Some(std::cmp::Ordering::Greater),
        }
    }
}

impl vstd::std_specs::cmp::PartialOrdSpecImpl for WitnessBundle {
    open spec fn obeys_partial_cmp_spec() -> bool {
        true
    }

    open spec fn partial_cmp_spec(&self, other: &WitnessBundle) -> Option<std::cmp::Ordering> {
        match (self.pub_witness, other.pub_witness) {
            (XChain::Bitcoin(x), XChain::Bitcoin(y)) => Some(compare(x.txid_spec(), y.txid_spec())),
            (XChain::Liquid(x), XChain::Liquid(y)) => Some(compare(x.txid_spec(), y.txid_spec())),
            (XChain::Bitcoin(_), XChain::Liquid(_)) => Some(std::cmp::Ordering::Less),
            (XChain::Liquid(_), XChain::Bitcoin(_)) => Some(std::cmp::Ordering::Greater),
        }
    }
}

/// Merging two witnesses with one identifier succeeds and keeps the
/// identifier; with different identifiers it fails, naming both.
pub proof fn lemma_pub_witness_merge(a: PubWitness, b: PubWitness)
    ensures
        a.txid_spec() == b.txid_spec() ==> (PubWitness::merge_spec(a, b) matches Ok(w)
            && w.txid_spec() == a.txid_spec()),
        a.txid_spec() != b.txid_spec() ==> PubWitness::merge_spec(a, b) == Err::<
            PubWitness,
            MergeRevealError,
        >(MergeRevealError::TxidMismatch(a.txid_spec(), b.txid_spec())),
{
}

/// Witness merge does not depend on the order of its arguments, up to the
/// tie between two full transactions with equally much witness data.
pub proof fn lemma_pub_witness_merge_commutes(a: PubWitness, b: PubWitness)
    requires
        a.txid_spec() == b.txid_spec(),
        !(a is Tx && b is Tx),
    ensures
        PubWitness::merge_spec(a, b) == PubWitness::merge_spec(b, a),
{
}

} // verus!
