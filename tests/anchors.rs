use rgb_std::anchors::{
    Anchor, AnchorSet, MergeError, MergeRevealError, PubWitness, SealWitness, ToWitnessId, Tx,
    WitnessBundle, XChain,
};
use rgb_std::operations::{BundleItem, RevealError, Transition, TransitionBundle};

fn tx(txid: u64, witness: &[u8]) -> Tx {
    Tx { txid, witness: witness.to_vec() }
}

fn anchor(txid: u64, known: &[(u64, u64)]) -> Anchor {
    Anchor { txid, known: known.to_vec() }
}

fn sorted(a: &Anchor) -> Vec<(u64, u64)> {
    let mut v = a.known.clone();
    v.sort();
    v
}

fn set_parts(s: &AnchorSet) -> (Option<(u64, Vec<(u64, u64)>)>, Option<(u64, Vec<(u64, u64)>)>) {
    match s {
        AnchorSet::Tapret(t) => (Some((t.txid, sorted(t))), None),
        AnchorSet::Opret(o) => (None, Some((o.txid, sorted(o)))),
        AnchorSet::Double { tapret, opret } => {
            (Some((tapret.txid, sorted(tapret))), Some((opret.txid, sorted(opret))))
        }
    }
}

#[test]
fn pub_witness_merge_keeps_identifier() {
    let merged = PubWitness::new(7).merge_reveal(PubWitness::with(tx(7, &[1]))).unwrap();
    assert_eq!(merged.txid(), 7);
    assert!(merged.tx().is_some());
    let merged = PubWitness::new(7).merge_reveal(PubWitness::new(7)).unwrap();
    assert_eq!(merged.txid(), 7);
    assert!(merged.tx().is_none());
}

#[test]
fn pub_witness_merge_full_then_identifier() {
    let merged = PubWitness::with(tx(9, &[1, 2])).merge_reveal(PubWitness::new(9)).unwrap();
    assert_eq!(merged.tx().unwrap().witness, vec![1, 2]);
}

#[test]
fn pub_witness_merge_prefers_more_witness_data() {
    let a = PubWitness::with(tx(3, &[1]));
    let b = PubWitness::with(tx(3, &[1, 2, 3]));
    assert_eq!(a.clone().merge_reveal(b.clone()).unwrap().tx().unwrap().witness.len(), 3);
    assert_eq!(b.merge_reveal(a).unwrap().tx().unwrap().witness.len(), 3);
}

#[test]
fn pub_witness_merge_mismatch_names_both() {
    let err = PubWitness::new(1).merge_reveal(PubWitness::with(tx(2, &[]))).unwrap_err();
    assert_eq!(err, MergeRevealError::TxidMismatch(1, 2));
}

#[test]
fn pub_witness_equality_by_identifier() {
    assert!(PubWitness::new(4) == PubWitness::with(tx(4, &[9])));
    assert!(PubWitness::new(4) != PubWitness::new(5));
}

#[test]
fn chain_witness_merge() {
    let a = XChain::Bitcoin(PubWitness::new(1));
    let b = XChain::Bitcoin(PubWitness::with(tx(1, &[])));
    let merged = a.merge_reveal(b).unwrap();
    assert_eq!(merged.to_witness_id(), XChain::Bitcoin(1));
    let err = XChain::Liquid(PubWitness::new(2))
        .merge_reveal(XChain::Bitcoin(PubWitness::new(3)))
        .unwrap_err();
    assert_eq!(err, MergeRevealError::ChainMismatch { bitcoin: 3, liquid: 2 });
}

#[test]
fn seal_witness_id() {
    let s = SealWitness::new(XChain::Liquid(PubWitness::new(8)), AnchorSet::Opret(anchor(8, &[])));
    assert_eq!(s.witness_id(), XChain::Liquid(8));
}

#[test]
fn anchor_merge_reveals_union() {
    let a = anchor(5, &[(0, 10), (1, 11)]);
    let b = anchor(5, &[(1, 11), (2, 12)]);
    let m = a.merge_reveal(b).unwrap();
    assert_eq!(m.txid, 5);
    assert_eq!(sorted(&m), vec![(0, 10), (1, 11), (2, 12)]);
}

#[test]
fn anchor_merge_conflicting_leaf() {
    let a = anchor(5, &[(0, 10)]);
    let b = anchor(5, &[(0, 99)]);
    assert_eq!(a.merge_reveal(b).unwrap_err(), MergeError::LeafConflict);
}

#[test]
fn anchor_merge_unrelated_witness() {
    let a = anchor(5, &[(0, 10)]);
    let b = anchor(6, &[(0, 10)]);
    assert_eq!(a.merge_reveal(b).unwrap_err(), MergeError::UnrelatedProof);
}

#[test]
fn anchor_set_cross_mechanism_is_double() {
    let t = AnchorSet::Tapret(anchor(5, &[(0, 10)]));
    let o = AnchorSet::Opret(anchor(5, &[(3, 13)]));
    let m = o.merge_reveal(t).unwrap();
    assert!(m.has_tapret() && m.has_opret());
    assert_eq!(set_parts(&m), (Some((5, vec![(0, 10)])), Some((5, vec![(3, 13)]))));
}

#[test]
fn anchor_set_double_with_single_merges_one_side() {
    let d = AnchorSet::Double { tapret: anchor(5, &[(0, 10)]), opret: anchor(5, &[(3, 13)]) };
    let t = AnchorSet::Tapret(anchor(5, &[(1, 11)]));
    let m = t.merge_reveal(d).unwrap();
    assert_eq!(set_parts(&m), (Some((5, vec![(0, 10), (1, 11)])), Some((5, vec![(3, 13)]))));
    let d = AnchorSet::Double { tapret: anchor(5, &[(0, 10)]), opret: anchor(5, &[(3, 13)]) };
    let o = AnchorSet::Opret(anchor(5, &[(3, 14)]));
    assert_eq!(d.merge_reveal(o).unwrap_err(), MergeError::LeafConflict);
}

#[test]
fn anchor_set_merge_absorbs() {
    let a = AnchorSet::Tapret(anchor(5, &[(0, 10)]));
    let b = AnchorSet::Opret(anchor(5, &[(2, 12)]));
    let ab = a.clone().merge_reveal(b).unwrap();
    let left = ab.clone().merge_reveal(a.clone()).unwrap();
    let right = a.merge_reveal(ab.clone()).unwrap();
    assert_eq!(set_parts(&left), set_parts(&ab));
    assert_eq!(set_parts(&right), set_parts(&ab));
    assert!(matches!(left, AnchorSet::Double { .. }));
}

#[test]
fn anchor_set_tapret_only() {
    let t = AnchorSet::Tapret(anchor(1, &[]));
    assert!(t.has_tapret());
    assert!(!t.has_opret());
}

#[test]
fn known_bundle_ids_deduplicated() {
    let d = AnchorSet::Double { tapret: anchor(5, &[(0, 10), (1, 11)]), opret: anchor(5, &[(4, 11), (5, 12)]) };
    let mut ids = d.known_bundle_ids();
    ids.sort();
    assert_eq!(ids, vec![10, 11, 12]);
}

fn bundle(id: u64, items: Vec<(u64, Option<Transition>)>) -> TransitionBundle {
    TransitionBundle {
        id,
        items: items.into_iter().map(|(opid, transition)| BundleItem { opid, transition }).collect(),
    }
}

fn transition(id: u64) -> Transition {
    Transition { id, inputs: vec![], seals: vec![] }
}

#[test]
fn witness_bundle_merge_reveals_both() {
    let a = WitnessBundle {
        pub_witness: XChain::Bitcoin(PubWitness::new(1)),
        anchor: anchor(1, &[(0, 100)]),
        bundle: bundle(100, vec![(10, Some(transition(10))), (11, None)]),
    };
    let b = WitnessBundle {
        pub_witness: XChain::Bitcoin(PubWitness::with(tx(1, &[]))),
        anchor: anchor(1, &[(0, 100)]),
        bundle: bundle(100, vec![(10, None), (11, Some(transition(11)))]),
    };
    assert!(a == b);
    let m = a.merge_reveal(b).unwrap();
    assert_eq!(m.witness_id(), XChain::Bitcoin(1));
    assert!(m.bundle.items.iter().all(|i| i.transition.is_some()));
}

#[test]
fn witness_bundle_merge_needs_equal_anchors() {
    let a = WitnessBundle {
        pub_witness: XChain::Bitcoin(PubWitness::new(1)),
        anchor: anchor(1, &[(0, 100)]),
        bundle: bundle(100, vec![]),
    };
    let b = WitnessBundle {
        pub_witness: XChain::Bitcoin(PubWitness::new(1)),
        anchor: anchor(1, &[(1, 100)]),
        bundle: bundle(100, vec![]),
    };
    assert_eq!(a.merge_reveal(b).unwrap_err(), MergeRevealError::AnchorsNonEqual(100));
}

#[test]
fn bundle_reveal_unknown_operation() {
    let mut b = bundle(100, vec![(10, None)]);
    assert_eq!(b.reveal_transition(&transition(12)), Err(RevealError::UnrelatedTransition(12)));
    assert_eq!(b.reveal_transition(&transition(10)), Ok(()));
    assert!(b.items[0].transition.is_some());
    assert_eq!(b.bundle_id(), 100);
}

#[test]
fn witnesses_order_by_identifier() {
    assert!(PubWitness::new(1) < PubWitness::with(tx(2, &[])));
    assert!(PubWitness::new(3) > PubWitness::new(2));
    assert_eq!(PubWitness::new(3).partial_cmp(&PubWitness::with(tx(3, &[5]))), Some(std::cmp::Ordering::Equal));
}

#[test]
fn witness_bundles_order_by_chain_then_identifier() {
    let wb = |w: XChain<PubWitness>| WitnessBundle { pub_witness: w, anchor: anchor(0, &[]), bundle: bundle(1, vec![]) };
    assert!(wb(XChain::Bitcoin(PubWitness::new(9))) < wb(XChain::Liquid(PubWitness::new(1))));
    assert!(wb(XChain::Liquid(PubWitness::new(2))) > wb(XChain::Liquid(PubWitness::new(1))));
}

#[test]
fn bundle_merge_names_unknown_operation() {
    let a = bundle(100, vec![(10, None)]);
    let b = bundle(100, vec![(10, Some(transition(10))), (12, Some(transition(12)))]);
    assert_eq!(a.merge_reveal(b).unwrap_err(), RevealError::UnrelatedTransition(12));
}

#[test]
fn witness_bundle_merge_reports_reveal_failure() {
    let a = WitnessBundle {
        pub_witness: XChain::Bitcoin(PubWitness::new(1)),
        anchor: anchor(1, &[(0, 100)]),
        bundle: bundle(100, vec![(10, None)]),
    };
    let b = WitnessBundle {
        pub_witness: XChain::Bitcoin(PubWitness::new(1)),
        anchor: anchor(1, &[(0, 100)]),
        bundle: bundle(100, vec![(11, Some(transition(11)))]),
    };
    assert_eq!(a.merge_reveal(b).unwrap_err(), MergeRevealError::Reveal(RevealError::UnrelatedTransition(11)));
}

#[test]
fn witness_bundle_merge_different_bundles() {
    let a = WitnessBundle {
        pub_witness: XChain::Bitcoin(PubWitness::new(1)),
        anchor: anchor(1, &[(0, 100)]),
        bundle: bundle(100, vec![]),
    };
    let b = WitnessBundle {
        pub_witness: XChain::Bitcoin(PubWitness::new(1)),
        anchor: anchor(1, &[(0, 100)]),
        bundle: bundle(101, vec![]),
    };
    assert_eq!(a.merge_reveal(b).unwrap_err(), MergeRevealError::BundleMismatch(100, 101));
}
