use rgb_std::anchors::{Anchor, AnchoredBundle};
use rgb_std::consignment::{Consignment, Genesis, Schema, Terminal};
use rgb_std::inventory::{
    ConsignerError, Inventory, InventoryError, InventoryInconsistency,
};
use rgb_std::operations::{BundleItem, Opout, Outpoint, Transition, TransitionBundle};

const G: u64 = 1;
const T1: u64 = 10;
const T2: u64 = 20;
const W1: u64 = 1000;
const W2: u64 = 2000;

fn o1() -> Outpoint {
    Outpoint { txid: W1, vout: 0 }
}

fn o2() -> Outpoint {
    Outpoint { txid: W2, vout: 0 }
}

fn opout(op: u64) -> Opout {
    Opout { op, ty: 0, no: 0 }
}

fn anchored(bundle_id: u64, txid: u64, items: Vec<(u64, Option<Transition>)>) -> AnchoredBundle {
    AnchoredBundle {
        anchor: Anchor { txid, known: vec![(0, bundle_id)] },
        bundle: TransitionBundle {
            id: bundle_id,
            items: items.into_iter().map(|(opid, transition)| BundleItem { opid, transition }).collect(),
        },
    }
}

/// Genesis issues; T1 (witness W1) spends it to O1; T2 (witness W2) spends O1 to O2.
fn chain() -> Inventory {
    let t1 = Transition { id: T1, inputs: vec![opout(G)], seals: vec![Some(o1())] };
    let t2 = Transition { id: T2, inputs: vec![opout(T1)], seals: vec![Some(o2()), None] };
    Inventory {
        schema: Schema { id: 3, subset_of: None },
        genesis: Genesis { id: G, schema_id: 3, contract_id: 9 },
        iimpls: vec![(40, 41)],
        bundles: vec![anchored(100, W1, vec![(T1, Some(t1))]), anchored(200, W2, vec![(T2, Some(t2))])],
        public: vec![],
        allocations: vec![(o1(), opout(T1)), (o2(), opout(T2))],
    }
}

fn bundle_ids<const T: bool>(c: &Consignment<T>) -> Vec<u64> {
    let mut ids: Vec<u64> = c.bundles.iter().map(|b| b.bundle.id).collect();
    ids.sort();
    ids
}

#[test]
fn consign_end_to_end() {
    let inv = chain();
    let c = inv.transfer(9, &vec![o2()]).unwrap();
    assert!(c.transfer);
    assert_eq!(bundle_ids(&c), vec![100, 200]);
    assert_eq!(c.terminals, vec![Terminal { bundle_id: 200, seal: o2() }]);
    assert_eq!(c.ifaces, vec![(40, 41)]);
    assert_eq!(c.genesis.id, G);

    let c = inv.consign::<true>(9, &vec![o1()]).unwrap();
    assert_eq!(bundle_ids(&c), vec![100]);
    assert_eq!(c.terminals, vec![Terminal { bundle_id: 100, seal: o1() }]);
}

#[test]
fn consign_is_idempotent() {
    let inv = chain();
    let a = inv.consign::<true>(9, &vec![o2(), o1()]).unwrap();
    let b = inv.consign::<true>(9, &vec![o2(), o1()]).unwrap();
    assert_eq!(format!("{:?}", a), format!("{:?}", b));
}

#[test]
fn consign_too_many_bundles() {
    let inv = chain();
    let r = inv.consign_bounded::<true>(9, &vec![o2()], 1, 10);
    assert_eq!(r.unwrap_err(), ConsignerError::TooManyBundles);
    let r = inv.consign_bounded::<true>(9, &vec![o2()], 2, 10);
    assert!(r.is_ok());
}

#[test]
fn consign_too_many_terminals() {
    let inv = chain();
    let r = inv.consign_bounded::<true>(9, &vec![o1(), o2()], 10, 1);
    assert_eq!(r.unwrap_err(), ConsignerError::TooManyTerminals);
}

#[test]
fn consign_unknown_contract() {
    let inv = chain();
    let r = inv.consign::<true>(8, &vec![o2()]);
    assert_eq!(
        r.unwrap_err(),
        ConsignerError::InventoryError(InventoryError::InternalInconsistency(
            InventoryInconsistency::StateAbsent(8)
        ))
    );
}

#[test]
fn consign_visits_shared_ancestor_once() {
    // T3 and T4 both spend T1, and share one bundle
    let mut inv = chain();
    let t3 = Transition { id: 30, inputs: vec![opout(T1)], seals: vec![Some(Outpoint { txid: 3000, vout: 0 })] };
    let t4 = Transition { id: 40, inputs: vec![opout(T1), opout(30)], seals: vec![Some(Outpoint { txid: 3000, vout: 1 })] };
    inv.bundles.push(anchored(300, 3000, vec![(30, Some(t3)), (40, Some(t4))]));
    inv.public = vec![opout(30), opout(40)];
    let c = inv.export_contract(9).unwrap();
    assert!(!c.transfer);
    assert_eq!(bundle_ids(&c), vec![100, 300]);
    assert_eq!(c.terminals.len(), 2);
}

#[test]
fn consign_missing_ancestor() {
    let mut inv = chain();
    inv.bundles.remove(0);
    let r = inv.consign::<true>(9, &vec![o2()]);
    assert_eq!(
        r.unwrap_err(),
        ConsignerError::InventoryError(InventoryError::InternalInconsistency(
            InventoryInconsistency::BundleAbsent(T1)
        ))
    );
}

#[test]
fn inventory_transition_lookups() {
    let mut inv = chain();
    assert_eq!(inv.transition(T2).unwrap().id, T2);
    assert_eq!(inv.anchored_bundle(T2).unwrap().bundle.id, 200);
    assert_eq!(
        inv.transition(99).unwrap_err(),
        InventoryError::InternalInconsistency(InventoryInconsistency::BundleAbsent(99))
    );
    inv.bundles[0].bundle.items[0].transition = None;
    assert_eq!(
        inv.transition(T1).unwrap_err(),
        InventoryError::InternalInconsistency(InventoryInconsistency::TransitionConcealed(T1))
    );
}

#[test]
fn inventory_opouts() {
    let inv = chain();
    assert_eq!(inv.outpoint_opouts(9, &vec![o2()]).unwrap(), vec![opout(T2)]);
    assert!(inv.public_opouts(9).unwrap().is_empty());
    assert!(inv.public_opouts(5).is_err());
}
