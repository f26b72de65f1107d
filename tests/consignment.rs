use rgb_std::anchors::{Anchor, AnchoredBundle};
use rgb_std::consignment::{
    Consignment, ContractHistory, Genesis, OpRef, ResolveHeight, Schema, Transfer, WitnessAnchor,
};
use rgb_std::operations::{BundleItem, Extension, Opout, Transition, TransitionBundle};

struct Heights(Vec<(u64, u32)>);

impl ResolveHeight for Heights {
    type Error = u64;

    fn resolved(&self, txid: u64, height: u32) -> bool {
        self.0.contains(&(txid, height))
    }

    fn resolve_height(&mut self, txid: u64) -> Result<u32, u64> {
        self.0.iter().find(|(t, _)| *t == txid).map(|(_, h)| *h).ok_or(txid)
    }
}

fn spending(id: u64, from: &[u64]) -> Transition {
    Transition {
        id,
        inputs: from.iter().map(|op| Opout { op: *op, ty: 0, no: 0 }).collect(),
        seals: vec![],
    }
}

fn anchored(bundle_id: u64, txid: u64, items: Vec<(u64, Option<Transition>)>) -> AnchoredBundle {
    AnchoredBundle {
        anchor: Anchor { txid, known: vec![(0, bundle_id)] },
        bundle: TransitionBundle {
            id: bundle_id,
            items: items.into_iter().map(|(opid, transition)| BundleItem { opid, transition }).collect(),
        },
    }
}

fn base() -> Transfer {
    Consignment::new(Schema { id: 3, subset_of: Some(2) }, Genesis { id: 1, schema_id: 3, contract_id: 9 })
}

#[test]
fn new_consignment_is_empty() {
    let c = base();
    assert!(c.transfer);
    assert_eq!(c.version, 2);
    assert_eq!(c.schema_id(), 3);
    assert_eq!(c.root_schema_id(), Some(2));
    assert_eq!(c.contract_id(), 9);
    assert!(c.validation_status().is_none());
    assert!(c.bundles.is_empty() && c.terminals.is_empty());
    let contract = c.into_contract();
    assert!(!contract.transfer);
    assert_eq!(contract.genesis.id, 1);
}

#[test]
fn extension_placed_at_earliest_height() {
    let mut c = base();
    c.bundles.push(anchored(100, 1000, vec![(10, Some(spending(10, &[50])))]));
    c.bundles.push(anchored(200, 2000, vec![(20, Some(spending(20, &[50])))]));
    c.extensions.push(Extension { id: 50 });
    c.extensions.push(Extension { id: 60 });
    let mut heights = Heights(vec![(1000, 100), (2000, 50)]);
    let h = c.update_history(None, &mut heights).unwrap();
    assert_eq!(h.contract_id, 9);
    assert_eq!(h.genesis_id, 1);
    assert_eq!(
        h.transitions,
        vec![(WitnessAnchor::new(50, 2000), 20), (WitnessAnchor::new(100, 1000), 10)]
    );
    // the extension nobody spends from is left out
    assert_eq!(h.extensions, vec![(WitnessAnchor::new(50, 2000), 50)]);
}

#[test]
fn equal_heights_order_by_txid() {
    let mut c = base();
    c.bundles.push(anchored(100, 7000, vec![(10, Some(spending(10, &[50])))]));
    c.bundles.push(anchored(200, 3000, vec![(20, Some(spending(20, &[50])))]));
    c.extensions.push(Extension { id: 50 });
    let mut heights = Heights(vec![(7000, 5), (3000, 5)]);
    let h = c.update_history(None, &mut heights).unwrap();
    assert_eq!(h.extensions, vec![(WitnessAnchor::new(5, 3000), 50)]);
}

#[test]
fn history_replay_extends_given_history() {
    let mut c = base();
    c.bundles.push(anchored(100, 1000, vec![(10, Some(spending(10, &[1]))), (11, None)]));
    let given = ContractHistory {
        schema_id: 3,
        root_schema_id: Some(2),
        contract_id: 9,
        genesis_id: 1,
        transitions: vec![(WitnessAnchor::new(1, 1), 5)],
        extensions: vec![],
    };
    let h = c.update_history(Some(given), &mut Heights(vec![(1000, 40)])).unwrap();
    assert_eq!(h.transitions, vec![(WitnessAnchor::new(1, 1), 5), (WitnessAnchor::new(40, 1000), 10)]);
}

#[test]
fn history_resolver_failure_propagates() {
    let mut c = base();
    c.bundles.push(anchored(100, 1000, vec![(10, Some(spending(10, &[1])))]));
    assert_eq!(c.update_history(None, &mut Heights(vec![])).unwrap_err(), 1000);
}

#[test]
fn replay_with_heights() {
    let mut c = base();
    c.bundles.push(anchored(100, 1000, vec![(10, Some(spending(10, &[50])))]));
    c.extensions.push(Extension { id: 50 });
    let h = c.replay(None, &vec![77]);
    assert_eq!(h.transitions, vec![(WitnessAnchor::new(77, 1000), 10)]);
    assert_eq!(h.extensions, vec![(WitnessAnchor::new(77, 1000), 50)]);
}

#[test]
fn witness_anchor_order() {
    assert!(WitnessAnchor::new(1, 9).le(&WitnessAnchor::new(2, 0)));
    assert!(WitnessAnchor::new(2, 3).le(&WitnessAnchor::new(2, 3)));
    assert!(!WitnessAnchor::new(2, 4).le(&WitnessAnchor::new(2, 3)));
}

#[test]
fn operation_lookups() {
    let mut c = base();
    c.bundles.push(anchored(100, 1000, vec![(10, Some(spending(10, &[1]))), (11, None)]));
    c.extensions.push(Extension { id: 50 });
    assert!(matches!(c.operation(1), Some(OpRef::Genesis(_))));
    assert!(matches!(c.operation(10), Some(OpRef::Transition(t)) if t.id == 10));
    assert!(matches!(c.operation(50), Some(OpRef::Extension(_))));
    assert!(c.operation(11).is_none());
    assert!(c.has_operation(10));
    assert!(!c.has_operation(12));
    assert_eq!(c.transition(10).unwrap().id, 10);
    assert!(c.transition(11).is_none());
    assert_eq!(c.extension(50), Some(&Extension { id: 50 }));
    assert_eq!(c.anchored_bundle(100).unwrap().anchor.txid, 1000);
    assert!(c.anchored_bundle(101).is_none());
    assert_eq!(c.bundle_by_id(100).unwrap().id, 100);
    assert_eq!(c.anchored_bundles().len(), 1);
}

#[test]
fn op_ids_except_skips_given() {
    let mut c = base();
    c.bundles.push(anchored(100, 1000, vec![(10, Some(spending(10, &[]))), (11, Some(spending(11, &[])))]));
    c.bundles.push(anchored(200, 2000, vec![(12, Some(spending(12, &[]))), (13, None)]));
    let mut ids = c.op_ids_except(&vec![11]);
    ids.sort();
    assert_eq!(ids, vec![10, 12]);
}

#[test]
fn known_transitions_of_bundle() {
    let mut c = base();
    c.bundles.push(anchored(100, 1000, vec![(10, Some(spending(10, &[]))), (11, None), (12, Some(spending(12, &[])))]));
    let ts = c.known_transitions_by_bundle_id(100).unwrap();
    assert_eq!(ts.iter().map(|t| t.id).collect::<Vec<_>>(), vec![10, 12]);
    assert!(c.known_transitions_by_bundle_id(5).is_none());
}

#[test]
fn transition_stops_at_first_entry() {
    let mut c = base();
    c.bundles.push(anchored(100, 1000, vec![(10, None)]));
    c.bundles.push(anchored(200, 2000, vec![(10, Some(spending(10, &[])))]));
    assert!(c.transition(10).is_none());
    assert!(c.operation(10).is_none());
    assert!(!c.has_operation(10));
    c.extensions.push(Extension { id: 10 });
    assert!(matches!(c.operation(10), Some(OpRef::Extension(_))));
}

#[test]
fn history_skips_resolver_for_concealed_bundles() {
    let mut c = base();
    c.bundles.push(anchored(100, 1000, vec![(10, None)]));
    // no height is known for witness 1000, and none is needed
    let h = c.update_history(None, &mut Heights(vec![])).unwrap();
    assert!(h.transitions.is_empty());
}

#[test]
fn history_independent_of_bundle_order() {
    let mut a = base();
    a.bundles.push(anchored(100, 1000, vec![(10, Some(spending(10, &[50])))]));
    a.bundles.push(anchored(200, 2000, vec![(20, Some(spending(20, &[50])))]));
    a.extensions.push(Extension { id: 50 });
    let mut b = base();
    b.bundles.push(anchored(200, 2000, vec![(20, Some(spending(20, &[50])))]));
    b.bundles.push(anchored(100, 1000, vec![(10, Some(spending(10, &[50])))]));
    b.extensions.push(Extension { id: 50 });
    let heights = vec![(1000, 100), (2000, 50)];
    let ha = a.update_history(None, &mut Heights(heights.clone())).unwrap();
    let hb = b.update_history(None, &mut Heights(heights)).unwrap();
    assert_eq!(ha.transitions, hb.transitions);
    assert_eq!(ha.extensions, hb.extensions);
}
