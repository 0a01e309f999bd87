use relation_graph::commands::{InsertRelation, RemoveRelation};
use relation_graph::cyclicity::{Acyclic, Cyclic};
use relation_graph::restriction::{Many, One};
use relation_graph::{RelationError, RelationStore};

fn assert_edges<P>(g: &RelationStore<P>, present: &[(u64, u64)], absent: &[(u64, u64)]) {
    for &(s, t) in present {
        assert!(g.contains_edge(s, t), "expected edge {} -> {}", s, t);
    }
    for &(s, t) in absent {
        assert!(!g.contains_edge(s, t), "unexpected edge {} -> {}", s, t);
    }
}

#[test]
fn cycle_despawn() {
    let mut g = RelationStore::<()>::new::<One, One, Cyclic>().unwrap();
    g.insert_edge(0, (), 1).unwrap();
    g.insert_edge(1, (), 2).unwrap();
    g.insert_edge(2, (), 0).unwrap();
    assert_edges(&g, &[(0, 1), (1, 2), (2, 0)], &[]);

    let destroyed = g.destroy_cascade(2);
    assert!(destroyed.contains(&0));
    assert!(destroyed.contains(&1));
    assert!(destroyed.contains(&2));
    assert_eq!(destroyed.len(), 3);
    assert_edges(&g, &[], &[(0, 1), (1, 2), (2, 0)]);
}

#[test]
fn target_restriction() {
    let mut g = RelationStore::<()>::new::<Many, One, Cyclic>().unwrap();
    g.insert_edge(0, (), 1).unwrap();
    g.insert_edge(1, (), 2).unwrap();
    g.insert_edge(0, (), 2).unwrap();
    assert_edges(&g, &[(0, 1), (0, 2)], &[(1, 2)]);
}

#[test]
fn source_restriction() {
    let mut g = RelationStore::<()>::new::<One, Many, Cyclic>().unwrap();
    g.insert_edge(1, (), 0).unwrap();
    g.insert_edge(2, (), 1).unwrap();
    g.insert_edge(2, (), 0).unwrap();
    assert_edges(&g, &[(1, 0), (2, 0)], &[(2, 1)]);
}

#[test]
fn despawning_removes_noitaler() {
    let mut g = RelationStore::<()>::new::<One, Many, Cyclic>().unwrap();
    g.insert_edge(0, (), 2).unwrap();
    g.insert_edge(1, (), 2).unwrap();
    g.insert_edge(2, (), 3).unwrap();
    assert_edges(&g, &[(0, 2), (1, 2), (2, 3)], &[]);

    let destroyed = g.destroy_cascade(0);
    assert!(destroyed.contains(&0));
    assert!(destroyed.contains(&2));
    assert!(destroyed.contains(&3));
    assert!(!destroyed.contains(&1));
    assert_edges(&g, &[], &[(0, 2), (1, 2), (2, 3)]);
    assert!(g.forward_targets(1).is_none());
}

#[test]
fn self_cycle() {
    let mut g = RelationStore::<()>::new::<One, One, Acyclic>().unwrap();
    assert_eq!(g.insert_edge(0, (), 0), Err(RelationError::CycleViolation));
    assert!(g.forward_targets(0).is_none());
    assert!(g.backward_sources(0).is_none());
}

#[test]
fn simple_cycle() {
    let mut g = RelationStore::<()>::new::<One, One, Acyclic>().unwrap();
    g.insert_edge(0, (), 1).unwrap();
    assert_eq!(g.insert_edge(1, (), 0), Err(RelationError::CycleViolation));
    assert_edges(&g, &[(0, 1)], &[(1, 0)]);
}

#[test]
fn complex_cycle() {
    let mut g = RelationStore::<()>::new::<Many, One, Acyclic>().unwrap();
    g.insert_edge(0, (), 1).unwrap();
    g.insert_edge(0, (), 2).unwrap();
    g.insert_edge(2, (), 3).unwrap();
    g.insert_edge(2, (), 4).unwrap();
    assert_eq!(g.insert_edge(3, (), 0), Err(RelationError::CycleViolation));
    assert_edges(&g, &[(0, 1), (0, 2), (2, 3), (2, 4)], &[(3, 0)]);
}

#[test]
fn has_multiple_relations() {
    let mut g = RelationStore::<()>::new::<Many, One, Acyclic>().unwrap();
    g.insert_edge(0, (), 1).unwrap();
    g.insert_edge(0, (), 2).unwrap();
    assert_edges(&g, &[(0, 1), (0, 2)], &[]);
}

#[test]
fn acyclic_needs_a_one_endpoint() {
    assert_eq!(
        RelationStore::<u32>::new::<Many, Many, Acyclic>().err(),
        Some(RelationError::InvalidConfiguration)
    );
    assert!(RelationStore::<u32>::new::<Many, Many, Cyclic>().is_ok());
    assert!(RelationStore::<u32>::new::<One, Many, Acyclic>().is_ok());
    assert!(RelationStore::<u32>::new::<Many, One, Acyclic>().is_ok());
}

#[test]
fn reinserting_updates_payload_in_place() {
    let mut g = RelationStore::<u32>::new::<Many, Many, Cyclic>().unwrap();
    g.insert_edge(0, 7, 1).unwrap();
    g.insert_edge(0, 9, 1).unwrap();
    assert_eq!(*g.get_edge_data(0, 1).unwrap(), 9);
    let targets = g.forward_targets(0).unwrap();
    assert_eq!(targets.len(), 1);
    let sources = g.backward_sources(1).unwrap();
    assert_eq!(sources.len(), 1);
}

#[test]
fn eviction_keeps_other_payloads() {
    let mut g = RelationStore::<u32>::new::<Many, One, Cyclic>().unwrap();
    g.insert_edge(0, 10, 1).unwrap();
    g.insert_edge(1, 20, 2).unwrap();
    g.insert_edge(0, 30, 2).unwrap();
    assert_eq!(*g.get_edge_data(0, 1).unwrap(), 10);
    assert_eq!(*g.get_edge_data(0, 2).unwrap(), 30);
    assert!(g.get_edge_data(1, 2).is_none());
    assert!(g.forward_targets(1).is_none());
}

#[test]
fn remove_edge_cleans_both_sides() {
    let mut g = RelationStore::<u32>::new::<Many, Many, Cyclic>().unwrap();
    g.insert_edge(0, 1, 5).unwrap();
    g.insert_edge(0, 2, 6).unwrap();
    assert!(g.remove_edge(0, 5));
    assert!(!g.remove_edge(0, 5));
    assert!(!g.contains_edge(0, 5));
    assert!(g.contains_edge(0, 6));
    assert!(g.backward_sources(5).is_none());
    assert!(g.remove_edge(0, 6));
    assert!(g.forward_targets(0).is_none());
    assert!(g.backward_sources(6).is_none());
}

#[test]
fn destroy_entity_schedules_only_owned_targets() {
    let mut g = RelationStore::<u32>::new::<Many, Many, Cyclic>().unwrap();
    g.insert_edge(0, 1, 1).unwrap();
    g.insert_edge(0, 2, 2).unwrap();
    g.insert_edge(3, 3, 0).unwrap();
    let cascade = g.destroy_entity(0);
    assert_eq!(cascade.len(), 2);
    assert!(cascade.contains(&1));
    assert!(cascade.contains(&2));
    assert!(!g.contains_edge(0, 1));
    assert!(!g.contains_edge(0, 2));
    assert!(!g.contains_edge(3, 0));
    assert!(g.forward_targets(3).is_none());
}

#[test]
fn destroying_backward_only_entity_spares_sources() {
    let mut g = RelationStore::<u32>::new::<Many, Many, Cyclic>().unwrap();
    g.insert_edge(1, 11, 0).unwrap();
    g.insert_edge(2, 22, 0).unwrap();
    g.insert_edge(1, 12, 3).unwrap();
    let destroyed = g.destroy_cascade(0);
    assert_eq!(destroyed, vec![0]);
    assert!(!g.contains_edge(1, 0));
    assert!(!g.contains_edge(2, 0));
    assert!(g.contains_edge(1, 3));
    assert_eq!(*g.get_edge_data(1, 3).unwrap(), 12);
}

#[test]
fn deferred_commands_apply_like_direct_calls() {
    let mut g = RelationStore::<u32>::new::<One, Many, Cyclic>().unwrap();
    let ins = InsertRelation { source: 4, data: 44, target: 5 };
    ins.write(&mut g).unwrap();
    assert!(g.contains_edge(4, 5));
    assert_eq!(*g.get_edge_data(4, 5).unwrap(), 44);
    let rem = RemoveRelation { source: 4, target: 5 };
    assert!(rem.write(&mut g));
    assert!(!g.contains_edge(4, 5));
}

#[test]
fn long_chain_cycle_is_rejected_and_long_chain_allowed() {
    let mut g = RelationStore::<u32>::new::<One, Many, Acyclic>().unwrap();
    let n: u64 = 50;
    let mut i: u64 = 0;
    while i < n {
        g.insert_edge(i, i as u32, i + 1).unwrap();
        i += 1;
    }
    assert_eq!(g.insert_edge(n, 99, 0), Err(RelationError::CycleViolation));
    assert!(g.contains_edge(0, 1));
    assert!(g.contains_edge(n - 1, n));
    assert!(!g.contains_edge(n, 0));
    // a non-closing edge from the tail is fine
    g.insert_edge(n, 100, n + 1).unwrap();
    assert!(g.contains_edge(n, n + 1));
}

#[test]
fn cascade_follows_ownership_transitively() {
    let mut g = RelationStore::<u32>::new::<Many, One, Cyclic>().unwrap();
    g.insert_edge(0, 1, 1).unwrap();
    g.insert_edge(1, 2, 2).unwrap();
    g.insert_edge(1, 3, 3).unwrap();
    g.insert_edge(4, 5, 5).unwrap();
    let destroyed = g.destroy_cascade(0);
    assert!(destroyed.contains(&0));
    assert!(destroyed.contains(&1));
    assert!(destroyed.contains(&2));
    assert!(destroyed.contains(&3));
    assert!(!destroyed.contains(&4));
    assert!(!destroyed.contains(&5));
    assert!(g.contains_edge(4, 5));
}

#[test]
fn set_edge_data_only_touches_the_payload() {
    let mut g = RelationStore::<u32>::new::<Many, One, Acyclic>().unwrap();
    g.insert_edge(0, 1, 1).unwrap();
    g.insert_edge(0, 2, 2).unwrap();
    assert!(g.set_edge_data(0, 2, 42));
    assert!(!g.set_edge_data(0, 3, 9));
    assert_eq!(*g.get_edge_data(0, 2).unwrap(), 42);
    assert_eq!(*g.get_edge_data(0, 1).unwrap(), 1);
    assert!(!g.contains_edge(0, 3));
}
