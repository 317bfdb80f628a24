use task_graph::pointer::{EdgeKind, EdgeStore, Pointer, PointerResult};

fn pairs(store: &EdgeStore) -> Vec<(i64, i64, i64)> {
    store.rows.iter().map(|e| (e.project_id, e.parent, e.child)).collect()
}

#[test]
fn self_loop_is_rejected_for_every_node() {
    let mut store = EdgeStore::new();
    for n in [-5i64, 0, 1, 42, i64::MAX] {
        let r = Pointer::create_pointer(&mut store, 1, n, n, EdgeKind::Decomposition);
        assert_eq!(r, PointerResult::SelfLoop);
    }
    assert!(store.rows.is_empty());
    assert_eq!(store.next_id, 0);
}

#[test]
fn self_loop_checked_before_existence() {
    let mut store = EdgeStore::new();
    assert_eq!(
        Pointer::create_pointer(&mut store, 1, 3, 4, EdgeKind::Sequence),
        PointerResult::Success
    );
    assert_eq!(
        Pointer::create_pointer(&mut store, 1, 3, 3, EdgeKind::Sequence),
        PointerResult::SelfLoop
    );
}

#[test]
fn create_twice_reports_already_exist() {
    let mut store = EdgeStore::new();
    let first = Pointer::create_pointer(&mut store, 7, 1, 2, EdgeKind::Decomposition);
    let after_first = pairs(&store);
    let second = Pointer::create_pointer(&mut store, 7, 1, 2, EdgeKind::Decomposition);
    assert_eq!(first, PointerResult::Success);
    assert_eq!(second, PointerResult::AlreadyExist);
    assert_eq!(pairs(&store), after_first);
    assert_eq!(pairs(&store), vec![(7, 1, 2)]);
    assert_eq!(store.rows[0].id, 0);
    assert_eq!(store.next_id, 1);
}

#[test]
fn same_pair_in_another_project_is_a_new_edge() {
    let mut store = EdgeStore::new();
    assert_eq!(
        Pointer::create_pointer(&mut store, 1, 1, 2, EdgeKind::Decomposition),
        PointerResult::Success
    );
    assert_eq!(
        Pointer::create_pointer(&mut store, 2, 1, 2, EdgeKind::Decomposition),
        PointerResult::Success
    );
    assert!(store.contains_edge(1, 1, 2));
    assert!(store.contains_edge(2, 1, 2));
    assert!(!store.contains_edge(3, 1, 2));
    assert_eq!(store.rows[1].id, 1);
}

#[test]
fn delete_missing_edge_reports_doesnt_exist() {
    let mut store = EdgeStore::new();
    Pointer::create_pointer(&mut store, 1, 1, 2, EdgeKind::Decomposition);
    let before = pairs(&store);
    assert_eq!(
        Pointer::delete_pointer(&mut store, 1, 2, 1),
        PointerResult::DoesntExist
    );
    assert_eq!(
        Pointer::delete_pointer(&mut store, 9, 1, 2),
        PointerResult::DoesntExist
    );
    assert_eq!(pairs(&store), before);
    assert_eq!(store.next_id, 1);
}

#[test]
fn create_then_delete_restores_the_edges() {
    let mut store = EdgeStore::new();
    Pointer::create_pointer(&mut store, 1, 1, 2, EdgeKind::Decomposition);
    Pointer::create_pointer(&mut store, 1, 2, 3, EdgeKind::Sequence);
    let before: Vec<Pointer> = store.rows.clone();
    assert_eq!(
        Pointer::create_pointer(&mut store, 1, 3, 4, EdgeKind::Decomposition),
        PointerResult::Success
    );
    assert_eq!(store.rows.len(), 3);
    assert_eq!(
        Pointer::delete_pointer(&mut store, 1, 3, 4),
        PointerResult::Success
    );
    assert_eq!(store.rows, before);
}

#[test]
fn delete_keeps_the_order_of_the_rest() {
    let mut store = EdgeStore::new();
    Pointer::create_pointer(&mut store, 1, 1, 2, EdgeKind::Decomposition);
    Pointer::create_pointer(&mut store, 1, 1, 3, EdgeKind::Decomposition);
    Pointer::create_pointer(&mut store, 1, 1, 4, EdgeKind::Decomposition);
    assert_eq!(Pointer::delete_pointer(&mut store, 1, 1, 3), PointerResult::Success);
    assert_eq!(pairs(&store), vec![(1, 1, 2), (1, 1, 4)]);
    assert_eq!(store.next_id, 3);
}

#[test]
fn fetch_children_and_parents_follow_the_snapshot() {
    let edges = vec![
        Pointer { id: 0, project_id: 1, parent: 1, child: 2, kind: EdgeKind::Decomposition },
        Pointer { id: 1, project_id: 1, parent: 3, child: 2, kind: EdgeKind::Sequence },
        Pointer { id: 2, project_id: 1, parent: 1, child: 4, kind: EdgeKind::Sequence },
        Pointer { id: 3, project_id: 1, parent: 2, child: 5, kind: EdgeKind::Decomposition },
    ];
    assert_eq!(Pointer::fetch_children(1, &edges), vec![2, 4]);
    assert_eq!(Pointer::fetch_children(2, &edges), vec![5]);
    assert_eq!(Pointer::fetch_children(5, &edges), Vec::<i64>::new());
    assert_eq!(Pointer::fetch_parents(2, &edges), vec![1, 3]);
    assert_eq!(Pointer::fetch_parents(1, &edges), Vec::<i64>::new());
    assert_eq!(Pointer::fetch_parents(5, &edges), vec![2]);
}

#[test]
fn fetch_all_keeps_one_project() {
    let mut store = EdgeStore::new();
    Pointer::create_pointer(&mut store, 1, 1, 2, EdgeKind::Decomposition);
    Pointer::create_pointer(&mut store, 2, 8, 9, EdgeKind::Decomposition);
    Pointer::create_pointer(&mut store, 1, 2, 3, EdgeKind::Sequence);
    let one: Vec<(i64, i64)> = Pointer::fetch_all(&store, 1).iter().map(|e| (e.parent, e.child)).collect();
    assert_eq!(one, vec![(1, 2), (2, 3)]);
    assert!(Pointer::fetch_all(&store, 3).is_empty());
}

#[test]
fn remove_touching_drops_both_ends() {
    let mut store = EdgeStore::new();
    Pointer::create_pointer(&mut store, 1, 1, 2, EdgeKind::Decomposition);
    Pointer::create_pointer(&mut store, 1, 2, 3, EdgeKind::Decomposition);
    Pointer::create_pointer(&mut store, 1, 3, 4, EdgeKind::Decomposition);
    store.remove_touching(2);
    assert_eq!(pairs(&store), vec![(1, 3, 4)]);
}
