use task_graph::database::{Database, Project};
use task_graph::group::Group;
use task_graph::pointer::{EdgeKind, Pointer, PointerResult};
use task_graph::task::{find_root, materialize, RawTask, Task, TreeResult, NO_LINK};

fn node(id: i64, title: &str) -> Group {
    Group { id, project_id: 1, name: title.to_string(), description: format!("about {}", title) }
}

fn edge(id: i64, parent: i64, child: i64, kind: EdgeKind) -> Pointer {
    Pointer { id, project_id: 1, parent, child, kind }
}

fn tree(r: TreeResult) -> Task {
    match r {
        TreeResult::Tree(t) => t,
        TreeResult::Empty => panic!("expected a tree, got Empty"),
        TreeResult::CycleDetected => panic!("expected a tree, got CycleDetected"),
    }
}

fn shape(t: &Task) -> String {
    let kids: Vec<String> = t.children.iter().map(shape).collect();
    let next: Vec<String> = t.branches.iter().map(shape).collect();
    format!("{}{{children:[{}],branches:[{}]}}", t.title, kids.join(","), next.join(","))
}

#[test]
fn chain_materializes_nested() {
    let nodes = vec![node(1, "A"), node(2, "B"), node(3, "C")];
    let edges = vec![
        edge(0, 1, 2, EdgeKind::Decomposition),
        edge(1, 2, 3, EdgeKind::Decomposition),
    ];
    let a = tree(materialize(&nodes, &edges, 1));
    assert_eq!(a.id, 1);
    assert_eq!(a.children.len(), 1);
    let b = &a.children[0];
    assert_eq!(b.id, 2);
    assert_eq!(b.children.len(), 1);
    let c = &b.children[0];
    assert_eq!(c.id, 3);
    assert!(c.children.is_empty());
    assert_eq!(shape(&a), "A{children:[B{children:[C{children:[],branches:[]}],branches:[]}],branches:[]}");
    assert_eq!(c.description, "about C");
}

#[test]
fn branch_materializes_two_subtrees() {
    let nodes = vec![node(1, "A"), node(2, "B"), node(3, "C")];
    let edges = vec![
        edge(0, 1, 2, EdgeKind::Decomposition),
        edge(1, 1, 3, EdgeKind::Decomposition),
    ];
    let a = tree(materialize(&nodes, &edges, 1));
    let ids: Vec<i64> = a.children.iter().map(|t| t.id).collect();
    assert_eq!(ids, vec![2, 3]);
    assert!(a.children.iter().all(|t| t.children.is_empty() && t.branches.is_empty()));
}

#[test]
fn three_node_cycle_is_detected() {
    let nodes = vec![node(1, "A"), node(2, "B"), node(3, "C")];
    let edges = vec![
        edge(0, 1, 2, EdgeKind::Decomposition),
        edge(1, 2, 3, EdgeKind::Decomposition),
        edge(2, 3, 1, EdgeKind::Decomposition),
    ];
    assert!(matches!(materialize(&nodes, &edges, 1), TreeResult::CycleDetected));
    assert!(matches!(materialize(&nodes, &edges, 2), TreeResult::CycleDetected));
    assert_eq!(find_root(&nodes, &edges), None);
}

#[test]
fn cycle_through_sequence_edges_is_detected() {
    let nodes = vec![node(1, "A"), node(2, "B")];
    let edges = vec![
        edge(0, 1, 2, EdgeKind::Sequence),
        edge(1, 2, 1, EdgeKind::Decomposition),
    ];
    assert!(matches!(materialize(&nodes, &edges, 1), TreeResult::CycleDetected));
}

#[test]
fn task_reached_twice_is_reported() {
    let nodes = vec![node(1, "A"), node(2, "B"), node(3, "C"), node(4, "D")];
    let edges = vec![
        edge(0, 1, 2, EdgeKind::Decomposition),
        edge(1, 1, 3, EdgeKind::Decomposition),
        edge(2, 2, 4, EdgeKind::Decomposition),
        edge(3, 3, 4, EdgeKind::Decomposition),
    ];
    assert!(matches!(materialize(&nodes, &edges, 1), TreeResult::CycleDetected));
    let c = tree(materialize(&nodes, &edges, 3));
    assert_eq!(shape(&c), "C{children:[D{children:[],branches:[]}],branches:[]}");
}

#[test]
fn cycle_below_the_root_is_detected() {
    let nodes = vec![node(1, "A"), node(2, "B"), node(3, "C")];
    let edges = vec![
        edge(0, 1, 2, EdgeKind::Sequence),
        edge(1, 2, 3, EdgeKind::Decomposition),
        edge(2, 3, 2, EdgeKind::Decomposition),
    ];
    assert!(matches!(materialize(&nodes, &edges, 1), TreeResult::CycleDetected));
}

#[test]
fn unknown_root_gives_empty() {
    let nodes = vec![node(1, "A")];
    assert!(matches!(materialize(&nodes, &Vec::new(), 9), TreeResult::Empty));
    assert!(matches!(materialize(&Vec::new(), &Vec::new(), 1), TreeResult::Empty));
}

#[test]
fn children_and_branches_expand_independently() {
    let nodes = vec![node(1, "A"), node(2, "B"), node(3, "C"), node(4, "D")];
    let edges = vec![
        edge(0, 1, 2, EdgeKind::Decomposition),
        edge(1, 1, 3, EdgeKind::Sequence),
        edge(2, 3, 4, EdgeKind::Sequence),
    ];
    let a = tree(materialize(&nodes, &edges, 1));
    assert_eq!(
        shape(&a),
        "A{children:[B{children:[],branches:[]}],branches:[C{children:[],branches:[D{children:[],branches:[]}]}]}"
    );
}

#[test]
fn edge_to_unknown_node_is_skipped() {
    let nodes = vec![node(1, "A")];
    let edges = vec![edge(0, 1, 7, EdgeKind::Decomposition)];
    let a = tree(materialize(&nodes, &edges, 1));
    assert!(a.children.is_empty());
}

#[test]
fn root_is_the_last_node_without_incoming_edge() {
    let nodes = vec![node(1, "A"), node(2, "B"), node(3, "C"), node(4, "D")];
    let edges = vec![edge(0, 1, 2, EdgeKind::Decomposition), edge(1, 4, 3, EdgeKind::Sequence)];
    assert_eq!(find_root(&nodes, &edges), Some(4));
    assert_eq!(find_root(&Vec::new(), &edges), None);
}

fn raw(id: i64, title: &str, origin: i64, parent: i64) -> RawTask {
    RawTask {
        id,
        project_id: 1,
        title: title.to_string(),
        description: String::new(),
        origin,
        parent,
    }
}

#[test]
fn create_task_from_rows() {
    let rows = vec![
        raw(2, "B", 1, NO_LINK),
        raw(1, "A", NO_LINK, NO_LINK),
        raw(3, "C", 2, NO_LINK),
        raw(4, "A1", NO_LINK, 1),
    ];
    let a = tree(Task::create_task(rows));
    assert_eq!(
        shape(&a),
        "A{children:[A1{children:[],branches:[]}],branches:[B{children:[],branches:[C{children:[],branches:[]}]}]}"
    );
}

#[test]
fn create_task_without_rows_is_empty() {
    assert!(matches!(Task::create_task(Vec::new()), TreeResult::Empty));
    let rows = vec![raw(1, "A", 2, NO_LINK), raw(2, "B", 1, NO_LINK)];
    assert!(matches!(Task::create_task(rows), TreeResult::Empty));
}

#[test]
fn create_task_reports_a_cycle_below_the_root() {
    let rows = vec![
        raw(1, "A", NO_LINK, NO_LINK),
        raw(2, "B", 1, 3),
        raw(3, "C", 2, NO_LINK),
    ];
    assert!(matches!(Task::create_task(rows), TreeResult::CycleDetected));
}

#[test]
fn project_tree_from_the_database() {
    let mut db = Database::new();
    db.projects.push(Project { id: 1, title: "p".to_string() });
    db.projects.push(Project { id: 2, title: "q".to_string() });
    let a = task_graph::group::Group::create(&mut db, &1, "A".to_string(), String::new()).unwrap();
    let b = task_graph::group::Group::create(&mut db, &1, "B".to_string(), String::new()).unwrap();
    let other = task_graph::group::Group::create(&mut db, &2, "X".to_string(), String::new()).unwrap();
    assert_eq!(db.create_edge(1, a, b, EdgeKind::Decomposition), PointerResult::Success);
    let t = tree(Project::fetch_tasks(&db, 1));
    assert_eq!(shape(&t), "A{children:[B{children:[],branches:[]}],branches:[]}");
    let x = tree(Project::fetch_tasks(&db, 2));
    assert_eq!(x.id, other);
    let sub = tree(Project::fetch_tree(&db, 1, b));
    assert_eq!(sub.id, b);
    assert!(matches!(Project::fetch_tree(&db, 2, a), TreeResult::Empty));
    assert!(matches!(Project::fetch_tasks(&db, 3), TreeResult::Empty));
}
