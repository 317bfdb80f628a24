use task_graph::database::{Database, Permissions, Project, ProjectMembers, Team, User};
use task_graph::group::Group;
use task_graph::ids::{generate_id, pick_id, DRAW_LIMIT, ID_MAX};
use task_graph::pointer::{EdgeKind, PointerResult};

fn db_with_project() -> Database {
    let mut db = Database::new();
    db.projects.push(Project { id: 10, title: "tracker".to_string() });
    db
}

#[test]
fn pick_takes_the_only_free_draw() {
    let draws: Vec<i64> = (0..DRAW_LIMIT as i64).map(|i| i * 3 + 1).collect();
    let mut existing: Vec<i64> = draws.clone();
    existing.remove(998);
    let r = pick_id(&existing, &draws);
    assert_eq!(r, draws[998]);
    assert!(!existing.contains(&r));
}

#[test]
fn pick_takes_the_first_free_draw() {
    let existing = vec![4, 9];
    assert_eq!(pick_id(&existing, &vec![9, 4, 7, 8]), 7);
    assert_eq!(pick_id(&Vec::new(), &vec![5, 6]), 5);
}

#[test]
fn pick_falls_back_past_the_largest() {
    let draws: Vec<i64> = (0..DRAW_LIMIT as i64).collect();
    let mut existing = draws.clone();
    existing.push(5000);
    let r = pick_id(&existing, &draws);
    assert_eq!(r, 5001);
    assert!(!existing.contains(&r));
    assert_eq!(pick_id(&Vec::new(), &Vec::new()), 0);
    assert_eq!(pick_id(&vec![-5, -9], &Vec::new()), -4);
}

#[test]
fn generated_ids_are_fresh_and_in_range() {
    let mut existing: Vec<i64> = Vec::new();
    for _ in 0..200 {
        let id = generate_id(&existing, ID_MAX);
        assert!(!existing.contains(&id));
        assert!(id >= 0 && id < ID_MAX);
        existing.push(id);
    }
}

#[test]
fn generated_id_with_every_draw_taken_falls_back() {
    let existing = vec![0i64, 1, 2];
    let id = generate_id(&existing, 3);
    assert_eq!(id, 3);
    let small = generate_id(&vec![0i64], 2);
    assert_eq!(small, 1);
}

#[test]
fn create_needs_an_existing_project() {
    let mut db = db_with_project();
    assert_eq!(Group::create(&mut db, &11, "x".to_string(), String::new()), None);
    assert!(db.groups.is_empty());
    let id = Group::create(&mut db, &10, "x".to_string(), "d".to_string()).unwrap();
    assert_eq!(db.groups.len(), 1);
    assert_eq!(db.groups[0].id, id);
    assert_eq!(db.groups[0].project_id, 10);
    assert_eq!(db.groups[0].name, "x");
    assert_eq!(db.groups[0].description, "d");
}

#[test]
fn created_ids_are_distinct() {
    let mut db = db_with_project();
    let mut ids = Vec::new();
    for i in 0..50 {
        ids.push(Group::create(&mut db, &10, format!("t{}", i), String::new()).unwrap());
    }
    let mut sorted = ids.clone();
    sorted.sort();
    sorted.dedup();
    assert_eq!(sorted.len(), 50);
}

#[test]
fn delete_cascades_to_edges() {
    let mut db = db_with_project();
    let a = Group::create(&mut db, &10, "a".to_string(), String::new()).unwrap();
    let b = Group::create(&mut db, &10, "b".to_string(), String::new()).unwrap();
    let c = Group::create(&mut db, &10, "c".to_string(), String::new()).unwrap();
    assert_eq!(db.create_edge(10, a, b, EdgeKind::Decomposition), PointerResult::Success);
    assert_eq!(db.create_edge(10, b, c, EdgeKind::Sequence), PointerResult::Success);
    assert_eq!(db.create_edge(10, a, c, EdgeKind::Sequence), PointerResult::Success);
    assert!(Group::delete(&mut db, b));
    let left: Vec<i64> = db.groups.iter().map(|g| g.id).collect();
    assert_eq!(left, vec![a, c]);
    let edges: Vec<(i64, i64)> = db.pointers.rows.iter().map(|e| (e.parent, e.child)).collect();
    assert_eq!(edges, vec![(a, c)]);
}

#[test]
fn delete_of_absent_node_is_a_no_op() {
    let mut db = db_with_project();
    let a = Group::create(&mut db, &10, "a".to_string(), String::new()).unwrap();
    assert!(!Group::delete(&mut db, a + 1));
    assert_eq!(db.groups.len(), 1);
}

#[test]
fn edit_replaces_fields_in_place() {
    let mut db = db_with_project();
    let a = Group::create(&mut db, &10, "a".to_string(), "old".to_string()).unwrap();
    let b = Group::create(&mut db, &10, "b".to_string(), String::new()).unwrap();
    assert!(Group::edit(&mut db, a, "renamed".to_string(), "new".to_string()));
    assert_eq!(db.groups[0].id, a);
    assert_eq!(db.groups[0].name, "renamed");
    assert_eq!(db.groups[0].description, "new");
    assert_eq!(db.groups[0].project_id, 10);
    assert_eq!(db.groups[1].id, b);
    assert_eq!(db.groups[1].name, "b");
    let missing = if a.max(b) < i64::MAX { a.max(b) + 1 } else { a.min(b) - 1 };
    assert!(!Group::edit(&mut db, missing, "z".to_string(), String::new()));
    assert_eq!(db.groups[0].name, "renamed");
}

#[test]
fn parent_of_task_follows_decomposition_edges() {
    let mut db = db_with_project();
    let p = Group::create(&mut db, &10, "p".to_string(), String::new()).unwrap();
    let q = Group::create(&mut db, &10, "q".to_string(), String::new()).unwrap();
    let s = Group::create(&mut db, &10, "s".to_string(), String::new()).unwrap();
    let t = Group::create(&mut db, &10, "t".to_string(), String::new()).unwrap();
    assert_eq!(db.create_edge(10, p, t, EdgeKind::Sequence), PointerResult::Success);
    assert_eq!(Group::parent_of_task(&db, t), None);
    assert_eq!(db.create_edge(10, q, t, EdgeKind::Decomposition), PointerResult::Success);
    assert_eq!(db.create_edge(10, s, t, EdgeKind::Decomposition), PointerResult::Success);
    assert_eq!(Group::parent_of_task(&db, t), Some(q));
    assert_eq!(Group::parent_of_task(&db, q), None);
}

#[test]
fn database_edges_go_through_the_validator() {
    let mut db = db_with_project();
    let a = Group::create(&mut db, &10, "a".to_string(), String::new()).unwrap();
    let b = Group::create(&mut db, &10, "b".to_string(), String::new()).unwrap();
    assert_eq!(db.create_edge(10, a, a, EdgeKind::Decomposition), PointerResult::SelfLoop);
    assert_eq!(db.create_edge(10, a, b, EdgeKind::Decomposition), PointerResult::Success);
    assert_eq!(db.create_edge(10, a, b, EdgeKind::Sequence), PointerResult::AlreadyExist);
    assert_eq!(db.pointers.rows.len(), 1);
    assert_eq!(db.delete_edge(10, b, a), PointerResult::DoesntExist);
    assert_eq!(db.delete_edge(10, a, b), PointerResult::Success);
    assert!(db.pointers.rows.is_empty());
    assert_eq!(db.groups.len(), 2);
}

#[test]
fn fetch_user_id_finds_the_first_match() {
    let mut db = Database::new();
    db.users.push(User { id: 3, username: "ann".to_string() });
    db.users.push(User { id: 4, username: "bob".to_string() });
    db.users.push(User { id: 5, username: "bob".to_string() });
    assert_eq!(db.fetch_user_id(&"bob".to_string()), Some(4));
    assert_eq!(db.fetch_user_id(&"ann".to_string()), Some(3));
    assert_eq!(db.fetch_user_id(&"cy".to_string()), None);
}

#[test]
fn fetch_teams_returns_the_members_teams() {
    let mut db = Database::new();
    db.teams.push(Team { id: 1, name: "core".to_string(), members: vec![(3, Permissions::Admin), (4, Permissions::Viewer)] });
    db.teams.push(Team { id: 2, name: "docs".to_string(), members: vec![(4, Permissions::NoAccess)] });
    db.teams.push(Team { id: 3, name: "ops".to_string(), members: vec![(5, Permissions::Editor)] });
    let for4: Vec<(u128, String)> = User::fetch_teams(&db, 4).iter().map(|t| (t.id, t.name.clone())).collect();
    assert_eq!(for4, vec![(1, "core".to_string()), (2, "docs".to_string())]);
    let for3 = User::fetch_teams(&db, 3);
    assert_eq!(for3.len(), 1);
    assert_eq!(for3[0].members, vec![(3, Permissions::Admin), (4, Permissions::Viewer)]);
    assert!(User::fetch_teams(&db, 9).is_empty());
}

#[test]
fn project_members_hold_their_fields() {
    let m = ProjectMembers { id: 1, project_id: 2, user_id: 3 };
    assert_eq!((m.id, m.project_id, m.user_id), (1, 2, 3));
}

#[test]
fn project_delete_cascades_to_nodes_edges_and_members() {
    let mut db = Database::new();
    db.projects.push(Project { id: 1, title: "one".to_string() });
    db.projects.push(Project { id: 2, title: "two".to_string() });
    let a = Group::create(&mut db, &1, "a".to_string(), String::new()).unwrap();
    let b = Group::create(&mut db, &1, "b".to_string(), String::new()).unwrap();
    let c = Group::create(&mut db, &2, "c".to_string(), String::new()).unwrap();
    let d = Group::create(&mut db, &2, "d".to_string(), String::new()).unwrap();
    db.create_edge(1, a, b, EdgeKind::Decomposition);
    db.create_edge(2, c, d, EdgeKind::Sequence);
    db.memberships.push(ProjectMembers { id: 1, project_id: 1, user_id: 7 });
    db.memberships.push(ProjectMembers { id: 2, project_id: 2, user_id: 7 });
    assert!(!Project::delete(&mut db, 3));
    assert_eq!(db.projects.len(), 2);
    assert!(Project::delete(&mut db, 1));
    let projects: Vec<i64> = db.projects.iter().map(|p| p.id).collect();
    assert_eq!(projects, vec![2]);
    let nodes: Vec<i64> = db.groups.iter().map(|g| g.id).collect();
    assert_eq!(nodes, vec![c, d]);
    let edges: Vec<(i64, i64)> = db.pointers.rows.iter().map(|e| (e.parent, e.child)).collect();
    assert_eq!(edges, vec![(c, d)]);
    assert_eq!(db.memberships.len(), 1);
    assert_eq!(db.memberships[0].project_id, 2);
    assert_eq!(db.pointers.next_id, 2);
}

#[test]
fn fetch_all_lists_every_project() {
    let mut db = Database::new();
    db.projects.push(Project { id: 4, title: "x".to_string() });
    db.projects.push(Project { id: 2, title: "y".to_string() });
    let all: Vec<(i64, String)> = Project::fetch_all(&db).into_iter().map(|p| (p.id, p.title)).collect();
    assert_eq!(all, vec![(4, "x".to_string()), (2, "y".to_string())]);
}

#[test]
fn memberships_join_projects_and_users() {
    let mut db = Database::new();
    db.projects.push(Project { id: 1, title: "one".to_string() });
    db.projects.push(Project { id: 2, title: "two".to_string() });
    db.projects.push(Project { id: 3, title: "three".to_string() });
    db.users.push(User { id: 7, username: "ann".to_string() });
    db.users.push(User { id: 8, username: "bob".to_string() });
    db.memberships.push(ProjectMembers { id: 1, project_id: 3, user_id: 7 });
    db.memberships.push(ProjectMembers { id: 2, project_id: 1, user_id: 7 });
    db.memberships.push(ProjectMembers { id: 3, project_id: 1, user_id: 8 });
    db.memberships.push(ProjectMembers { id: 4, project_id: 2, user_id: -8 });
    let of7: Vec<i64> = ProjectMembers::fetch_projects(&db, 7).iter().map(|p| p.id).collect();
    assert_eq!(of7, vec![1, 3]);
    assert!(ProjectMembers::fetch_projects(&db, 9).is_empty());
    let in1: Vec<String> = ProjectMembers::fetch_members(&db, 1).into_iter().map(|u| u.username).collect();
    assert_eq!(in1, vec!["ann".to_string(), "bob".to_string()]);
    assert!(ProjectMembers::fetch_members(&db, 2).is_empty());
}
