use vstd::prelude::*;
use crate::database::{Database, Project};
use crate::ids::{generate_id, pick_spec, DRAW_LIMIT, ID_MAX};
use crate::pointer::{lemma_filter_keeps_wf, without_node, EdgeKind, Pointer};

verus! {

/// A task node of the registry: identity, project, title and description.
pub struct Group {
    pub id: i64,
    pub project_id: i64,
    pub name: String,
    pub description: String,
}

/// The mathematical value of a task node.
pub struct NodeView {
    pub id: i64,
    pub project_id: i64,
    pub title: Seq<char>,
    pub description: Seq<char>,
}

impl View for Group {
    type V = NodeView;

    open spec fn view(&self) -> NodeView {
        NodeView {
            id: self.id,
            project_id: self.project_id,
            title: self.name@,
            description: self.description@,
        }
    }
}

/// The values of a list of task nodes.
pub open spec fn node_views(nodes: Seq<Group>) -> Seq<NodeView> {
    nodes.map_values(|g: Group| g@)
}

pub open spec fn group_ids(groups: Seq<Group>) -> Seq<i64> {
    groups.map_values(|g: Group| g.id)
}

pub open spec fn has_project(projects: Seq<Project>, project_id: i64) -> bool {
    exists|k: int| 0 <= k < projects.len() && projects[k].id == project_id
}

pub open spec fn has_group(groups: Seq<Group>, id: i64) -> bool {
    exists|k: int| 0 <= k < groups.len() && groups[k].id == id
}

/// `k` is the first position of the node `id`.
pub open spec fn first_group(groups: Seq<Group>, id: i64, k: int) -> bool {
    &&& 0 <= k < groups.len()
    &&& groups[k].id == id
    &&& forall|j: int| 0 <= j < k ==> groups[j].id != id
}

pub open spec fn without_group(groups: Seq<Group>, id: i64) -> Seq<Group> {
    groups.filter(|g: Group| g.id != id)
}

/// Parent ends of the decomposition edges that enter `id`, in storage order.
pub open spec fn decomposition_parents(rows: Seq<Pointer>, id: i64) -> Seq<i64> {
    rows.filter_map(
        |e: Pointer|
            if e.child == id && e.kind == EdgeKind::Decomposition {
                Some(e.parent)
            } else {
                None
            },
    )
}

/// Taking nodes out keeps their identifiers pairwise distinct.
pub(crate) proof fn lemma_filter_keeps_unique(groups: Seq<Group>, pred: spec_fn(Group) -> bool)
    requires
        forall|i: int, j: int| 0 <= i < j < groups.len() ==> #[trigger] groups[i].id != #[trigger] groups[j].id,
    ensures
        forall|i: int, j: int|
            0 <= i < j < groups.filter(pred).len() ==> #[trigger] groups.filter(pred)[i].id
                != #[trigger] groups.filter(pred)[j].id,
    decreases groups.len(),
{
    reveal_with_fuel(Seq::filter, 1);
    if groups.len() > 0 {
        let shorter = groups.drop_last();
        lemma_filter_keeps_unique(shorter, pred);
        let f = shorter.filter(pred);
        if pred(groups.last()) {
            assert forall|i: int| 0 <= i < f.len() implies f[i].id != groups.last().id by {
                assert(f.contains(f[i]));
                shorter.lemma_filter_contains_rev(pred, f[i]);
                let k = choose|k: int| 0 <= k < shorter.len() && shorter[k] == f[i];
                assert(groups[k] == shorter[k]);
                assert(groups[groups.len() - 1] == groups.last());
            }
        }
    }
}

fn find_group(groups: &Vec<Group>, id: i64) -> (r: Option<usize>)
    ensures
        r is None <==> !has_group(groups@, id),
        r is Some ==> first_group(groups@, id, r->0 as int),
{
    let mut i: usize = 0;
    while i < groups.len()
        invariant
            0 <= i <= groups.len(),
            forall|j: int| 0 <= j < i ==> groups@[j].id != id,
        decreases groups.len() - i,
    {
        if groups[i].id == id {
            return Some(i);
        }
        i = i + 1;
    }
    None
}

fn project_exists(projects: &Vec<Project>, project_id: i64) -> (r: bool)
    ensures
        r == has_project(projects@, project_id),
{
    let mut i: usize = 0;
    while i < projects.len()
        invariant
            0 <= i <= projects.len(),
            forall|j: int| 0 <= j < i ==> projects@[j].id != project_id,
        decreases projects.len() - i,
    {
        if projects[i].id == project_id {
            return true;
        }
        i = i + 1;
    }
    false
}

impl Group {
    pub(crate) fn copy(&self) -> (r: Group)
        ensures
            r == *self,
    {
        Group {
            id: self.id,
            project_id: self.project_id,
            name: self.name.clone(),
            description: self.description.clone(),
        }
    }

    /// The task that `task_id` is a subtask of: the parent end of the first
    /// decomposition edge that enters it.
    pub fn parent_of_task(db: &Database, task_id: i64) -> (r: Option<i64>)
        ensures
            decomposition_parents(db.pointers@.rows, task_id).len() == 0 ==> r is None,
            decomposition_parents(db.pointers@.rows, task_id).len() > 0 ==> r == Some(
                decomposition_parents(db.pointers@.rows, task_id)[0],
            ),
            db.wf() && r is Some ==> has_group(db.groups@, r->0),
    {
        let rows = &db.pointers.rows;
        let mut found: Option<i64> = None;
        let mut i: usize = 0;
        while i < rows.len()
            invariant
                0 <= i <= rows.len(),
                decomposition_parents(rows@.subrange(0, i as int), task_id).len() == 0 ==> found is None,
                decomposition_parents(rows@.subrange(0, i as int), task_id).len() > 0 ==> found == Some(
                    decomposition_parents(rows@.subrange(0, i as int), task_id)[0],
                ),
                found is Some ==> exists|j: int| 0 <= j < i && #[trigger] rows@[j].parent == found->0,
            decreases rows.len() - i,
        {
            let e = rows[i];
            assert(rows@.subrange(0, i + 1).drop_last() == rows@.subrange(0, i as int));
            proof {
                reveal_with_fuel(Seq::filter_map, 1);
            }
            if found.is_none() && e.child == task_id && e.kind == EdgeKind::Decomposition {
                found = Some(e.parent);
                assert(rows@[i as int].parent == e.parent);
            }
            i = i + 1;
        }
        assert(rows@.subrange(0, rows@.len() as int) == rows@);
        proof {
            if db.wf() && found is Some {
                let j = choose|j: int| 0 <= j < rows@.len() && #[trigger] rows@[j].parent == found->0;
                assert(node_in(db.groups@, rows@[j].parent, rows@[j].project_id));
            }
        }
        found
    }

    /// Adds a task node to an existing project under a fresh identifier;
    /// `None`, with nothing changed, where the project does not exist.
    pub fn create(db: &mut Database, project_id: &i64, name: String, description: String) -> (r:
        Option<i64>)
        requires
            forall|i: int| 0 <= i < old(db).groups@.len() ==> old(db).groups@[i].id < i64::MAX,
        ensures
            !has_project(old(db).projects@, *project_id) ==> r is None && *final(db) == *old(db),
            has_project(old(db).projects@, *project_id) ==> {
                &&& r is Some
                &&& !group_ids(old(db).groups@).contains(r->0)
                &&& exists|d: Seq<i64>|
                    d.len() == DRAW_LIMIT && (forall|i: int| 0 <= i < d.len() ==> 0 <= #[trigger] d[i] < ID_MAX)
                        && r->0 == pick_spec(group_ids(old(db).groups@), d)
                &&& final(db).groups@ == old(db).groups@.push(
                    Group { id: r->0, project_id: *project_id, name, description },
                )
                &&& final(db).users == old(db).users
                &&& final(db).teams == old(db).teams
                &&& final(db).projects == old(db).projects
                &&& final(db).pointers == old(db).pointers
            },
            old(db).wf() ==> final(db).wf(),
    {
        if !project_exists(&db.projects, *project_id) {
            return None;
        }
        let mut existing: Vec<i64> = Vec::new();
        let mut i: usize = 0;
        while i < db.groups.len()
            invariant
                0 <= i <= db.groups.len(),
                existing@ == group_ids(db.groups@.subrange(0, i as int)),
            decreases db.groups.len() - i,
        {
            existing.push(db.groups[i].id);
            assert(existing@ =~= group_ids(db.groups@.subrange(0, i + 1)));
            i = i + 1;
        }
        assert(db.groups@.subrange(0, db.groups@.len() as int) == db.groups@);
        let id = generate_id(&existing, ID_MAX);
        proof {
            assert forall|k: int| 0 <= k < db.groups@.len() implies db.groups@[k].id != id by {
                assert(group_ids(db.groups@)[k] == db.groups@[k].id);
            }
        }
        db.groups.push(Group { id, project_id: *project_id, name, description });
        proof {
            if old(db).wf() {
                lemma_ends_grow(old(db).groups@, db.groups@, db.pointers@.rows);
            }
        }
        Some(id)
    }

    /// Removes the node `group_id` together with every edge that touches it;
    /// `false`, with nothing changed, where there is no such node.
    pub fn delete(db: &mut Database, group_id: i64) -> (r: bool)
        ensures
            r == has_group(old(db).groups@, group_id),
            !r ==> *final(db) == *old(db),
            r ==> {
                &&& final(db).groups@ == without_group(old(db).groups@, group_id)
                &&& final(db).pointers@.rows == without_node(old(db).pointers@.rows, group_id)
                &&& final(db).pointers@.next_id == old(db).pointers@.next_id
                &&& final(db).users == old(db).users
                &&& final(db).teams == old(db).teams
                &&& final(db).projects == old(db).projects
            },
            old(db).wf() ==> final(db).wf(),
    {
        if find_group(&db.groups, group_id).is_none() {
            return false;
        }
        let ghost old_pointers = db.pointers@;
        db.pointers.remove_touching(group_id);
        let mut kept: Vec<Group> = Vec::new();
        let mut i: usize = 0;
        while i < db.groups.len()
            invariant
                0 <= i <= db.groups.len(),
                kept@ == without_group(db.groups@.subrange(0, i as int), group_id),
            decreases db.groups.len() - i,
        {
            assert(db.groups@.subrange(0, i + 1).drop_last() == db.groups@.subrange(0, i as int));
            proof {
                reveal_with_fuel(Seq::filter, 1);
            }
            if db.groups[i].id != group_id {
                kept.push(db.groups[i].copy());
            }
            i = i + 1;
        }
        assert(db.groups@.subrange(0, db.groups@.len() as int) == db.groups@);
        proof {
            if old(db).wf() {
                lemma_filter_keeps_unique(db.groups@, |g: Group| g.id != group_id);
                lemma_filter_keeps_wf(old_pointers, |e: Pointer| e.parent != group_id && e.child != group_id);
                lemma_ends_filtered(
                    db.groups@,
                    old_pointers.rows,
                    |g: Group| g.id != group_id,
                    |e: Pointer| e.parent != group_id && e.child != group_id,
                );
            }
        }
        db.groups = kept;
        true
    }

    /// Replaces the title and description of the node `group_id`; `false`,
    /// with nothing changed, where there is no such node.
    pub fn edit(db: &mut Database, group_id: i64, name: String, description: String) -> (r: bool)
        ensures
            r == has_group(old(db).groups@, group_id),
            !r ==> *final(db) == *old(db),
            r ==> exists|k: int|
                first_group(old(db).groups@, group_id, k) && final(db).groups@ == old(db).groups@.update(
                    k,
                    Group { id: group_id, project_id: old(db).groups@[k].project_id, name, description },
                ),
            r ==> {
                &&& final(db).users == old(db).users
                &&& final(db).teams == old(db).teams
                &&& final(db).projects == old(db).projects
                &&& final(db).pointers == old(db).pointers
            },
            old(db).wf() ==> final(db).wf(),
    {
        match find_group(&db.groups, group_id) {
            None => false,
            Some(k) => {
                let project_id = db.groups[k].project_id;
                db.groups[k] = Group { id: group_id, project_id, name, description };
                proof {
                    if old(db).wf() {
                        lemma_ends_grow(old(db).groups@, db.groups@, db.pointers@.rows);
                    }
                }
                assert(first_group(old(db).groups@, group_id, k as int));
                true
            },
        }
    }
}

/// A node with identifier `id` belongs to `project_id`.
pub open spec fn node_in(groups: Seq<Group>, id: i64, project_id: i64) -> bool {
    exists|k: int| 0 <= k < groups.len() && #[trigger] groups[k].id == id && groups[k].project_id == project_id
}

/// Both ends of every edge are nodes of the edge's project.
pub open spec fn ends_ok(groups: Seq<Group>, rows: Seq<Pointer>) -> bool {
    forall|i: int|
        0 <= i < rows.len() ==> node_in(groups, #[trigger] rows[i].parent, rows[i].project_id)
            && node_in(groups, rows[i].child, rows[i].project_id)
}

/// Nodes that keep their identifier and project in place keep edge ends valid.
pub(crate) proof fn lemma_ends_grow(g1: Seq<Group>, g2: Seq<Group>, rows: Seq<Pointer>)
    requires
        ends_ok(g1, rows),
        g1.len() <= g2.len(),
        forall|k: int| 0 <= k < g1.len() ==> #[trigger] g2[k].id == g1[k].id && g2[k].project_id == g1[k].project_id,
    ensures
        ends_ok(g2, rows),
{
    assert forall|i: int| 0 <= i < rows.len() implies node_in(g2, #[trigger] rows[i].parent, rows[i].project_id)
        && node_in(g2, rows[i].child, rows[i].project_id) by {
        let a = choose|k: int| 0 <= k < g1.len() && #[trigger] g1[k].id == rows[i].parent && g1[k].project_id == rows[i].project_id;
        assert(g2[a].id == g1[a].id);
        let b = choose|k: int| 0 <= k < g1.len() && #[trigger] g1[k].id == rows[i].child && g1[k].project_id == rows[i].project_id;
        assert(g2[b].id == g1[b].id);
    }
}

/// Taking edges out keeps edge ends valid.
pub(crate) proof fn lemma_ends_fewer_edges(groups: Seq<Group>, rows: Seq<Pointer>, epred: spec_fn(Pointer) -> bool)
    requires
        ends_ok(groups, rows),
    ensures
        ends_ok(groups, rows.filter(epred)),
{
    let f = rows.filter(epred);
    assert forall|i: int| 0 <= i < f.len() implies node_in(groups, #[trigger] f[i].parent, f[i].project_id)
        && node_in(groups, f[i].child, f[i].project_id) by {
        assert(f.contains(f[i]));
        rows.lemma_filter_contains_rev(epred, f[i]);
        let j = choose|j: int| 0 <= j < rows.len() && rows[j] == f[i];
        assert(node_in(groups, rows[j].parent, rows[j].project_id));
    }
}

/// Taking out nodes and edges together keeps edge ends valid, where every
/// node that a kept edge names is kept.
pub(crate) proof fn lemma_ends_filtered(
    groups: Seq<Group>,
    rows: Seq<Pointer>,
    gpred: spec_fn(Group) -> bool,
    epred: spec_fn(Pointer) -> bool,
)
    requires
        ends_ok(groups, rows),
        forall|e: Pointer, g: Group|
            #[trigger] epred(e) && g.project_id == e.project_id && (g.id == e.parent || g.id == e.child)
                ==> #[trigger] gpred(g),
    ensures
        ends_ok(groups.filter(gpred), rows.filter(epred)),
{
    let f = rows.filter(epred);
    let h = groups.filter(gpred);
    assert forall|i: int| 0 <= i < f.len() implies node_in(h, #[trigger] f[i].parent, f[i].project_id)
        && node_in(h, f[i].child, f[i].project_id) by {
        let e = f[i];
        assert(f.contains(e));
        rows.lemma_filter_pred(epred, i);
        rows.lemma_filter_contains_rev(epred, e);
        let j = choose|j: int| 0 <= j < rows.len() && rows[j] == e;
        assert(node_in(groups, rows[j].parent, rows[j].project_id));
        let a = choose|k: int| 0 <= k < groups.len() && #[trigger] groups[k].id == e.parent && groups[k].project_id == e.project_id;
        assert(gpred(groups[a]));
        groups.lemma_filter_contains(gpred, a);
        let a2 = choose|k: int| 0 <= k < h.len() && h[k] == groups[a];
        assert(h[a2].id == e.parent);
        let b = choose|k: int| 0 <= k < groups.len() && #[trigger] groups[k].id == e.child && groups[k].project_id == e.project_id;
        assert(gpred(groups[b]));
        groups.lemma_filter_contains(gpred, b);
        let b2 = choose|k: int| 0 <= k < h.len() && h[k] == groups[b];
        assert(h[b2].id == e.child);
    }
}

} // verus!
