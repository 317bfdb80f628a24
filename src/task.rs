use vstd::prelude::*;
use crate::group::{node_views, Group, NodeView};
use crate::ids::contains_id;
use crate::pointer::{EdgeKind, Pointer};

verus! {

/// Sentinel of the row form: no predecessor, or no enclosing task.
pub const NO_LINK: i64 = -1;

/// A task in row form: `origin` names the task before it and `parent` the
/// task it is a subtask of, each `NO_LINK` where there is none.
pub struct RawTask {
    pub id: i64,
    pub project_id: i64,
    pub title: String,
    pub description: String,
    pub origin: i64,
    pub parent: i64,
}

/// A materialized task: a node with its subtask subtrees (`children`) and
/// its successor subtrees (`branches`).
pub struct Task {
    pub id: i64,
    pub project_id: i64,
    pub title: String,
    pub description: String,
    pub children: Vec<Task>,
    pub branches: Vec<Task>,
}

/// The mathematical value of a materialized task.
pub struct TaskTree {
    pub id: i64,
    pub project_id: i64,
    pub title: Seq<char>,
    pub description: Seq<char>,
    pub children: Seq<TaskTree>,
    pub branches: Seq<TaskTree>,
}

/// Result of a materialization.
pub enum TreeResult {
    Tree(Task),
    Empty,
    CycleDetected,
}

impl Task {
    pub open spec fn tree(self) -> TaskTree
        decreases self,
    {
        TaskTree {
            id: self.id,
            project_id: self.project_id,
            title: self.title@,
            description: self.description@,
            children: forest(self.children@),
            branches: forest(self.branches@),
        }
    }
}

pub open spec fn forest(ts: Seq<Task>) -> Seq<TaskTree>
    decreases ts,
{
    if ts.len() == 0 {
        Seq::empty()
    } else {
        forest(ts.drop_last()).push(ts.last().tree())
    }
}

pub open spec fn has_node(nodes: Seq<NodeView>, id: i64) -> bool {
    exists|k: int| 0 <= k < nodes.len() && nodes[k].id == id
}

/// `k` is the first position of a node with identifier `id`.
pub open spec fn first_node(nodes: Seq<NodeView>, id: i64, k: int) -> bool {
    &&& 0 <= k < nodes.len()
    &&& nodes[k].id == id
    &&& forall|j: int| 0 <= j < k ==> nodes[j].id != id
}

/// The node that an identifier names: the first one that carries it.
pub open spec fn node_of(nodes: Seq<NodeView>, id: i64) -> NodeView {
    nodes[choose|k: int| first_node(nodes, id, k)]
}

pub open spec fn tree_node(
    nodes: Seq<NodeView>,
    id: i64,
    children: Seq<TaskTree>,
    branches: Seq<TaskTree>,
) -> TaskTree {
    TaskTree {
        id,
        project_id: node_of(nodes, id).project_id,
        title: node_of(nodes, id).title,
        description: node_of(nodes, id).description,
        children,
        branches,
    }
}

/// What an expansion step yields, and the identifiers visited once it is done.
pub struct Visit<A> {
    pub out: A,
    pub seen: Set<i64>,
}

/// Identifiers that an expansion can step to: the child ends of all edges.
pub open spec fn reachable_ids(edges: Seq<Pointer>) -> Set<i64> {
    edges.map_values(|e: Pointer| e.child).to_set()
}

/// How many steppable identifiers the visited set has not taken yet.
pub open spec fn unvisited(edges: Seq<Pointer>, visited: Set<i64>) -> nat {
    reachable_ids(edges).difference(visited).len()
}

/// Does edge `e` lead from `n` to a known node along `kind`?
pub open spec fn leads(nodes: Seq<NodeView>, e: Pointer, n: i64, kind: EdgeKind) -> bool {
    e.parent == n && e.kind == kind && has_node(nodes, e.child)
}

/// The tree below `n`, with `visited` the identifiers already met in this
/// traversal (`n` among them), and the visited set once the subtree is
/// done; `None` where the expansion meets an identifier a second time.
/// Subtasks are expanded before successors.
pub open spec fn expand(nodes: Seq<NodeView>, edges: Seq<Pointer>, visited: Set<i64>, n: i64) -> Option<Visit<TaskTree>>
    decreases unvisited(edges, visited) + 1, 0int,
{
    let children = expand_edges(nodes, edges, visited, n, EdgeKind::Decomposition, edges.len() as int);
    if children is None {
        None
    } else {
        let v1 = visited.union(children->0.seen);
        proof {
            lemma_unvisited_grows(edges, visited, children->0.seen);
        }
        let branches = expand_edges(nodes, edges, v1, n, EdgeKind::Sequence, edges.len() as int);
        if branches is None {
            None
        } else {
            Some(
                Visit {
                    out: tree_node(nodes, n, children->0.out, branches->0.out),
                    seen: v1.union(branches->0.seen),
                },
            )
        }
    }
}

/// The subtrees reached from `n` along `kind` through the first `m` edges,
/// in edge order, and the visited set afterwards; `None` where an
/// identifier is met a second time.
pub open spec fn expand_edges(
    nodes: Seq<NodeView>,
    edges: Seq<Pointer>,
    visited: Set<i64>,
    n: i64,
    kind: EdgeKind,
    m: int,
) -> Option<Visit<Seq<TaskTree>>>
    decreases unvisited(edges, visited), m,
{
    if m <= 0 {
        Some(Visit { out: Seq::empty(), seen: visited })
    } else if m > edges.len() {
        expand_edges(nodes, edges, visited, n, kind, edges.len() as int)
    } else {
        let front = expand_edges(nodes, edges, visited, n, kind, m - 1);
        let e = edges[m - 1];
        if front is None {
            None
        } else {
            let v = visited.union(front->0.seen);
            if !leads(nodes, e, n, kind) {
                Some(Visit { out: front->0.out, seen: v })
            } else if v.contains(e.child) {
                None
            } else {
                proof {
                    lemma_unvisited_grows(edges, visited, front->0.seen);
                    lemma_visit_shrinks(edges, v, m - 1);
                }
                let sub = expand(nodes, edges, v.insert(e.child), e.child);
                if sub is Some {
                    Some(Visit { out: front->0.out.push(sub->0.out), seen: v.union(sub->0.seen) })
                } else {
                    None
                }
            }
        }
    }
}

/// Visiting more identifiers never leaves more of them unvisited.
pub proof fn lemma_unvisited_grows(edges: Seq<Pointer>, visited: Set<i64>, more: Set<i64>)
    ensures
        unvisited(edges, visited.union(more)) <= unvisited(edges, visited),
{
    let r = reachable_ids(edges);
    assert(r.difference(visited.union(more)).subset_of(r.difference(visited)));
    vstd::set_lib::lemma_len_subset(r.difference(visited.union(more)), r.difference(visited));
}

/// Stepping to an unvisited child end uses up one steppable identifier.
pub proof fn lemma_visit_shrinks(edges: Seq<Pointer>, visited: Set<i64>, i: int)
    requires
        0 <= i < edges.len(),
        !visited.contains(edges[i].child),
    ensures
        unvisited(edges, visited.insert(edges[i].child)) + 1 == unvisited(edges, visited),
{
    let c = edges[i].child;
    let r = reachable_ids(edges);
    assert(edges.map_values(|e: Pointer| e.child)[i] == c);
    assert(r.contains(c));
    assert(r.difference(visited.insert(c)) =~= r.difference(visited).remove(c));
}

/// Does `r` hold what materializing from `root` gives: `Empty` for an
/// unknown root, the expanded tree, or `CycleDetected`?
pub open spec fn materialized(nodes: Seq<NodeView>, edges: Seq<Pointer>, root: i64, r: TreeResult) -> bool {
    if !has_node(nodes, root) {
        r is Empty
    } else {
        match expand(nodes, edges, set![root], root) {
            Some(t) => r is Tree && r->Tree_0.tree() == t.out,
            None => r is CycleDetected,
        }
    }
}

/// No edge, of either kind, enters `id`.
pub open spec fn is_root(edges: Seq<Pointer>, id: i64) -> bool {
    forall|i: int| 0 <= i < edges.len() ==> #[trigger] edges[i].child != id
}

/// The identifier of the last node that is a root.
pub open spec fn last_root(nodes: Seq<NodeView>, edges: Seq<Pointer>) -> Option<i64>
    decreases nodes.len(),
{
    if nodes.len() == 0 {
        None
    } else if is_root(edges, nodes.last().id) {
        Some(nodes.last().id)
    } else {
        last_root(nodes.drop_last(), edges)
    }
}

fn find_node(nodes: &Vec<Group>, id: i64) -> (r: Option<usize>)
    ensures
        r is None <==> !has_node(node_views(nodes@), id),
        r is Some ==> first_node(node_views(nodes@), id, r->0 as int),
{
    let ghost nv = node_views(nodes@);
    let mut i: usize = 0;
    while i < nodes.len()
        invariant
            0 <= i <= nodes.len(),
            nv == node_views(nodes@),
            forall|j: int| 0 <= j < i ==> nv[j].id != id,
        decreases nodes.len() - i,
    {
        if nodes[i].id == id {
            assert(nv[i as int].id == id);
            return Some(i);
        }
        i = i + 1;
    }
    None
}

/// Where `k` is a first position of `id`, it is the one `node_of` names.
proof fn lemma_node_of(nodes: Seq<NodeView>, id: i64, k: int)
    requires
        first_node(nodes, id, k),
    ensures
        node_of(nodes, id) == nodes[k],
{
    let c = choose|c: int| first_node(nodes, id, c);
    assert(first_node(nodes, id, c));
    if c < k {
        assert(nodes[c].id != id);
    } else if c > k {
        assert(nodes[k].id != id);
    }
}

/// Once an identifier has been met twice among the edges seen so far,
/// further edges do not undo it.
proof fn lemma_cycle_stays(
    nodes: Seq<NodeView>,
    edges: Seq<Pointer>,
    visited: Set<i64>,
    n: i64,
    kind: EdgeKind,
    m: int,
    m2: int,
)
    requires
        0 < m <= m2 <= edges.len(),
        expand_edges(nodes, edges, visited, n, kind, m) is None,
    ensures
        expand_edges(nodes, edges, visited, n, kind, m2) is None,
    decreases m2 - m,
{
    if m < m2 {
        lemma_cycle_stays(nodes, edges, visited, n, kind, m, m2 - 1);
    }
}

fn expand_kind(
    nodes: &Vec<Group>,
    edges: &Vec<Pointer>,
    visited: &mut Vec<i64>,
    n: i64,
    kind: EdgeKind,
) -> (r: Option<Vec<Task>>)
    ensures
        old(visited)@.to_set().subset_of(final(visited)@.to_set()),
        match expand_edges(node_views(nodes@), edges@, old(visited)@.to_set(), n, kind, edges@.len() as int) {
            Some(res) => r is Some && forest(r->0@) == res.out && final(visited)@.to_set() == res.seen,
            None => r is None,
        },
    decreases unvisited(edges@, old(visited)@.to_set()), 1int,
{
    let ghost nv = node_views(nodes@);
    let ghost start = visited@.to_set();
    let mut out: Vec<Task> = Vec::new();
    let mut i: usize = 0;
    assert(start.union(start) =~= start);
    while i < edges.len()
        invariant
            start == old(visited)@.to_set(),
            start.subset_of(visited@.to_set()),
            nv == node_views(nodes@),
            0 <= i <= edges.len(),
            expand_edges(nv, edges@, start, n, kind, i as int) == Some(Visit { out: forest(out@), seen: visited@.to_set() }),
        decreases edges.len() - i,
    {
        let e = edges[i];
        let ghost cur = visited@.to_set();
        assert(start.union(cur) =~= cur);
        if e.parent == n && e.kind == kind && find_node(nodes, e.child).is_some() {
            if contains_id(visited, e.child) {
                proof {
                    lemma_cycle_stays(nv, edges@, start, n, kind, i + 1, edges@.len() as int);
                }
                return None;
            }
            proof {
                lemma_unvisited_grows(edges@, start, cur);
                lemma_visit_shrinks(edges@, cur, i as int);
            }
            let ghost before = visited@;
            visited.push(e.child);
            proof {
                before.lemma_push_to_set_commute(e.child);
            }
            assert(visited@.to_set() =~= cur.insert(e.child));
            let sub = expand_node(nodes, edges, visited, e.child);
            match sub {
                None => {
                    proof {
                        lemma_cycle_stays(nv, edges@, start, n, kind, i + 1, edges@.len() as int);
                    }
                    return None;
                },
                Some(t) => {
                    assert(cur.union(visited@.to_set()) =~= visited@.to_set());
                    assert(out@.push(t).drop_last() == out@);
                    out.push(t);
                },
            }
        }
        i = i + 1;
    }
    Some(out)
}

fn expand_node(nodes: &Vec<Group>, edges: &Vec<Pointer>, visited: &mut Vec<i64>, n: i64) -> (r:
    Option<Task>)
    requires
        has_node(node_views(nodes@), n),
    ensures
        old(visited)@.to_set().subset_of(final(visited)@.to_set()),
        match expand(node_views(nodes@), edges@, old(visited)@.to_set(), n) {
            Some(res) => r is Some && r->0.tree() == res.out && final(visited)@.to_set() == res.seen,
            None => r is None,
        },
    decreases unvisited(edges@, old(visited)@.to_set()) + 1, 0int,
{
    let ghost start = visited@.to_set();
    let children = match expand_kind(nodes, edges, visited, n, EdgeKind::Decomposition) {
        Some(c) => c,
        None => {
            return None;
        },
    };
    let ghost v1 = visited@.to_set();
    assert(start.union(v1) =~= v1);
    proof {
        lemma_unvisited_grows(edges@, start, v1);
    }
    let branches = match expand_kind(nodes, edges, visited, n, EdgeKind::Sequence) {
        Some(b) => b,
        None => {
            return None;
        },
    };
    assert(v1.union(visited@.to_set()) =~= visited@.to_set());
    match find_node(nodes, n) {
        Some(k) => {
            proof {
                lemma_node_of(node_views(nodes@), n, k as int);
            }
            let g = &nodes[k];
            Some(
                Task {
                    id: n,
                    project_id: g.project_id,
                    title: g.name.clone(),
                    description: g.description.clone(),
                    children,
                    branches,
                },
            )
        },
        None => None,
    }
}

/// Materializes the tree below `root` from a node set and an edge snapshot:
/// `Empty` where no node carries `root`; `CycleDetected` where the
/// traversal meets a task it has already visited, whether through a cycle
/// or a task reached along two routes.
pub fn materialize(nodes: &Vec<Group>, edges: &Vec<Pointer>, root: i64) -> (r: TreeResult)
    ensures
        materialized(node_views(nodes@), edges@, root, r),
{
    if find_node(nodes, root).is_none() {
        return TreeResult::Empty;
    }
    let mut visited: Vec<i64> = Vec::new();
    visited.push(root);
    assert(visited@.to_set() =~= set![root]) by {
        assert(visited@[0] == root);
    }
    match expand_node(nodes, edges, &mut visited, root) {
        Some(t) => TreeResult::Tree(t),
        None => TreeResult::CycleDetected,
    }
}

fn no_incoming(edges: &Vec<Pointer>, id: i64) -> (r: bool)
    ensures
        r == is_root(edges@, id),
{
    let mut i: usize = 0;
    while i < edges.len()
        invariant
            0 <= i <= edges.len(),
            forall|j: int| 0 <= j < i ==> #[trigger] edges@[j].child != id,
        decreases edges.len() - i,
    {
        if edges[i].child == id {
            return false;
        }
        i = i + 1;
    }
    true
}

/// The last node that no edge enters, or `None` where every node has a
/// parent or a predecessor.
pub fn find_root(nodes: &Vec<Group>, edges: &Vec<Pointer>) -> (r: Option<i64>)
    ensures
        r == last_root(node_views(nodes@), edges@),
{
    let ghost nv = node_views(nodes@);
    assert(nv.subrange(0, nv.len() as int) == nv);
    let mut i: usize = nodes.len();
    while i > 0
        invariant
            0 <= i <= nodes.len(),
            nv == node_views(nodes@),
            last_root(nv, edges@) == last_root(nv.subrange(0, i as int), edges@),
        decreases i,
    {
        let id = nodes[i - 1].id;
        assert(nv.subrange(0, i as int).last() == nv[i - 1]);
        if no_incoming(edges, id) {
            return Some(id);
        }
        assert(nv.subrange(0, i as int).drop_last() == nv.subrange(0, i - 1));
        i = i - 1;
    }
    None
}

/// The nodes that rows describe, in row order.
pub open spec fn row_nodes(raw: Seq<RawTask>) -> Seq<NodeView> {
    raw.map_values(
        |t: RawTask|
            NodeView {
                id: t.id,
                project_id: t.project_id,
                title: t.title@,
                description: t.description@,
            },
    )
}

/// The edges that rows describe, in row order: for each row, a sequence
/// edge from its `origin` and then a decomposition edge from its `parent`,
/// each only where the field is set. An edge takes its row's identifier.
pub open spec fn row_edges(raw: Seq<RawTask>) -> Seq<Pointer>
    decreases raw.len(),
{
    if raw.len() == 0 {
        Seq::empty()
    } else {
        let t = raw.last();
        let front = row_edges(raw.drop_last());
        let with_origin = if t.origin != NO_LINK {
            front.push(
                Pointer {
                    id: t.id,
                    project_id: t.project_id,
                    parent: t.origin,
                    child: t.id,
                    kind: EdgeKind::Sequence,
                },
            )
        } else {
            front
        };
        if t.parent != NO_LINK {
            with_origin.push(
                Pointer {
                    id: t.id,
                    project_id: t.project_id,
                    parent: t.parent,
                    child: t.id,
                    kind: EdgeKind::Decomposition,
                },
            )
        } else {
            with_origin
        }
    }
}

impl Task {
    /// Materializes the task rows of one project from their root: the last
    /// row that has neither an origin nor a parent. `Empty` where there is
    /// no such row.
    pub fn create_task(raw: Vec<RawTask>) -> (r: TreeResult)
        ensures
            match last_root(row_nodes(raw@), row_edges(raw@)) {
                None => r is Empty,
                Some(root) => materialized(row_nodes(raw@), row_edges(raw@), root, r),
            },
    {
        let mut nodes: Vec<Group> = Vec::new();
        let mut edges: Vec<Pointer> = Vec::new();
        let mut i: usize = 0;
        while i < raw.len()
            invariant
                0 <= i <= raw.len(),
                node_views(nodes@) == row_nodes(raw@.subrange(0, i as int)),
                edges@ == row_edges(raw@.subrange(0, i as int)),
            decreases raw.len() - i,
        {
            let t = &raw[i];
            assert(raw@.subrange(0, i + 1).drop_last() == raw@.subrange(0, i as int));
            assert(raw@.subrange(0, i + 1).last() == raw@[i as int]);
            if t.origin != NO_LINK {
                edges.push(
                    Pointer {
                        id: t.id,
                        project_id: t.project_id,
                        parent: t.origin,
                        child: t.id,
                        kind: EdgeKind::Sequence,
                    },
                );
            }
            if t.parent != NO_LINK {
                edges.push(
                    Pointer {
                        id: t.id,
                        project_id: t.project_id,
                        parent: t.parent,
                        child: t.id,
                        kind: EdgeKind::Decomposition,
                    },
                );
            }
            let ghost before = nodes@;
            assert(node_views(before).len() == before.len());
            assert(row_nodes(raw@.subrange(0, i as int)).len() == i);
            nodes.push(
                Group {
                    id: t.id,
                    project_id: t.project_id,
                    name: t.title.clone(),
                    description: t.description.clone(),
                },
            );
            assert forall|j: int| 0 <= j <= i implies node_views(nodes@)[j] == row_nodes(
                raw@.subrange(0, i + 1),
            )[j] by {
                if j < i {
                    assert(nodes@[j] == before[j]);
                    assert(node_views(before)[j] == row_nodes(raw@.subrange(0, i as int))[j]);
                }
            }
            assert(node_views(nodes@) =~= row_nodes(raw@.subrange(0, i + 1)));
            i = i + 1;
        }
        assert(raw@.subrange(0, raw@.len() as int) == raw@);
        match find_root(&nodes, &edges) {
            None => TreeResult::Empty,
            Some(root) => materialize(&nodes, &edges, root),
        }
    }
}

/// `w` lists edge positions that lead, one after another, from `from` to
/// `to` through known nodes.
pub open spec fn is_walk(nodes: Seq<NodeView>, edges: Seq<Pointer>, w: Seq<int>, from: i64, to: i64) -> bool
    decreases w.len(),
{
    if w.len() == 0 {
        from == to
    } else {
        &&& 0 <= w[0] < edges.len()
        &&& leads(nodes, edges[w[0]], from, edges[w[0]].kind)
        &&& is_walk(nodes, edges, w.drop_first(), edges[w[0]].child, to)
    }
}

/// A walk from `n` back to an identifier already visited makes the edges of
/// its first step fail, whatever else has been visited.
proof fn lemma_back_edges(
    nodes: Seq<NodeView>,
    edges: Seq<Pointer>,
    visited: Set<i64>,
    n: i64,
    w: Seq<int>,
    t: i64,
)
    requires
        visited.contains(t),
        w.len() > 0,
        is_walk(nodes, edges, w, n, t),
    ensures
        expand_edges(nodes, edges, visited, n, edges[w[0]].kind, edges.len() as int) is None,
    decreases w.len(), 0int,
{
    let j = w[0];
    let e = edges[j];
    assert(leads(nodes, e, n, e.kind));
    assert(is_walk(nodes, edges, w.drop_first(), e.child, t));
    let front = expand_edges(nodes, edges, visited, n, e.kind, j);
    if front is Some {
        let v = visited.union(front->0.seen);
        if w.len() == 1 {
            assert(e.child == t);
        } else if !v.contains(e.child) {
            lemma_back(nodes, edges, v.insert(e.child), e.child, w.drop_first(), t);
        }
    }
    assert(expand_edges(nodes, edges, visited, n, e.kind, j + 1) is None);
    lemma_cycle_stays(nodes, edges, visited, n, e.kind, j + 1, edges.len() as int);
}

/// A walk from `n` back to an identifier already visited makes the
/// expansion of `n` fail.
proof fn lemma_back(nodes: Seq<NodeView>, edges: Seq<Pointer>, visited: Set<i64>, n: i64, w: Seq<int>, t: i64)
    requires
        visited.contains(t),
        w.len() > 0,
        is_walk(nodes, edges, w, n, t),
    ensures
        expand(nodes, edges, visited, n) is None,
    decreases w.len(), 1int,
{
    let kind = edges[w[0]].kind;
    if kind == EdgeKind::Decomposition {
        lemma_back_edges(nodes, edges, visited, n, w, t);
    } else {
        let children = expand_edges(nodes, edges, visited, n, EdgeKind::Decomposition, edges.len() as int);
        if children is Some {
            lemma_back_edges(nodes, edges, visited.union(children->0.seen), n, w, t);
        }
    }
}

proof fn lemma_reach_edges(
    nodes: Seq<NodeView>,
    edges: Seq<Pointer>,
    visited: Set<i64>,
    n: i64,
    w1: Seq<int>,
    c: i64,
    w2: Seq<int>,
)
    requires
        w1.len() > 0,
        is_walk(nodes, edges, w1, n, c),
        w2.len() > 0,
        is_walk(nodes, edges, w2, c, c),
    ensures
        expand_edges(nodes, edges, visited, n, edges[w1[0]].kind, edges.len() as int) is None,
    decreases w1.len(), 0int,
{
    let j = w1[0];
    let e = edges[j];
    assert(leads(nodes, e, n, e.kind));
    assert(is_walk(nodes, edges, w1.drop_first(), e.child, c));
    let front = expand_edges(nodes, edges, visited, n, e.kind, j);
    if front is Some {
        let v = visited.union(front->0.seen);
        if !v.contains(e.child) {
            lemma_reach(nodes, edges, v.insert(e.child), e.child, w1.drop_first(), c, w2);
        }
    }
    assert(expand_edges(nodes, edges, visited, n, e.kind, j + 1) is None);
    lemma_cycle_stays(nodes, edges, visited, n, e.kind, j + 1, edges.len() as int);
}

proof fn lemma_reach(
    nodes: Seq<NodeView>,
    edges: Seq<Pointer>,
    visited: Set<i64>,
    n: i64,
    w1: Seq<int>,
    c: i64,
    w2: Seq<int>,
)
    requires
        visited.contains(n),
        is_walk(nodes, edges, w1, n, c),
        w2.len() > 0,
        is_walk(nodes, edges, w2, c, c),
    ensures
        expand(nodes, edges, visited, n) is None,
    decreases w1.len(), 1int,
{
    if w1.len() == 0 {
        lemma_back(nodes, edges, visited, n, w2, c);
    } else {
        let kind = edges[w1[0]].kind;
        if kind == EdgeKind::Decomposition {
            lemma_reach_edges(nodes, edges, visited, n, w1, c, w2);
        } else {
            let children = expand_edges(nodes, edges, visited, n, EdgeKind::Decomposition, edges.len() as int);
            if children is Some {
                lemma_reach_edges(nodes, edges, visited.union(children->0.seen), n, w1, c, w2);
            }
        }
    }
}

/// Where a cycle through known nodes (the walk `w2` from `c` back to `c`)
/// can be reached from the root (the walk `w1`), materialization reports
/// `CycleDetected`, never a tree.
pub proof fn lemma_cycle_reported(
    nodes: Seq<NodeView>,
    edges: Seq<Pointer>,
    root: i64,
    w1: Seq<int>,
    c: i64,
    w2: Seq<int>,
    r: TreeResult,
)
    requires
        has_node(nodes, root),
        is_walk(nodes, edges, w1, root, c),
        w2.len() > 0,
        is_walk(nodes, edges, w2, c, c),
        materialized(nodes, edges, root, r),
    ensures
        r is CycleDetected,
{
    lemma_reach(nodes, edges, set![root], root, w1, c, w2);
}

} // verus!
