use vstd::prelude::*;

verus! {

/// The relation that an edge records between its two endpoints.
#[derive(Clone, Copy, Debug, PartialEq, Eq, Structural)]
pub enum EdgeKind {
    /// The parent contains the child as a subtask.
    Decomposition,
    /// The parent is the predecessor of the child in time.
    Sequence,
}

/// A directed edge between two task nodes of one project.
#[derive(Clone, Copy, Debug, PartialEq, Eq, Structural)]
pub struct Pointer {
    pub id: i64,
    pub project_id: i64,
    pub parent: i64,
    pub child: i64,
    pub kind: EdgeKind,
}

/// Outcome of an edge mutation.
#[derive(Clone, Copy, Debug, PartialEq, Eq, Structural)]
pub enum PointerResult {
    Success,
    DoesntExist,
    AlreadyExist,
    SelfLoop,
}

/// Abstract state of an edge store: its rows in storage order, and the
/// identifier that the next inserted edge receives.
pub struct EdgeState {
    pub rows: Seq<Pointer>,
    pub next_id: i64,
}

/// Does edge `e` join `parent` to `child` inside `project_id`?
pub open spec fn links(e: Pointer, project_id: i64, parent: i64, child: i64) -> bool {
    e.project_id == project_id && e.parent == parent && e.child == child
}

pub open spec fn has_edge(rows: Seq<Pointer>, project_id: i64, parent: i64, child: i64) -> bool {
    exists|i: int| 0 <= i < rows.len() && links(#[trigger] rows[i], project_id, parent, child)
}

/// The rows left after every edge `(project_id, parent, child)` is taken out.
pub open spec fn without_edge(rows: Seq<Pointer>, project_id: i64, parent: i64, child: i64) -> Seq<
    Pointer,
> {
    rows.filter(|e: Pointer| !links(e, project_id, parent, child))
}

/// The rows left after every edge with `node` at either end is taken out.
pub open spec fn without_node(rows: Seq<Pointer>, node: i64) -> Seq<Pointer> {
    rows.filter(|e: Pointer| e.parent != node && e.child != node)
}

pub open spec fn in_project(rows: Seq<Pointer>, project_id: i64) -> Seq<Pointer> {
    rows.filter(|e: Pointer| e.project_id == project_id)
}

/// Child ends of the edges leaving `node`, in the order of `rows`.
pub open spec fn child_ids(rows: Seq<Pointer>, node: i64) -> Seq<i64> {
    rows.filter_map(|e: Pointer| if e.parent == node { Some(e.child) } else { None })
}

/// Parent ends of the edges entering `node`, in the order of `rows`.
pub open spec fn parent_ids(rows: Seq<Pointer>, node: i64) -> Seq<i64> {
    rows.filter_map(|e: Pointer| if e.child == node { Some(e.parent) } else { None })
}

impl EdgeState {
    /// Identifiers below `next_id`, no self-loop, and at most one edge for
    /// each (project, parent, child) triple.
    pub open spec fn wf(self) -> bool {
        &&& self.next_id >= 0
        &&& forall|i: int|
            0 <= i < self.rows.len() ==> {
                &&& 0 <= #[trigger] self.rows[i].id < self.next_id
                &&& self.rows[i].parent != self.rows[i].child
            }
        &&& forall|i: int, j: int|
            0 <= i < j < self.rows.len() ==> !links(
                #[trigger] self.rows[j],
                #[trigger] self.rows[i].project_id,
                self.rows[i].parent,
                self.rows[i].child,
            )
    }

    /// What `create_pointer` answers, and the state it leaves.
    pub open spec fn create(self, project_id: i64, parent: i64, child: i64, kind: EdgeKind) -> (
        PointerResult,
        EdgeState,
    ) {
        if parent == child {
            (PointerResult::SelfLoop, self)
        } else if has_edge(self.rows, project_id, parent, child) {
            (PointerResult::AlreadyExist, self)
        } else {
            (
                PointerResult::Success,
                EdgeState {
                    rows: self.rows.push(
                        Pointer { id: self.next_id, project_id, parent, child, kind },
                    ),
                    next_id: (self.next_id + 1) as i64,
                },
            )
        }
    }

    /// What `delete_pointer` answers, and the state it leaves.
    pub open spec fn delete(self, project_id: i64, parent: i64, child: i64) -> (
        PointerResult,
        EdgeState,
    ) {
        if has_edge(self.rows, project_id, parent, child) {
            (
                PointerResult::Success,
                EdgeState {
                    rows: without_edge(self.rows, project_id, parent, child),
                    next_id: self.next_id,
                },
            )
        } else {
            (PointerResult::DoesntExist, self)
        }
    }
}

/// The edges of every project, held in memory in insertion order.
pub struct EdgeStore {
    pub rows: Vec<Pointer>,
    pub next_id: i64,
}

impl View for EdgeStore {
    type V = EdgeState;

    open spec fn view(&self) -> EdgeState {
        EdgeState { rows: self.rows@, next_id: self.next_id }
    }
}

impl EdgeStore {
    pub fn new() -> (r: EdgeStore)
        ensures
            r@.rows == Seq::<Pointer>::empty(),
            r@.next_id == 0,
            r@.wf(),
    {
        EdgeStore { rows: Vec::new(), next_id: 0 }
    }

    /// Existence probe for the edge `(project_id, parent, child)`.
    pub fn contains_edge(&self, project_id: i64, parent: i64, child: i64) -> (r: bool)
        ensures
            r == has_edge(self@.rows, project_id, parent, child),
    {
        let mut i: usize = 0;
        while i < self.rows.len()
            invariant
                0 <= i <= self.rows.len(),
                forall|k: int| 0 <= k < i ==> !links(#[trigger] self.rows@[k], project_id, parent, child),
            decreases self.rows.len() - i,
        {
            let e = self.rows[i];
            if e.project_id == project_id && e.parent == parent && e.child == child {
                assert(links(self.rows@[i as int], project_id, parent, child));
                return true;
            }
            i = i + 1;
        }
        false
    }

    /// Unconditional insert; only the validator calls it.
    fn insert(&mut self, project_id: i64, parent: i64, child: i64, kind: EdgeKind)
        requires
            old(self).next_id < i64::MAX,
        ensures
            final(self)@.rows == old(self)@.rows.push(
                Pointer { id: old(self).next_id, project_id, parent, child, kind },
            ),
            final(self)@.next_id == old(self).next_id + 1,
    {
        let id = self.next_id;
        self.rows.push(Pointer { id, project_id, parent, child, kind });
        self.next_id = id + 1;
    }

    /// Unconditional removal of every edge `(project_id, parent, child)`.
    fn remove(&mut self, project_id: i64, parent: i64, child: i64)
        ensures
            final(self)@.rows == without_edge(old(self)@.rows, project_id, parent, child),
            final(self)@.next_id == old(self)@.next_id,
    {
        let mut kept: Vec<Pointer> = Vec::new();
        let mut i: usize = 0;
        while i < self.rows.len()
            invariant
                0 <= i <= self.rows.len(),
                kept@ == without_edge(self.rows@.subrange(0, i as int), project_id, parent, child),
            decreases self.rows.len() - i,
        {
            let e = self.rows[i];
            assert(self.rows@.subrange(0, i + 1).drop_last() == self.rows@.subrange(0, i as int));
            assert(self.rows@.subrange(0, i + 1).last() == e);
            proof {
                reveal_with_fuel(Seq::filter, 1);
            }
            if !(e.project_id == project_id && e.parent == parent && e.child == child) {
                kept.push(e);
            }
            i = i + 1;
        }
        assert(self.rows@.subrange(0, self.rows@.len() as int) == self.rows@);
        self.rows = kept;
    }

    /// Removes every edge that has `node` at either end.
    pub fn remove_touching(&mut self, node: i64)
        ensures
            final(self)@.rows == without_node(old(self)@.rows, node),
            final(self)@.next_id == old(self)@.next_id,
    {
        let mut kept: Vec<Pointer> = Vec::new();
        let mut i: usize = 0;
        while i < self.rows.len()
            invariant
                0 <= i <= self.rows.len(),
                kept@ == without_node(self.rows@.subrange(0, i as int), node),
            decreases self.rows.len() - i,
        {
            let e = self.rows[i];
            assert(self.rows@.subrange(0, i + 1).drop_last() == self.rows@.subrange(0, i as int));
            assert(self.rows@.subrange(0, i + 1).last() == e);
            proof {
                reveal_with_fuel(Seq::filter, 1);
            }
            if e.parent != node && e.child != node {
                kept.push(e);
            }
            i = i + 1;
        }
        assert(self.rows@.subrange(0, self.rows@.len() as int) == self.rows@);
        self.rows = kept;
    }
}

impl Pointer {
    /// The edge snapshot of one project, in storage order.
    pub fn fetch_all(db: &EdgeStore, project_id: i64) -> (r: Vec<Pointer>)
        ensures
            r@ == in_project(db@.rows, project_id),
    {
        let mut out: Vec<Pointer> = Vec::new();
        let mut i: usize = 0;
        while i < db.rows.len()
            invariant
                0 <= i <= db.rows.len(),
                out@ == in_project(db.rows@.subrange(0, i as int), project_id),
            decreases db.rows.len() - i,
        {
            let e = db.rows[i];
            assert(db.rows@.subrange(0, i + 1).drop_last() == db.rows@.subrange(0, i as int));
            proof {
                reveal_with_fuel(Seq::filter, 1);
            }
            if e.project_id == project_id {
                out.push(e);
            }
            i = i + 1;
        }
        assert(db.rows@.subrange(0, db.rows@.len() as int) == db.rows@);
        out
    }

    /// Every `child` of an edge whose `parent` is `task_id`, in snapshot order.
    pub fn fetch_children(task_id: i64, collection: &Vec<Pointer>) -> (r: Vec<i64>)
        ensures
            r@ == child_ids(collection@, task_id),
    {
        let mut out: Vec<i64> = Vec::new();
        let mut i: usize = 0;
        while i < collection.len()
            invariant
                0 <= i <= collection.len(),
                out@ == child_ids(collection@.subrange(0, i as int), task_id),
            decreases collection.len() - i,
        {
            let e = collection[i];
            assert(collection@.subrange(0, i + 1).drop_last() == collection@.subrange(0, i as int));
            proof {
                reveal_with_fuel(Seq::filter_map, 1);
            }
            if e.parent == task_id {
                out.push(e.child);
            }
            i = i + 1;
        }
        assert(collection@.subrange(0, collection@.len() as int) == collection@);
        out
    }

    /// Every `parent` of an edge whose `child` is `task_id`, in snapshot order.
    pub fn fetch_parents(task_id: i64, collection: &Vec<Pointer>) -> (r: Vec<i64>)
        ensures
            r@ == parent_ids(collection@, task_id),
    {
        let mut out: Vec<i64> = Vec::new();
        let mut i: usize = 0;
        while i < collection.len()
            invariant
                0 <= i <= collection.len(),
                out@ == parent_ids(collection@.subrange(0, i as int), task_id),
            decreases collection.len() - i,
        {
            let e = collection[i];
            assert(collection@.subrange(0, i + 1).drop_last() == collection@.subrange(0, i as int));
            proof {
                reveal_with_fuel(Seq::filter_map, 1);
            }
            if e.child == task_id {
                out.push(e.parent);
            }
            i = i + 1;
        }
        assert(collection@.subrange(0, collection@.len() as int) == collection@);
        out
    }

    /// Adds the edge `parent -> child` to `project_id`, unless it is a
    /// self-loop (checked first) or the triple is already stored.
    pub fn create_pointer(
        db: &mut EdgeStore,
        project_id: i64,
        parent: i64,
        child: i64,
        kind: EdgeKind,
    ) -> (r: PointerResult)
        requires
            parent != child && !has_edge(old(db)@.rows, project_id, parent, child) ==> old(db)@.next_id
                < i64::MAX,
        ensures
            (r, final(db)@) == old(db)@.create(project_id, parent, child, kind),
            old(db)@.wf() ==> final(db)@.wf(),
    {
        if child == parent {
            return PointerResult::SelfLoop;
        }
        if db.contains_edge(project_id, parent, child) {
            return PointerResult::AlreadyExist;
        }
        db.insert(project_id, parent, child, kind);
        PointerResult::Success
    }

    /// Removes the edge `parent -> child` of `project_id`; reports
    /// `DoesntExist`, and changes nothing, where there is none.
    pub fn delete_pointer(db: &mut EdgeStore, project_id: i64, parent: i64, child: i64) -> (r:
        PointerResult)
        ensures
            (r, final(db)@) == old(db)@.delete(project_id, parent, child),
            old(db)@.wf() ==> final(db)@.wf(),
    {
        if !db.contains_edge(project_id, parent, child) {
            return PointerResult::DoesntExist;
        }
        db.remove(project_id, parent, child);
        proof {
            if old(db)@.wf() {
                lemma_filter_keeps_wf(old(db)@, |e: Pointer| !links(e, project_id, parent, child));
            }
        }
        PointerResult::Success
    }
}

/// Taking rows out of a well-formed state leaves it well-formed.
pub(crate) proof fn lemma_filter_keeps_wf(s: EdgeState, pred: spec_fn(Pointer) -> bool)
    requires
        s.wf(),
    ensures
        (EdgeState { rows: s.rows.filter(pred), next_id: s.next_id }).wf(),
    decreases s.rows.len(),
{
    reveal_with_fuel(Seq::filter, 1);
    if s.rows.len() > 0 {
        let shorter = EdgeState { rows: s.rows.drop_last(), next_id: s.next_id };
        lemma_filter_keeps_wf(shorter, pred);
        let f = shorter.rows.filter(pred);
        if pred(s.rows.last()) {
            assert forall|i: int| 0 <= i < f.len() implies !links(
                s.rows.last(),
                #[trigger] f[i].project_id,
                f[i].parent,
                f[i].child,
            ) by {
                assert(f.contains(f[i]));
                shorter.rows.lemma_filter_contains_rev(pred, f[i]);
                let k = choose|k: int| 0 <= k < shorter.rows.len() && shorter.rows[k] == f[i];
                assert(s.rows[k] == shorter.rows[k]);
            }
        }
    }
}

/// Number of rows that join `parent` to `child` inside `project_id`.
pub open spec fn edge_count(rows: Seq<Pointer>, project_id: i64, parent: i64, child: i64) -> nat {
    rows.filter(|e: Pointer| links(e, project_id, parent, child)).len()
}

proof fn lemma_filter_all_pass(rows: Seq<Pointer>, pred: spec_fn(Pointer) -> bool)
    requires
        forall|i: int| 0 <= i < rows.len() ==> pred(#[trigger] rows[i]),
    ensures
        rows.filter(pred) == rows,
    decreases rows.len(),
{
    reveal_with_fuel(Seq::filter, 1);
    if rows.len() > 0 {
        lemma_filter_all_pass(rows.drop_last(), pred);
        assert(rows.drop_last().push(rows.last()) == rows);
    }
}

proof fn lemma_filter_none_pass(rows: Seq<Pointer>, pred: spec_fn(Pointer) -> bool)
    requires
        forall|i: int| 0 <= i < rows.len() ==> !pred(#[trigger] rows[i]),
    ensures
        rows.filter(pred).len() == 0,
    decreases rows.len(),
{
    reveal_with_fuel(Seq::filter, 1);
    if rows.len() > 0 {
        lemma_filter_none_pass(rows.drop_last(), pred);
    }
}

/// In a well-formed state an edge that is stored is stored exactly once.
proof fn lemma_stored_once(s: EdgeState, project_id: i64, parent: i64, child: i64)
    requires
        s.wf(),
        has_edge(s.rows, project_id, parent, child),
    ensures
        edge_count(s.rows, project_id, parent, child) == 1,
    decreases s.rows.len(),
{
    reveal_with_fuel(Seq::filter, 1);
    let shorter = EdgeState { rows: s.rows.drop_last(), next_id: s.next_id };
    assert(shorter.wf()) by {
        assert forall|i: int, j: int| 0 <= i < j < shorter.rows.len() implies !links(
            #[trigger] shorter.rows[j],
            #[trigger] shorter.rows[i].project_id,
            shorter.rows[i].parent,
            shorter.rows[i].child,
        ) by {
            assert(s.rows[i] == shorter.rows[i] && s.rows[j] == shorter.rows[j]);
        }
    }
    if links(s.rows.last(), project_id, parent, child) {
        assert forall|i: int| 0 <= i < shorter.rows.len() implies !links(
            #[trigger] shorter.rows[i],
            project_id,
            parent,
            child,
        ) by {
            assert(s.rows[i] == shorter.rows[i]);
            assert(!links(s.rows[s.rows.len() - 1], s.rows[i].project_id, s.rows[i].parent, s.rows[i].child));
        }
        lemma_filter_none_pass(shorter.rows, |e: Pointer| links(e, project_id, parent, child));
    } else {
        let i = choose|i: int| 0 <= i < s.rows.len() && links(#[trigger] s.rows[i], project_id, parent, child);
        assert(shorter.rows[i] == s.rows[i]);
        lemma_stored_once(shorter, project_id, parent, child);
    }
}

/// Creating the edge `(project_id, a, b)` a second time reports
/// `AlreadyExist` and changes nothing; across both calls the rows gain the
/// edge once where it was missing, and end holding it exactly once.
pub proof fn lemma_create_twice(s: EdgeState, project_id: i64, a: i64, b: i64, kind: EdgeKind)
    requires
        s.wf(),
        s.next_id < i64::MAX,
        a != b,
    ensures
        ({
            let (r1, s1) = s.create(project_id, a, b, kind);
            let (r2, s2) = s1.create(project_id, a, b, kind);
            &&& r2 == PointerResult::AlreadyExist
            &&& s2 == s1
            &&& !has_edge(s.rows, project_id, a, b) ==> s2.rows == s.rows.push(
                Pointer { id: s.next_id, project_id, parent: a, child: b, kind },
            )
            &&& has_edge(s.rows, project_id, a, b) ==> s2.rows == s.rows
            &&& edge_count(s2.rows, project_id, a, b) == 1
        }),
{
    let (r1, s1) = s.create(project_id, a, b, kind);
    if !has_edge(s.rows, project_id, a, b) {
        let n = s.rows.len() as int;
        assert(links(s1.rows[n], project_id, a, b));
        assert(s1.wf()) by {
            assert forall|i: int, j: int| 0 <= i < j < s1.rows.len() implies !links(
                #[trigger] s1.rows[j],
                #[trigger] s1.rows[i].project_id,
                s1.rows[i].parent,
                s1.rows[i].child,
            ) by {
                assert(s1.rows[i] == s.rows[i]);
                if j < n {
                    assert(s1.rows[j] == s.rows[j]);
                } else if links(s1.rows[j], s1.rows[i].project_id, s1.rows[i].parent, s1.rows[i].child) {
                    assert(links(s.rows[i], project_id, a, b));
                }
            }
        }
    }
    lemma_stored_once(s1, project_id, a, b);
}

/// Creating an edge that is not stored and then deleting it gives back the
/// rows exactly as they were.
pub proof fn lemma_create_delete_round_trip(
    s: EdgeState,
    project_id: i64,
    a: i64,
    b: i64,
    kind: EdgeKind,
)
    requires
        !has_edge(s.rows, project_id, a, b),
    ensures
        ({
            let (r1, s1) = s.create(project_id, a, b, kind);
            let (r2, s2) = s1.delete(project_id, a, b);
            s2.rows == s.rows
        }),
{
    if a != b {
        let (r1, s1) = s.create(project_id, a, b, kind);
        let n = s.rows.len() as int;
        assert(links(s1.rows[n], project_id, a, b));
        reveal_with_fuel(Seq::filter, 1);
        assert(s1.rows.drop_last() == s.rows);
        assert forall|i: int| 0 <= i < s.rows.len() implies !links(#[trigger] s.rows[i], project_id, a, b) by {}
        lemma_filter_all_pass(s.rows, |e: Pointer| !links(e, project_id, a, b));
    }
}

proof fn lemma_child_ids_contains(rows: Seq<Pointer>, node: i64, c: i64)
    ensures
        child_ids(rows, node).contains(c) <==> exists|i: int|
            0 <= i < rows.len() && #[trigger] rows[i].parent == node && rows[i].child == c,
    decreases rows.len(),
{
    reveal_with_fuel(Seq::filter_map, 1);
    if rows.len() > 0 {
        let shorter = rows.drop_last();
        let last = rows.last();
        let n = rows.len() - 1;
        lemma_child_ids_contains(shorter, node, c);
        let cs = child_ids(shorter, node);
        if cs.contains(c) {
            let i = choose|i: int| 0 <= i < shorter.len() && #[trigger] shorter[i].parent == node && shorter[i].child == c;
            assert(rows[i] == shorter[i]);
            let k = choose|k: int| 0 <= k < cs.len() && cs[k] == c;
            if last.parent == node {
                assert(child_ids(rows, node)[k] == c);
            }
        }
        if exists|i: int| 0 <= i < rows.len() && #[trigger] rows[i].parent == node && rows[i].child == c {
            let i = choose|i: int| 0 <= i < rows.len() && #[trigger] rows[i].parent == node && rows[i].child == c;
            if i < n {
                assert(shorter[i] == rows[i]);
            } else {
                assert(child_ids(rows, node)[cs.len() as int] == c);
            }
        }
        if last.parent == node && child_ids(rows, node).contains(c) {
            let k = choose|k: int| 0 <= k < child_ids(rows, node).len() && child_ids(rows, node)[k] == c;
            if k < cs.len() {
                assert(cs[k] == c);
            } else {
                assert(rows[n].parent == node && rows[n].child == c);
            }
        }
    }
}

proof fn lemma_parent_ids_contains(rows: Seq<Pointer>, node: i64, p: i64)
    ensures
        parent_ids(rows, node).contains(p) <==> exists|i: int|
            0 <= i < rows.len() && #[trigger] rows[i].child == node && rows[i].parent == p,
    decreases rows.len(),
{
    reveal_with_fuel(Seq::filter_map, 1);
    if rows.len() > 0 {
        let shorter = rows.drop_last();
        let last = rows.last();
        let n = rows.len() - 1;
        lemma_parent_ids_contains(shorter, node, p);
        let ps = parent_ids(shorter, node);
        if ps.contains(p) {
            let i = choose|i: int| 0 <= i < shorter.len() && #[trigger] shorter[i].child == node && shorter[i].parent == p;
            assert(rows[i] == shorter[i]);
            let k = choose|k: int| 0 <= k < ps.len() && ps[k] == p;
            if last.child == node {
                assert(parent_ids(rows, node)[k] == p);
            }
        }
        if exists|i: int| 0 <= i < rows.len() && #[trigger] rows[i].child == node && rows[i].parent == p {
            let i = choose|i: int| 0 <= i < rows.len() && #[trigger] rows[i].child == node && rows[i].parent == p;
            if i < n {
                assert(shorter[i] == rows[i]);
            } else {
                assert(parent_ids(rows, node)[ps.len() as int] == p);
            }
        }
        if last.child == node && parent_ids(rows, node).contains(p) {
            let k = choose|k: int| 0 <= k < parent_ids(rows, node).len() && parent_ids(rows, node)[k] == p;
            if k < ps.len() {
                assert(ps[k] == p);
            } else {
                assert(rows[n].child == node && rows[n].parent == p);
            }
        }
    }
}

/// The children fetched for `node` are exactly the child ends of the edges
/// whose parent end is `node`; the parents, the other way round.
pub proof fn lemma_fetch_sets(rows: Seq<Pointer>, node: i64)
    ensures
        child_ids(rows, node).to_set() == Set::new(
            |c: i64| exists|i: int| 0 <= i < rows.len() && #[trigger] rows[i].parent == node && rows[i].child == c,
        ),
        parent_ids(rows, node).to_set() == Set::new(
            |p: i64| exists|i: int| 0 <= i < rows.len() && #[trigger] rows[i].child == node && rows[i].parent == p,
        ),
{
    assert forall|c: i64| child_ids(rows, node).to_set().contains(c) <==> exists|i: int|
        0 <= i < rows.len() && #[trigger] rows[i].parent == node && rows[i].child == c by {
        lemma_child_ids_contains(rows, node, c);
    }
    assert forall|p: i64| parent_ids(rows, node).to_set().contains(p) <==> exists|i: int|
        0 <= i < rows.len() && #[trigger] rows[i].child == node && rows[i].parent == p by {
        lemma_parent_ids_contains(rows, node, p);
    }
    assert(child_ids(rows, node).to_set() =~= Set::new(
        |c: i64| exists|i: int| 0 <= i < rows.len() && #[trigger] rows[i].parent == node && rows[i].child == c,
    ));
    assert(parent_ids(rows, node).to_set() =~= Set::new(
        |p: i64| exists|i: int| 0 <= i < rows.len() && #[trigger] rows[i].child == node && rows[i].parent == p,
    ));
}

/// After a cascade for `node`, no remaining edge has `node` at either end,
/// and every edge that did not touch it is still there.
pub proof fn lemma_cascade_clears(rows: Seq<Pointer>, node: i64)
    ensures
        forall|i: int|
            0 <= i < without_node(rows, node).len() ==> #[trigger] without_node(rows, node)[i].parent
                != node && without_node(rows, node)[i].child != node,
        forall|i: int|
            0 <= i < rows.len() && rows[i].parent != node && rows[i].child != node
                ==> without_node(rows, node).contains(#[trigger] rows[i]),
{
    let pred = |e: Pointer| e.parent != node && e.child != node;
    assert forall|i: int| 0 <= i < without_node(rows, node).len() implies #[trigger] without_node(
        rows,
        node,
    )[i].parent != node && without_node(rows, node)[i].child != node by {
        rows.lemma_filter_pred(pred, i);
    }
    assert forall|i: int|
        0 <= i < rows.len() && rows[i].parent != node && rows[i].child != node implies without_node(
        rows,
        node,
    ).contains(#[trigger] rows[i]) by {
        rows.lemma_filter_contains(pred, i);
    }
}

} // verus!
