use vstd::prelude::*;
use crate::group::{
    ends_ok, has_project, lemma_ends_fewer_edges, lemma_ends_filtered, lemma_filter_keeps_unique, node_in,
    node_views, Group,
};
use crate::pointer::{has_edge, in_project, lemma_filter_keeps_wf, links, EdgeKind, EdgeStore, Pointer, PointerResult};
use crate::task::{last_root, materialized, find_root, materialize, TreeResult};

verus! {

pub struct User {
    pub id: u128,
    pub username: String,
}

/// What a member may do inside a team.
#[derive(Clone, Copy, Debug, PartialEq, Eq, Structural)]
pub enum Permissions {
    Admin,
    Editor,
    Viewer,
    /// Listed in the team without any right.
    NoAccess,
}

pub struct Team {
    pub id: u128,
    pub name: String,
    /// Each member once, with its permissions.
    pub members: Vec<(u128, Permissions)>,
}

/// The mathematical value of a team.
pub struct TeamView {
    pub id: u128,
    pub name: Seq<char>,
    pub members: Seq<(u128, Permissions)>,
}

impl View for Team {
    type V = TeamView;

    open spec fn view(&self) -> TeamView {
        TeamView { id: self.id, name: self.name@, members: self.members@ }
    }
}

pub struct Project {
    pub id: i64,
    pub title: String,
}

/// Membership of a user in a project.
pub struct ProjectMembers {
    pub id: i64,
    pub project_id: i64,
    pub user_id: i64,
}

/// The whole state of the tracker: users, teams, projects, their task
/// nodes, and the edges between those nodes.
pub struct Database {
    pub users: Vec<User>,
    pub teams: Vec<Team>,
    pub projects: Vec<Project>,
    pub groups: Vec<Group>,
    pub pointers: EdgeStore,
    pub memberships: Vec<ProjectMembers>,
}

/// `k` is the first position of a user called `name`.
pub open spec fn first_user(users: Seq<User>, name: Seq<char>, k: int) -> bool {
    &&& 0 <= k < users.len()
    &&& users[k].username@ == name
    &&& forall|j: int| 0 <= j < k ==> users[j].username@ != name
}

pub open spec fn is_member(t: TeamView, user_id: u128) -> bool {
    exists|i: int| 0 <= i < t.members.len() && t.members[i].0 == user_id
}

pub open spec fn team_views(teams: Seq<Team>) -> Seq<TeamView> {
    teams.map_values(|t: Team| t@)
}

/// The teams that count `user_id` among their members, in storage order.
pub open spec fn teams_of(teams: Seq<TeamView>, user_id: u128) -> Seq<TeamView> {
    teams.filter(|t: TeamView| is_member(t, user_id))
}

impl Database {
    pub fn new() -> (r: Database)
        ensures
            r.users@.len() == 0,
            r.teams@.len() == 0,
            r.projects@.len() == 0,
            r.groups@.len() == 0,
            r.pointers@.rows.len() == 0,
            r.pointers@.next_id == 0,
            r.memberships@.len() == 0,
            r.wf(),
    {
        Database {
            users: Vec::new(),
            teams: Vec::new(),
            projects: Vec::new(),
            groups: Vec::new(),
            pointers: EdgeStore::new(),
            memberships: Vec::new(),
        }
    }

    /// Identifiers are unique among users, teams, projects, task nodes and
    /// the members of each team; the edge store is well formed; both ends of
    /// every edge are nodes of the edge's project.
    pub open spec fn wf(&self) -> bool {
        &&& forall|i: int, j: int|
            0 <= i < j < self.groups@.len() ==> #[trigger] self.groups@[i].id
                != #[trigger] self.groups@[j].id
        &&& self.pointers@.wf()
        &&& ends_ok(self.groups@, self.pointers@.rows)
        &&& forall|i: int, j: int|
            0 <= i < j < self.users@.len() ==> #[trigger] self.users@[i].id
                != #[trigger] self.users@[j].id
        &&& forall|i: int, j: int|
            0 <= i < j < self.teams@.len() ==> #[trigger] self.teams@[i].id
                != #[trigger] self.teams@[j].id
        &&& forall|i: int, j: int|
            0 <= i < j < self.projects@.len() ==> #[trigger] self.projects@[i].id
                != #[trigger] self.projects@[j].id
        &&& forall|t: int, i: int, j: int|
            0 <= t < self.teams@.len() && 0 <= i < j < self.teams@[t].members@.len()
                ==> #[trigger] self.teams@[t].members@[i].0 != #[trigger] self.teams@[t].members@[j].0
    }

    /// Adds the edge `parent -> child` to `project_id` through the validator;
    /// both ends must be nodes of that project.
    pub fn create_edge(&mut self, project_id: i64, parent: i64, child: i64, kind: EdgeKind) -> (r:
        PointerResult)
        requires
            node_in(old(self).groups@, parent, project_id),
            node_in(old(self).groups@, child, project_id),
            parent != child && !has_edge(old(self).pointers@.rows, project_id, parent, child)
                ==> old(self).pointers@.next_id < i64::MAX,
        ensures
            (r, final(self).pointers@) == old(self).pointers@.create(project_id, parent, child, kind),
            final(self).users == old(self).users,
            final(self).teams == old(self).teams,
            final(self).projects == old(self).projects,
            final(self).groups == old(self).groups,
            final(self).memberships == old(self).memberships,
            old(self).wf() ==> final(self).wf(),
    {
        let r = Pointer::create_pointer(&mut self.pointers, project_id, parent, child, kind);
        proof {
            if old(self).wf() {
                let rows = self.pointers@.rows;
                let before = old(self).pointers@.rows;
                assert forall|i: int| 0 <= i < rows.len() implies node_in(
                    self.groups@,
                    #[trigger] rows[i].parent,
                    rows[i].project_id,
                ) && node_in(self.groups@, rows[i].child, rows[i].project_id) by {
                    if i < before.len() {
                        assert(rows[i] == before[i]);
                    }
                }
            }
        }
        r
    }

    /// Removes the edge `parent -> child` of `project_id` through the
    /// validator; `DoesntExist`, with nothing changed, where there is none.
    pub fn delete_edge(&mut self, project_id: i64, parent: i64, child: i64) -> (r: PointerResult)
        ensures
            (r, final(self).pointers@) == old(self).pointers@.delete(project_id, parent, child),
            final(self).users == old(self).users,
            final(self).teams == old(self).teams,
            final(self).projects == old(self).projects,
            final(self).groups == old(self).groups,
            final(self).memberships == old(self).memberships,
            old(self).wf() ==> final(self).wf(),
    {
        let r = Pointer::delete_pointer(&mut self.pointers, project_id, parent, child);
        proof {
            if old(self).wf() {
                lemma_ends_fewer_edges(
                    self.groups@,
                    old(self).pointers@.rows,
                    |e: Pointer| !links(e, project_id, parent, child),
                );
            }
        }
        r
    }

    /// The identifier of the first user called `username`.
    pub fn fetch_user_id(&self, username: &String) -> (r: Option<u128>)
        ensures
            r is None <==> forall|k: int|
                0 <= k < self.users@.len() ==> self.users@[k].username@ != username@,
            r is Some ==> exists|k: int|
                first_user(self.users@, username@, k) && self.users@[k].id == r->0,
    {
        let mut i: usize = 0;
        while i < self.users.len()
            invariant
                0 <= i <= self.users.len(),
                forall|j: int| 0 <= j < i ==> self.users@[j].username@ != username@,
            decreases self.users.len() - i,
        {
            if *username == self.users[i].username {
                assert(first_user(self.users@, username@, i as int));
                return Some(self.users[i].id);
            }
            i = i + 1;
        }
        None
    }
}

fn copy_team(t: &Team) -> (r: Team)
    ensures
        r@ == t@,
{
    let mut members: Vec<(u128, Permissions)> = Vec::new();
    let mut i: usize = 0;
    while i < t.members.len()
        invariant
            0 <= i <= t.members.len(),
            members@ == t.members@.subrange(0, i as int),
        decreases t.members.len() - i,
    {
        members.push(t.members[i]);
        i = i + 1;
    }
    assert(t.members@.subrange(0, t.members@.len() as int) == t.members@);
    Team { id: t.id, name: t.name.clone(), members }
}

fn has_member(t: &Team, user_id: u128) -> (r: bool)
    ensures
        r == is_member(t@, user_id),
{
    let mut i: usize = 0;
    while i < t.members.len()
        invariant
            0 <= i <= t.members.len(),
            forall|j: int| 0 <= j < i ==> t.members@[j].0 != user_id,
        decreases t.members.len() - i,
    {
        if t.members[i].0 == user_id {
            assert(t@.members[i as int].0 == user_id);
            return true;
        }
        i = i + 1;
    }
    false
}

impl User {
    /// Copies of the teams that `user_id` belongs to, in storage order.
    pub fn fetch_teams(db: &Database, user_id: u128) -> (r: Vec<Team>)
        ensures
            team_views(r@) == teams_of(team_views(db.teams@), user_id),
    {
        let ghost all = team_views(db.teams@);
        let mut out: Vec<Team> = Vec::new();
        let mut i: usize = 0;
        while i < db.teams.len()
            invariant
                0 <= i <= db.teams.len(),
                all == team_views(db.teams@),
                team_views(out@) == teams_of(all.subrange(0, i as int), user_id),
            decreases db.teams.len() - i,
        {
            let t = &db.teams[i];
            assert(all.subrange(0, i + 1).drop_last() == all.subrange(0, i as int));
            assert(all.subrange(0, i + 1).last() == t@);
            proof {
                reveal_with_fuel(Seq::filter, 1);
            }
            if has_member(t, user_id) {
                let c = copy_team(t);
                let ghost before = out@;
                out.push(c);
                assert(team_views(out@) =~= team_views(before).push(c@));
            }
            i = i + 1;
        }
        assert(all.subrange(0, all.len() as int) == all);
        out
    }
}

/// The task nodes of one project, in storage order.
pub open spec fn groups_of(groups: Seq<Group>, project_id: i64) -> Seq<Group> {
    groups.filter(|g: Group| g.project_id == project_id)
}

fn project_nodes(db: &Database, project_id: i64) -> (r: Vec<Group>)
    ensures
        r@ == groups_of(db.groups@, project_id),
{
    let mut out: Vec<Group> = Vec::new();
    let mut i: usize = 0;
    while i < db.groups.len()
        invariant
            0 <= i <= db.groups.len(),
            out@ == groups_of(db.groups@.subrange(0, i as int), project_id),
        decreases db.groups.len() - i,
    {
        assert(db.groups@.subrange(0, i + 1).drop_last() == db.groups@.subrange(0, i as int));
        proof {
            reveal_with_fuel(Seq::filter, 1);
        }
        if db.groups[i].project_id == project_id {
            out.push(db.groups[i].copy());
        }
        i = i + 1;
    }
    assert(db.groups@.subrange(0, db.groups@.len() as int) == db.groups@);
    out
}

impl Project {
    /// The task tree of a project, from the last of its nodes that no edge
    /// of the project enters; `Empty` where there is none.
    pub fn fetch_tasks(db: &Database, project_id: i64) -> (r: TreeResult)
        ensures
            ({
                let nodes = node_views(groups_of(db.groups@, project_id));
                let edges = in_project(db.pointers@.rows, project_id);
                match last_root(nodes, edges) {
                    None => r is Empty,
                    Some(root) => materialized(nodes, edges, root, r),
                }
            }),
    {
        let nodes = project_nodes(db, project_id);
        let edges = Pointer::fetch_all(&db.pointers, project_id);
        match find_root(&nodes, &edges) {
            None => TreeResult::Empty,
            Some(root) => materialize(&nodes, &edges, root),
        }
    }

    /// The task tree of a project below the chosen node `root`.
    pub fn fetch_tree(db: &Database, project_id: i64, root: i64) -> (r: TreeResult)
        ensures
            materialized(
                node_views(groups_of(db.groups@, project_id)),
                in_project(db.pointers@.rows, project_id),
                root,
                r,
            ),
    {
        let nodes = project_nodes(db, project_id);
        let edges = Pointer::fetch_all(&db.pointers, project_id);
        materialize(&nodes, &edges, root)
    }
}

/// Does some membership put `user_id` in the project `project_id`?
pub open spec fn joined(memberships: Seq<ProjectMembers>, user_id: int, project_id: i64) -> bool {
    exists|k: int|
        0 <= k < memberships.len() && #[trigger] memberships[k].project_id == project_id
            && memberships[k].user_id == user_id
}

/// The projects that `user_id` is a member of, in storage order.
pub open spec fn projects_of(db: &Database, user_id: i64) -> Seq<Project> {
    db.projects@.filter(|p: Project| joined(db.memberships@, user_id as int, p.id))
}

/// The users who are members of `project_id`, in storage order.
pub open spec fn members_of(db: &Database, project_id: i64) -> Seq<User> {
    db.users@.filter(|u: User| joined(db.memberships@, u.id as int, project_id))
}

fn is_joined(memberships: &Vec<ProjectMembers>, user_id: i64, project_id: i64) -> (r: bool)
    ensures
        r == joined(memberships@, user_id as int, project_id),
{
    let mut i: usize = 0;
    while i < memberships.len()
        invariant
            0 <= i <= memberships.len(),
            forall|k: int|
                0 <= k < i ==> !(#[trigger] memberships@[k].project_id == project_id
                    && memberships@[k].user_id == user_id),
        decreases memberships.len() - i,
    {
        if memberships[i].project_id == project_id && memberships[i].user_id == user_id {
            return true;
        }
        i = i + 1;
    }
    false
}

fn user_joined(memberships: &Vec<ProjectMembers>, user_id: u128, project_id: i64) -> (r: bool)
    ensures
        r == joined(memberships@, user_id as int, project_id),
{
    let mut i: usize = 0;
    while i < memberships.len()
        invariant
            0 <= i <= memberships.len(),
            forall|k: int|
                0 <= k < i ==> !(#[trigger] memberships@[k].project_id == project_id
                    && memberships@[k].user_id == user_id as int),
        decreases memberships.len() - i,
    {
        let m = &memberships[i];
        if m.project_id == project_id && m.user_id >= 0 && m.user_id as u128 == user_id {
            return true;
        }
        i = i + 1;
    }
    false
}

impl Project {
    pub(crate) fn copy(&self) -> (r: Project)
        ensures
            r == *self,
    {
        Project { id: self.id, title: self.title.clone() }
    }

    /// Copies of every project, in storage order.
    pub fn fetch_all(db: &Database) -> (r: Vec<Project>)
        ensures
            r@ == db.projects@,
    {
        let mut out: Vec<Project> = Vec::new();
        let mut i: usize = 0;
        while i < db.projects.len()
            invariant
                0 <= i <= db.projects.len(),
                out@ == db.projects@.subrange(0, i as int),
            decreases db.projects.len() - i,
        {
            out.push(db.projects[i].copy());
            i = i + 1;
        }
        assert(db.projects@.subrange(0, db.projects@.len() as int) == db.projects@);
        out
    }

    /// Removes the project `project_id` with every node, edge and membership
    /// of it; `false`, with nothing changed, where there is no such project.
    pub fn delete(db: &mut Database, project_id: i64) -> (r: bool)
        ensures
            r == has_project(old(db).projects@, project_id),
            !r ==> *final(db) == *old(db),
            r ==> {
                &&& final(db).projects@ == old(db).projects@.filter(|p: Project| p.id != project_id)
                &&& final(db).groups@ == old(db).groups@.filter(|g: Group| g.project_id != project_id)
                &&& final(db).pointers@.rows == old(db).pointers@.rows.filter(
                    |e: Pointer| e.project_id != project_id,
                )
                &&& final(db).pointers@.next_id == old(db).pointers@.next_id
                &&& final(db).memberships@ == old(db).memberships@.filter(
                    |m: ProjectMembers| m.project_id != project_id,
                )
                &&& final(db).users == old(db).users
                &&& final(db).teams == old(db).teams
            },
            old(db).wf() ==> final(db).wf(),
    {
        let mut found = false;
        let mut projects: Vec<Project> = Vec::new();
        let mut i: usize = 0;
        while i < db.projects.len()
            invariant
                0 <= i <= db.projects.len(),
                found == exists|k: int| 0 <= k < i && #[trigger] db.projects@[k].id == project_id,
                projects@ == db.projects@.subrange(0, i as int).filter(|p: Project| p.id != project_id),
            decreases db.projects.len() - i,
        {
            assert(db.projects@.subrange(0, i + 1).drop_last() == db.projects@.subrange(0, i as int));
            proof {
                reveal_with_fuel(Seq::filter, 1);
            }
            if db.projects[i].id == project_id {
                found = true;
            } else {
                projects.push(db.projects[i].copy());
            }
            i = i + 1;
        }
        assert(db.projects@.subrange(0, db.projects@.len() as int) == db.projects@);
        if !found {
            return false;
        }
        let mut groups: Vec<Group> = Vec::new();
        i = 0;
        while i < db.groups.len()
            invariant
                0 <= i <= db.groups.len(),
                groups@ == db.groups@.subrange(0, i as int).filter(|g: Group| g.project_id != project_id),
            decreases db.groups.len() - i,
        {
            assert(db.groups@.subrange(0, i + 1).drop_last() == db.groups@.subrange(0, i as int));
            proof {
                reveal_with_fuel(Seq::filter, 1);
            }
            if db.groups[i].project_id != project_id {
                groups.push(db.groups[i].copy());
            }
            i = i + 1;
        }
        assert(db.groups@.subrange(0, db.groups@.len() as int) == db.groups@);
        let mut rows: Vec<Pointer> = Vec::new();
        i = 0;
        while i < db.pointers.rows.len()
            invariant
                0 <= i <= db.pointers.rows.len(),
                rows@ == db.pointers.rows@.subrange(0, i as int).filter(|e: Pointer| e.project_id != project_id),
            decreases db.pointers.rows.len() - i,
        {
            assert(db.pointers.rows@.subrange(0, i + 1).drop_last() == db.pointers.rows@.subrange(0, i as int));
            proof {
                reveal_with_fuel(Seq::filter, 1);
            }
            if db.pointers.rows[i].project_id != project_id {
                rows.push(db.pointers.rows[i]);
            }
            i = i + 1;
        }
        assert(db.pointers.rows@.subrange(0, db.pointers.rows@.len() as int) == db.pointers.rows@);
        let mut memberships: Vec<ProjectMembers> = Vec::new();
        i = 0;
        while i < db.memberships.len()
            invariant
                0 <= i <= db.memberships.len(),
                memberships@ == db.memberships@.subrange(0, i as int).filter(
                    |m: ProjectMembers| m.project_id != project_id,
                ),
            decreases db.memberships.len() - i,
        {
            assert(db.memberships@.subrange(0, i + 1).drop_last() == db.memberships@.subrange(0, i as int));
            proof {
                reveal_with_fuel(Seq::filter, 1);
            }
            let m = &db.memberships[i];
            if m.project_id != project_id {
                memberships.push(ProjectMembers { id: m.id, project_id: m.project_id, user_id: m.user_id });
            }
            i = i + 1;
        }
        assert(db.memberships@.subrange(0, db.memberships@.len() as int) == db.memberships@);
        proof {
            if old(db).wf() {
                lemma_filter_keeps_unique(db.groups@, |g: Group| g.project_id != project_id);
                lemma_filter_keeps_wf(db.pointers@, |e: Pointer| e.project_id != project_id);
                lemma_ends_filtered(
                    db.groups@,
                    db.pointers@.rows,
                    |g: Group| g.project_id != project_id,
                    |e: Pointer| e.project_id != project_id,
                );
                lemma_filter_keeps_unique_projects(db.projects@, |p: Project| p.id != project_id);
            }
        }
        db.projects = projects;
        db.groups = groups;
        db.pointers.rows = rows;
        db.memberships = memberships;
        true
    }
}

impl ProjectMembers {
    /// Copies of the projects that `user_id` is a member of, in storage order.
    pub fn fetch_projects(db: &Database, user_id: i64) -> (r: Vec<Project>)
        ensures
            r@ == projects_of(db, user_id),
    {
        let mut out: Vec<Project> = Vec::new();
        let mut i: usize = 0;
        while i < db.projects.len()
            invariant
                0 <= i <= db.projects.len(),
                out@ == db.projects@.subrange(0, i as int).filter(
                    |p: Project| joined(db.memberships@, user_id as int, p.id),
                ),
            decreases db.projects.len() - i,
        {
            assert(db.projects@.subrange(0, i + 1).drop_last() == db.projects@.subrange(0, i as int));
            proof {
                reveal_with_fuel(Seq::filter, 1);
            }
            if is_joined(&db.memberships, user_id, db.projects[i].id) {
                out.push(db.projects[i].copy());
            }
            i = i + 1;
        }
        assert(db.projects@.subrange(0, db.projects@.len() as int) == db.projects@);
        out
    }

    /// Identifiers and names of the members of `project_id`, in storage order.
    pub fn fetch_members(db: &Database, project_id: i64) -> (r: Vec<User>)
        ensures
            r@ == members_of(db, project_id),
    {
        let mut out: Vec<User> = Vec::new();
        let mut i: usize = 0;
        while i < db.users.len()
            invariant
                0 <= i <= db.users.len(),
                out@ == db.users@.subrange(0, i as int).filter(
                    |u: User| joined(db.memberships@, u.id as int, project_id),
                ),
            decreases db.users.len() - i,
        {
            assert(db.users@.subrange(0, i + 1).drop_last() == db.users@.subrange(0, i as int));
            proof {
                reveal_with_fuel(Seq::filter, 1);
            }
            let u = &db.users[i];
            if user_joined(&db.memberships, u.id, project_id) {
                out.push(User { id: u.id, username: u.username.clone() });
            }
            i = i + 1;
        }
        assert(db.users@.subrange(0, db.users@.len() as int) == db.users@);
        out
    }
}

proof fn lemma_filter_keeps_unique_projects(projects: Seq<Project>, pred: spec_fn(Project) -> bool)
    requires
        forall|i: int, j: int| 0 <= i < j < projects.len() ==> #[trigger] projects[i].id != #[trigger] projects[j].id,
    ensures
        forall|i: int, j: int|
            0 <= i < j < projects.filter(pred).len() ==> #[trigger] projects.filter(pred)[i].id
                != #[trigger] projects.filter(pred)[j].id,
    decreases projects.len(),
{
    reveal_with_fuel(Seq::filter, 1);
    if projects.len() > 0 {
        let shorter = projects.drop_last();
        lemma_filter_keeps_unique_projects(shorter, pred);
        let f = shorter.filter(pred);
        if pred(projects.last()) {
            assert forall|i: int| 0 <= i < f.len() implies f[i].id != projects.last().id by {
                assert(f.contains(f[i]));
                shorter.lemma_filter_contains_rev(pred, f[i]);
                let k = choose|k: int| 0 <= k < shorter.len() && shorter[k] == f[i];
                assert(projects[k] == shorter[k]);
                assert(projects[projects.len() - 1] == projects.last());
            }
        }
    }
}

} // verus!
