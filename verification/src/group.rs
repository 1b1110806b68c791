//! Groups of tasks, the precedence edges between them, and the manager that
//! owns every group.
use crate::error::TaskError;
use crate::lists::lemma_filter_all;
use crate::lists::lemma_filter_keeps_distinct;
use crate::lists::lemma_filter_none;
use crate::lists::lemma_push_contains;
use crate::task::Task;
use crate::task::TaskHandle;
use std::sync::Arc;
use std::sync::Mutex;
use vstd::prelude::*;

verus! {

/// Names a group by its id. A handle stays valid as a value when its group is
/// released; it then no longer resolves.
#[derive(Clone, Copy, Debug, PartialEq, Eq, Structural)]
pub struct GroupHandle {
    pub id: usize,
}

impl GroupHandle {
    /// Return unique id of group.
    pub fn id(&self) -> (id: usize)
        ensures
            id == self.id,
    {
        self.id
    }

    /// Check this group is released or not: whether the manager holds no live
    /// group with this id.
    pub fn is_released(&self, manager: &GroupManager) -> (released: bool)
        ensures
            released == !is_live(manager.graph(), self.id),
    {
        proof {
            use_type_invariant(manager);
        }
        match index_in(&manager.groups, self.id) {
            Some(at) => {
                assert(manager.graph()[at as int] == manager.groups[at as int]@);
                manager.groups[at].released
            },
            None => true,
        }
    }

    /// Access the group behind the handle: `None` when it is released.
    pub fn value_as_ref<'a>(&self, manager: &'a GroupManager) -> (accessor: Option<
        GroupAccessor<'a>,
    >)
        ensures
            accessor is None <==> !is_live(manager.graph(), self.id),
            accessor matches Some(a) ==> manager.graph().contains(a.group()@) && a.group()@.id
                == self.id && !a.group()@.released,
    {
        proof {
            use_type_invariant(manager);
        }
        match index_in(&manager.groups, self.id) {
            Some(at) => {
                if manager.groups[at].released {
                    None
                } else {
                    assert(manager.graph()[at as int] == manager.groups[at as int]@);
                    Some(GroupAccessor { guard: &manager.groups[at] })
                }
            },
            None => None,
        }
    }
}

/// The precedence edges of one group.
pub struct GroupChains {
    /// The groups that run before this one.
    pub precede_groups: Vec<GroupHandle>,
    /// The groups that run after this one.
    pub success_groups: Vec<GroupHandle>,
}

/// The data of a group.
pub struct GroupRaw {
    name: String,
    id: usize,
    released: bool,
    empty_task: Task,
    tasks: Vec<TaskHandle>,
    chains: GroupChains,
}

/// What a group is to the contracts of this crate.
pub ghost struct GroupView {
    /// The group's name.
    pub name: Seq<char>,
    /// The group's id.
    pub id: usize,
    /// Whether the owner of the group has given it up.
    pub released: bool,
    /// The handle of the placeholder task that stands in when the group has
    /// no live task.
    pub sentinel: TaskHandle,
    /// The handles of the group's tasks, in the order of their creation.
    pub tasks: Seq<TaskHandle>,
    /// The groups that run before this one.
    pub predecessors: Seq<GroupHandle>,
    /// The groups that run after this one.
    pub successors: Seq<GroupHandle>,
}

impl View for GroupRaw {
    type V = GroupView;

    closed spec fn view(&self) -> GroupView {
        GroupView {
            name: self.name@,
            id: self.id,
            released: self.released,
            sentinel: self.empty_task.live_handle(),
            tasks: self.tasks@,
            predecessors: self.chains.precede_groups@,
            successors: self.chains.success_groups@,
        }
    }
}

/// The views of a list of groups, in the list's order.
pub open spec fn views(groups: Seq<GroupRaw>) -> Seq<GroupView> {
    groups.map_values(|g: GroupRaw| g@)
}

/// Whether `group` has an edge, in either direction, to the group `id`.
pub open spec fn mentions(group: GroupView, id: usize) -> bool {
    group.predecessors.contains(GroupHandle { id }) || group.successors.contains(
        GroupHandle { id },
    )
}

/// Whether the graph holds a group `id` that has not been released.
pub open spec fn is_live(graph: Seq<GroupView>, id: usize) -> bool {
    exists|i: int| 0 <= i < graph.len() && (#[trigger] graph[i]).id == id && !graph[i].released
}

/// Whether the group `from` of the graph has an edge to or from `to`.
pub open spec fn is_chained(graph: Seq<GroupView>, from: usize, to: usize) -> bool {
    exists|i: int| 0 <= i < graph.len() && (#[trigger] graph[i]).id == from && mentions(graph[i], to)
}

/// The edge lists of one group are in order: no edge to itself and no group
/// named twice, in one list or across the two.
pub open spec fn chains_wf(group: GroupView) -> bool {
    &&& !mentions(group, group.id)
    &&& group.predecessors.no_duplicates()
    &&& group.successors.no_duplicates()
    &&& forall|k: int|
        0 <= k < group.successors.len() ==> !group.predecessors.contains(
            #[trigger] group.successors[k],
        )
}

/// A graph is in order: ids are unique, every group's edge lists are in
/// order, and every edge stands in the lists of both its ends.
pub open spec fn graph_wf(graph: Seq<GroupView>) -> bool {
    &&& forall|i: int, j: int|
        0 <= i < j < graph.len() ==> (#[trigger] graph[i]).id != (#[trigger] graph[j]).id
    &&& forall|i: int| 0 <= i < graph.len() ==> chains_wf(#[trigger] graph[i])
    &&& forall|i: int, j: int|
        0 <= i < graph.len() && 0 <= j < graph.len() ==> ((#[trigger] graph[i]).successors.contains(
            GroupHandle { id: (#[trigger] graph[j]).id },
        ) <==> graph[j].predecessors.contains(GroupHandle { id: graph[i].id }))
}

/// Whether the id of `group` and the ids in its edges are all below `bound`.
pub open spec fn ids_below(group: GroupView, bound: usize) -> bool {
    &&& group.id < bound
    &&& forall|k: int|
        0 <= k < group.predecessors.len() ==> (#[trigger] group.predecessors[k]).id < bound
    &&& forall|k: int|
        0 <= k < group.successors.len() ==> (#[trigger] group.successors[k]).id < bound
}

/// A group without edges whose id no edge names may join a graph in order.
proof fn lemma_fresh_group_keeps_order(graph: Seq<GroupView>, fresh: GroupView, bound: usize)
    requires
        graph_wf(graph),
        forall|i: int| 0 <= i < graph.len() ==> ids_below(#[trigger] graph[i], bound),
        fresh.id == bound,
        fresh.predecessors.len() == 0,
        fresh.successors.len() == 0,
    ensures
        graph_wf(graph.push(fresh)),
{
    let after = graph.push(fresh);
    let n = graph.len() as int;
    assert forall|i: int| 0 <= i < n implies !mentions(#[trigger] graph[i], bound) by {
        assert(ids_below(graph[i], bound));
    }
    assert forall|i: int, j: int| 0 <= i < j < after.len() implies (#[trigger] after[i]).id != (
    #[trigger] after[j]).id by {
        assert(ids_below(graph[i], bound));
    }
    assert forall|i: int| 0 <= i < after.len() implies chains_wf(#[trigger] after[i]) by {
        if i < n {
            assert(after[i] == graph[i]);
        }
    }
    assert forall|i: int, j: int| 0 <= i < after.len() && 0 <= j < after.len() implies ((
    #[trigger] after[i]).successors.contains(GroupHandle { id: (#[trigger] after[j]).id })
        <==> after[j].predecessors.contains(GroupHandle { id: after[i].id })) by {
        if i < n {
            assert(!mentions(graph[i], bound));
        }
        if j < n {
            assert(!mentions(graph[j], bound));
        }
    }
}

impl GroupRaw {
    /// Whether the list of successor groups is empty.
    pub fn has_successors(&self) -> (empty: bool)
        ensures
            empty == (self@.successors.len() == 0),
    {
        self.chains.success_groups.len() == 0
    }

    /// Whether the list of predecessor groups is empty.
    pub fn has_predecessors(&self) -> (empty: bool)
        ensures
            empty == (self@.predecessors.len() == 0),
    {
        self.chains.precede_groups.len() == 0
    }

    /// The group's id.
    pub fn id(&self) -> (id: usize)
        ensures
            id == self@.id,
    {
        self.id
    }

    /// The group's name.
    pub fn name(&self) -> (name: &String)
        ensures
            name@ == self@.name,
    {
        &self.name
    }

    /// Whether the owner of the group has given it up.
    pub fn is_released(&self) -> (released: bool)
        ensures
            released == self@.released,
    {
        self.released
    }

    /// The handles of the group's tasks, in the order of their creation.
    pub fn tasks(&self) -> (tasks: &Vec<TaskHandle>)
        ensures
            tasks@ == self@.tasks,
    {
        &self.tasks
    }

    /// The groups that run before this one.
    pub fn predecessors(&self) -> (handles: &Vec<GroupHandle>)
        ensures
            handles@ == self@.predecessors,
    {
        &self.chains.precede_groups
    }

    /// The groups that run after this one.
    pub fn successors(&self) -> (handles: &Vec<GroupHandle>)
        ensures
            handles@ == self@.successors,
    {
        &self.chains.success_groups
    }

    /// Get the handle of empty task.
    pub(crate) fn handle_of_empty_task(&self) -> (handle: TaskHandle)
        ensures
            handle == self@.sentinel,
    {
        self.empty_task.handle()
    }

    /// Create new group without tasks and without edges.
    fn new(name: &str, id: usize) -> (group: Self)
        ensures
            is_fresh_group(group@, name@, id),
    {
        let empty_task = Task::empty_task();
        proof {
            empty_task.live_handle_holds();
        }
        GroupRaw {
            name: name.to_string(),
            id,
            released: false,
            empty_task,
            tasks: Vec::new(),
            chains: GroupChains { precede_groups: Vec::new(), success_groups: Vec::new() },
        }
    }

    /// Remove invalidated task from list and rearrange them.
    pub(crate) fn rearrange_tasks(&mut self)
        ensures
            final(self)@ == (GroupView { tasks: live_tasks(old(self)@.tasks), ..old(self)@ }),
    {
        let mut kept: Vec<TaskHandle> = Vec::new();
        let mut k: usize = 0;
        assert(self.tasks@.take(0) =~= Seq::<TaskHandle>::empty());
        reveal(Seq::filter);
        while k < self.tasks.len()
            invariant
                k <= self.tasks.len(),
                kept@ == live_tasks(self.tasks@.take(k as int)),
            decreases self.tasks.len() - k,
        {
            proof {
                let head = self.tasks@.take(k as int);
                assert(self.tasks@.take(k + 1) =~= head.push(self.tasks@[k as int]));
                head.lemma_filter_push(self.tasks@[k as int], |h: TaskHandle| !h.released());
            }
            if !self.tasks[k].is_marked() {
                kept.push(self.tasks[k].duplicate());
            }
            k += 1;
        }
        assert(self.tasks@.take(k as int) =~= self.tasks@);
        self.tasks = kept;
    }

    /// Drops from both edge lists the handles of the groups `gone`.
    fn purge_chains(&mut self, gone: &Vec<usize>)
        ensures
            final(self)@ == purged_group(old(self)@, gone@),
    {
        let predecessors = purge(&self.chains.precede_groups, gone);
        let successors = purge(&self.chains.success_groups, gone);
        self.chains.precede_groups = predecessors;
        self.chains.success_groups = successors;
    }

    /// Check any group which has given id is exist in this group's chain list.
    fn is_contains_id(&self, id: usize) -> (found: bool)
        ensures
            found == mentions(self@, id),
    {
        contains_handle(&self.chains.precede_groups, id) || contains_handle(
            &self.chains.success_groups,
            id,
        )
    }
}

/// Whether a list of handles names the group `id`.
pub(crate) fn contains_handle(list: &Vec<GroupHandle>, id: usize) -> (found: bool)
    ensures
        found == list@.contains(GroupHandle { id }),
{
    let mut k: usize = 0;
    while k < list.len()
        invariant
            k <= list.len(),
            forall|j: int| 0 <= j < k ==> list@[j] != (GroupHandle { id }),
        decreases list.len() - k,
    {
        if list[k].id == id {
            assert(list@[k as int] == GroupHandle { id });
            return true;
        }
        k += 1;
    }
    false
}

/// Whether a list of ids holds `id`.
fn contains_id(list: &Vec<usize>, id: usize) -> (found: bool)
    ensures
        found == list@.contains(id),
{
    let mut k: usize = 0;
    while k < list.len()
        invariant
            k <= list.len(),
            forall|j: int| 0 <= j < k ==> list@[j] != id,
        decreases list.len() - k,
    {
        if list[k] == id {
            return true;
        }
        k += 1;
    }
    false
}

/// An edge list without the handles of the groups `gone`.
fn purge(chain: &Vec<GroupHandle>, gone: &Vec<usize>) -> (kept: Vec<GroupHandle>)
    ensures
        kept@ == purged_chain(chain@, gone@),
{
    let mut kept: Vec<GroupHandle> = Vec::new();
    let mut k: usize = 0;
    assert(chain@.take(0) =~= Seq::<GroupHandle>::empty());
    reveal(Seq::filter);
    while k < chain.len()
        invariant
            k <= chain.len(),
            kept@ == purged_chain(chain@.take(k as int), gone@),
        decreases chain.len() - k,
    {
        proof {
            let head = chain@.take(k as int);
            assert(chain@.take(k + 1) =~= head.push(chain@[k as int]));
            head.lemma_filter_push(chain@[k as int], |h: GroupHandle| !gone@.contains(h.id));
        }
        if !contains_id(gone, chain[k].id) {
            kept.push(chain[k]);
        }
        k += 1;
    }
    assert(chain@.take(k as int) =~= chain@);
    kept
}

/// Read access to the data of a live group.
pub struct GroupAccessor<'a> {
    guard: &'a GroupRaw,
}

impl<'a> std::ops::Deref for GroupAccessor<'a> {
    type Target = GroupRaw;

    fn deref(&self) -> (group: &GroupRaw)
        ensures
            group == self.group(),
    {
        self.guard
    }
}

impl<'a> GroupAccessor<'a> {
    /// The group that is accessed.
    pub closed spec fn group(&self) -> &GroupRaw {
        self.guard
    }

    /// The group that is accessed.
    pub fn get(&self) -> (group: &GroupRaw)
        ensures
            group == self.group(),
    {
        self.guard
    }
}

/// Alias
pub type GroupList = Vec<GroupRaw>;

/// Owns every group, live or released, and hands out the ids.
pub struct GroupManager {
    groups: GroupList,
    group_counter: usize,
    task_counter: usize,
    live_tasks: Vec<usize>,
}

impl GroupManager {
    /// The groups that the manager holds, in the order of their creation.
    pub closed spec fn graph(&self) -> Seq<GroupView> {
        views(self.groups@)
    }

    /// The id that the next group gets.
    pub closed spec fn next_group_id(&self) -> usize {
        self.group_counter
    }

    /// The id that the next task gets.
    pub closed spec fn next_task_id(&self) -> usize {
        self.task_counter
    }

    /// The numbers of the tasks that have been created and have not been
    /// released, in the order of their creation.
    pub closed spec fn live_task_ids(&self) -> Seq<usize> {
        self.live_tasks@
    }

    /// The manager is in order: its graph is; every id in use, by a group or
    /// in an edge, is below the id that the next group gets; and the handles
    /// that its groups hold bear the mark of a released task just when the
    /// manager does not hold their task. Every manager is in order.
    pub open spec fn wf(&self) -> bool {
        &&& list_wf(self.graph(), self.next_group_id())
        &&& tasks_wf(self.graph(), self.live_task_ids(), self.next_task_id())
    }

    #[verifier::type_invariant]
    spec fn inv(&self) -> bool {
        self.wf()
    }

    /// A manager without groups.
    pub fn new() -> (manager: Self)
        ensures
            manager.wf(),
            manager.graph().len() == 0,
            manager.next_group_id() == 0,
            manager.next_task_id() == 1,
            manager.live_task_ids().len() == 0,
    {
        GroupManager {
            groups: Vec::new(),
            group_counter: 0,
            task_counter: 1,
            live_tasks: Vec::new(),
        }
    }

    /// Whether the task `id` has not been released: the manager holds it
    /// among its tasks, or it is the placeholder task of a group.
    pub fn holds_task(&self, id: usize) -> (held: bool)
        ensures
            held == task_is_live(self.live_task_ids(), id),
    {
        id == 0 || contains_id(&self.live_tasks, id)
    }

    /// Whether the manager can give an id to one more group.
    pub fn can_create_group(&self) -> (room: bool)
        ensures
            room == (self.next_group_id() < usize::MAX),
    {
        self.group_counter < usize::MAX
    }

    /// Whether the manager can give an id to one more task.
    pub fn can_create_task(&self) -> (room: bool)
        ensures
            room == (self.next_task_id() < usize::MAX),
    {
        self.task_counter < usize::MAX
    }

    /// The list of groups, for the plan builder. It is in order, as the
    /// manager is.
    pub fn groups(&self) -> (groups: &GroupList)
        ensures
            views(groups@) == self.graph(),
            self.wf(),
    {
        proof {
            use_type_invariant(self);
        }
        &self.groups
    }
}

/// Whether the task `id` is not released, where `alive` are the numbers of
/// the tasks that a manager holds. The placeholder task of a group, whose
/// number is 0, is never released.
pub open spec fn task_is_live(alive: Seq<usize>, id: usize) -> bool {
    id == 0 || alive.contains(id)
}

/// The handles of a graph and the tasks `alive` that its manager holds go
/// together: every task number is above 0 and below `bound`, and a handle
/// bears the mark of a released task just when its task is not held.
pub open spec fn tasks_wf(graph: Seq<GroupView>, alive: Seq<usize>, bound: usize) -> bool {
    &&& 0 < bound
    &&& forall|k: int| 0 <= k < alive.len() ==> 0 < (#[trigger] alive[k]) < bound
    &&& forall|i: int, m: int|
        0 <= i < graph.len() && 0 <= m < graph[i].tasks.len() ==> 0 < (
        #[trigger] graph[i].tasks[m]).ident() < bound && (graph[i].tasks[m].released()
            <==> !alive.contains(graph[i].tasks[m].ident()))
}

/// Whether a group of the graph holds the handle.
pub open spec fn is_handle_of(graph: Seq<GroupView>, handle: TaskHandle) -> bool {
    exists|i: int, m: int|
        0 <= i < graph.len() && 0 <= m < graph[i].tasks.len() && #[trigger] graph[i].tasks[m]
            == handle
}

/// A graph whose handles are all handles of a graph that goes together with
/// the tasks of its manager goes together with them too.
proof fn lemma_tasks_kept(
    before: Seq<GroupView>,
    after: Seq<GroupView>,
    alive: Seq<usize>,
    bound: usize,
)
    requires
        tasks_wf(before, alive, bound),
        forall|i: int, m: int|
            0 <= i < after.len() && 0 <= m < after[i].tasks.len() ==> is_handle_of(
                before,
                #[trigger] after[i].tasks[m],
            ),
    ensures
        tasks_wf(after, alive, bound),
{
    assert forall|i: int, m: int|
        0 <= i < after.len() && 0 <= m < after[i].tasks.len() implies 0 < (
    #[trigger] after[i].tasks[m]).ident() < bound && (after[i].tasks[m].released()
        <==> !alive.contains(after[i].tasks[m].ident())) by {
        let h = after[i].tasks[m];
        assert(is_handle_of(before, h));
        let (x, y) = choose|x: int, y: int|
            0 <= x < before.len() && 0 <= y < before[x].tasks.len() && #[trigger] before[x].tasks[y]
                == h;
        assert(before[x].tasks[y] == h);
    }
}

/// A graph with the task lists of another, group by group, goes together
/// with the tasks of the manager as the other does.
proof fn lemma_same_tasks_kept(
    before: Seq<GroupView>,
    after: Seq<GroupView>,
    alive: Seq<usize>,
    bound: usize,
)
    requires
        tasks_wf(before, alive, bound),
        after.len() == before.len(),
        forall|i: int| 0 <= i < after.len() ==> (#[trigger] after[i]).tasks == before[i].tasks,
    ensures
        tasks_wf(after, alive, bound),
{
    assert forall|i: int, m: int|
        0 <= i < after.len() && 0 <= m < after[i].tasks.len() implies is_handle_of(
        before,
        #[trigger] after[i].tasks[m],
    ) by {
        assert(after[i].tasks == before[i].tasks);
        assert(before[i].tasks[m] == after[i].tasks[m]);
    }
    lemma_tasks_kept(before, after, alive, bound);
}

/// A list of ids without the id `id`.
fn without(list: &Vec<usize>, id: usize) -> (kept: Vec<usize>)
    ensures
        kept@ == list@.filter(|a: usize| a != id),
{
    let mut kept: Vec<usize> = Vec::new();
    let mut k: usize = 0;
    assert(list@.take(0) =~= Seq::<usize>::empty());
    reveal(Seq::filter);
    while k < list.len()
        invariant
            k <= list.len(),
            kept@ == list@.take(k as int).filter(|a: usize| a != id),
        decreases list.len() - k,
    {
        proof {
            let head = list@.take(k as int);
            assert(list@.take(k + 1) =~= head.push(list@[k as int]));
            head.lemma_filter_push(list@[k as int], |a: usize| a != id);
        }
        if list[k] != id {
            kept.push(list[k]);
        }
        k += 1;
    }
    assert(list@.take(k as int) =~= list@);
    kept
}

/// A list of groups is in order: its graph is, and every id in use, by a
/// group or in an edge, is below `bound`.
pub open spec fn list_wf(graph: Seq<GroupView>, bound: usize) -> bool {
    &&& graph_wf(graph)
    &&& forall|i: int| 0 <= i < graph.len() ==> ids_below(#[trigger] graph[i], bound)
}

/// Where the group `id` stands in the list.
fn index_in(groups: &Vec<GroupRaw>, id: usize) -> (at: Option<usize>)
    ensures
        at matches Some(i) ==> i < views(groups@).len() && views(groups@)[i as int].id == id,
        at is None ==> forall|i: int|
            0 <= i < views(groups@).len() ==> (#[trigger] views(groups@)[i]).id != id,
{
    let mut k: usize = 0;
    while k < groups.len()
        invariant
            k <= groups.len(),
            forall|i: int| 0 <= i < k ==> (#[trigger] views(groups@)[i]).id != id,
        decreases groups.len() - k,
    {
        if groups[k].id == id {
            return Some(k);
        }
        k += 1;
    }
    None
}

/// Whether `group` is what a newly created group `id` named `name` looks
/// like: live, without tasks, without edges, with a live placeholder task
/// that is named `_` and runs nothing.
pub open spec fn is_fresh_group(group: GroupView, name: Seq<char>, id: usize) -> bool {
    &&& group.name == name
    &&& group.id == id
    &&& !group.released
    &&& group.tasks.len() == 0
    &&& group.predecessors.len() == 0
    &&& group.successors.len() == 0
    &&& !group.sentinel.released()
    &&& group.sentinel.raw().name_text() == "_"@
    &&& !group.sentinel.raw().has_body()
}

/// The graph after the task behind `handle` has joined the group `id`.
pub open spec fn task_added(graph: Seq<GroupView>, id: usize, handle: TaskHandle) -> Seq<
    GroupView,
> {
    graph.map_values(
        |g: GroupView|
            if g.id == id {
                GroupView { tasks: g.tasks.push(handle), ..g }
            } else {
                g
            },
    )
}

/// The graph after the owner of the group `id` has given it up.
pub open spec fn group_released(graph: Seq<GroupView>, id: usize) -> Seq<GroupView> {
    graph.map_values(
        |g: GroupView|
            if g.id == id {
                GroupView { released: true, ..g }
            } else {
                g
            },
    )
}

/// The graph after the owner of the task `id` has given it up: every handle
/// to that task is marked.
pub open spec fn task_released(graph: Seq<GroupView>, id: usize) -> Seq<GroupView> {
    graph.map_values(
        |g: GroupView|
            GroupView {
                tasks: g.tasks.map_values(
                    |h: TaskHandle|
                        if h.ident() == id {
                            h.retired()
                        } else {
                            h
                        },
                ),
                ..g
            },
    )
}

/// The graph after the edge from the group `from` to the group `to` has been
/// written into the lists of both.
pub open spec fn linked(graph: Seq<GroupView>, from: usize, to: usize) -> Seq<GroupView> {
    graph.map_values(
        |g: GroupView|
            if g.id == from {
                GroupView { successors: g.successors.push(GroupHandle { id: to }), ..g }
            } else if g.id == to {
                GroupView { predecessors: g.predecessors.push(GroupHandle { id: from }), ..g }
            } else {
                g
            },
    )
}

/// Whether the group `caller` may be chained with the group `other`, and the
/// error if not: a group is not chained with itself; the caller must be
/// live; the two must not be chained already, in either direction; and the
/// other group must be live.
pub open spec fn chain_outcome(graph: Seq<GroupView>, caller: usize, other: usize) -> Result<
    (),
    TaskError,
> {
    if caller == other {
        Err(TaskError::InvalidChaining)
    } else if !is_live(graph, caller) {
        Err(TaskError::InvalidGroupHandle)
    } else if is_chained(graph, caller, other) {
        Err(TaskError::InvalidChaining)
    } else if !is_live(graph, other) {
        Err(TaskError::InvalidGroupHandle)
    } else {
        Ok(())
    }
}

/// The ids of the released groups of a graph.
pub open spec fn released_ids(graph: Seq<GroupView>) -> Seq<usize> {
    graph.filter(|g: GroupView| g.released).map_values(|g: GroupView| g.id)
}

/// An edge list without the handles of the groups `gone`.
pub open spec fn purged_chain(chain: Seq<GroupHandle>, gone: Seq<usize>) -> Seq<GroupHandle> {
    chain.filter(|h: GroupHandle| !gone.contains(h.id))
}

/// A group without its edges to the groups `gone`.
pub open spec fn purged_group(group: GroupView, gone: Seq<usize>) -> GroupView {
    GroupView {
        predecessors: purged_chain(group.predecessors, gone),
        successors: purged_chain(group.successors, gone),
        ..group
    }
}

/// The groups of a graph that have not been released, in the graph's order.
pub open spec fn live_groups(graph: Seq<GroupView>) -> Seq<GroupView> {
    graph.filter(|g: GroupView| !g.released)
}

/// The groups of a list, each without its edges to the groups `gone`.
pub open spec fn purged_groups(groups: Seq<GroupView>, gone: Seq<usize>) -> Seq<GroupView> {
    groups.map_values(|g: GroupView| purged_group(g, gone))
}

/// The graph without its released groups and without the edges to them.
pub open spec fn rearranged(graph: Seq<GroupView>) -> Seq<GroupView> {
    purged_groups(live_groups(graph), released_ids(graph))
}

/// A task list without the handles of released tasks.
pub open spec fn live_tasks(tasks: Seq<TaskHandle>) -> Seq<TaskHandle> {
    tasks.filter(|h: TaskHandle| !h.released())
}

/// The graph in which every live group has dropped the handles of its
/// released tasks.
pub open spec fn tasks_rearranged(graph: Seq<GroupView>) -> Seq<GroupView> {
    graph.map_values(
        |g: GroupView|
            if g.released {
                g
            } else {
                GroupView { tasks: live_tasks(g.tasks), ..g }
            },
    )
}

/// A group, as its creator holds it. Whoever holds it may add tasks and edges
/// to the group; giving it back to the manager releases the group.
pub struct Group {
    id: usize,
    name: String,
}

impl Group {
    /// The group's id.
    pub closed spec fn ident(&self) -> usize {
        self.id
    }

    /// The group's name.
    pub closed spec fn name_text(&self) -> Seq<char> {
        self.name@
    }

    /// Get the name of the group.
    pub fn name(&self) -> (name: String)
        ensures
            name@ == self.name_text(),
    {
        self.name.clone()
    }

    /// Get new handle item of the group.
    pub fn handle(&self) -> (handle: GroupHandle)
        ensures
            handle.id == self.ident(),
    {
        GroupHandle { id: self.id }
    }

    /// Create task which is binding lambda closure.
    ///
    /// The name must not be empty; it may repeat the name of another task.
    /// The group must be live in `manager`.
    pub fn create_task<F>(&self, manager: &mut GroupManager, name: &str, f: F) -> (result:
        Result<Task, TaskError>) where F: Fn() + Sync + Send + 'static
        requires
            old(manager).next_task_id() < usize::MAX,
            f.requires(()),
        ensures
            final(manager).wf(),
            task_created(*old(manager), *final(manager), self.ident(), name@, result),
    {
        proof {
            use_type_invariant(&*manager);
        }
        if name.is_empty() {
            Err(TaskError::InvalidItemName)
        } else if !self.handle().is_released(manager) {
            let task = Task::from_closure(name, manager.task_counter, f);
            proof {
                task.live_handle_holds();
            }
            manager.attach(self.id, task.handle());
            proof {
                lemma_push_contains(
                    old(manager).live_task_ids(),
                    task.ident(),
                    task.ident(),
                );
            }
            Ok(task)
        } else {
            Err(TaskError::InvalidGroupHandle)
        }
    }

    /// Create task which is binding a shared object and a method that reads
    /// it.
    ///
    /// The name must not be empty; it may repeat the name of another task.
    /// The group must be live in `manager`. The task keeps the object alive.
    pub fn create_task_method<T, F>(
        &self,
        manager: &mut GroupManager,
        name: &str,
        t: Arc<T>,
        f: F,
    ) -> (result: Result<Task, TaskError>) where
        T: Sync + Send + 'static,
        F: Fn(&T) + Sync + Send + 'static,

        requires
            old(manager).next_task_id() < usize::MAX,
            f.requires((&*t,)),
        ensures
            final(manager).wf(),
            task_created(*old(manager), *final(manager), self.ident(), name@, result),
    {
        proof {
            use_type_invariant(&*manager);
        }
        if name.is_empty() {
            Err(TaskError::InvalidItemName)
        } else if !self.handle().is_released(manager) {
            let task = Task::from_method(name, manager.task_counter, t, f);
            proof {
                task.live_handle_holds();
            }
            manager.attach(self.id, task.handle());
            proof {
                lemma_push_contains(
                    old(manager).live_task_ids(),
                    task.ident(),
                    task.ident(),
                );
            }
            Ok(task)
        } else {
            Err(TaskError::InvalidGroupHandle)
        }
    }

    /// Create task which is binding a shared, locked object and a method
    /// that changes it.
    ///
    /// The name must not be empty; it may repeat the name of another task.
    /// The group must be live in `manager`. The task keeps the object alive
    /// and holds its lock while the method runs. It never waits for the
    /// lock: a call of the task that finds the lock held, or left behind by
    /// a holder that panicked, passes without running the method.
    pub fn create_task_method_mut<T, F>(
        &self,
        manager: &mut GroupManager,
        name: &str,
        t: Arc<Mutex<T>>,
        f: F,
    ) -> (result: Result<Task, TaskError>) where
        T: Send + 'static,
        F: Fn(&mut T) + Sync + Send + 'static,

        requires
            old(manager).next_task_id() < usize::MAX,
            forall|target: &mut T| f.requires((target,)),
        ensures
            final(manager).wf(),
            task_created(*old(manager), *final(manager), self.ident(), name@, result),
    {
        proof {
            use_type_invariant(&*manager);
        }
        if name.is_empty() {
            Err(TaskError::InvalidItemName)
        } else if !self.handle().is_released(manager) {
            let task = Task::from_method_mut(name, manager.task_counter, t, f);
            proof {
                task.live_handle_holds();
            }
            manager.attach(self.id, task.handle());
            proof {
                lemma_push_contains(
                    old(manager).live_task_ids(),
                    task.ident(),
                    task.ident(),
                );
            }
            Ok(task)
        } else {
            Err(TaskError::InvalidGroupHandle)
        }
    }

    /// Let this group precede given other group.
    ///
    /// On success the edge is written at the end of this group's successors
    /// and of the other group's predecessors; on an error nothing changes.
    pub fn precede(&self, manager: &mut GroupManager, handle: GroupHandle) -> (result: Result<
        (),
        TaskError,
    >)
        ensures
            final(manager).wf(),
            final(manager).next_group_id() == old(manager).next_group_id(),
            final(manager).next_task_id() == old(manager).next_task_id(),
            final(manager).live_task_ids() == old(manager).live_task_ids(),
            result == chain_outcome(old(manager).graph(), self.ident(), handle.id),
            handle.id == self.ident() ==> result == Err::<(), TaskError>(
                TaskError::InvalidChaining,
            ),
            result is Err ==> final(manager).graph() == old(manager).graph(),
            result is Ok ==> final(manager).graph() == linked(
                old(manager).graph(),
                self.ident(),
                handle.id,
            ),
    {
        manager.link(self.id, handle.id, true)
    }

    /// Let this group succeeds given other group.
    ///
    /// On success the edge is written at the end of this group's
    /// predecessors and of the other group's successors; on an error nothing
    /// changes.
    pub fn succeed(&self, manager: &mut GroupManager, handle: GroupHandle) -> (result: Result<
        (),
        TaskError,
    >)
        ensures
            final(manager).wf(),
            final(manager).next_group_id() == old(manager).next_group_id(),
            final(manager).next_task_id() == old(manager).next_task_id(),
            final(manager).live_task_ids() == old(manager).live_task_ids(),
            result == chain_outcome(old(manager).graph(), self.ident(), handle.id),
            handle.id == self.ident() ==> result == Err::<(), TaskError>(
                TaskError::InvalidChaining,
            ),
            result is Err ==> final(manager).graph() == old(manager).graph(),
            result is Ok ==> final(manager).graph() == linked(
                old(manager).graph(),
                handle.id,
                self.ident(),
            ),
    {
        manager.link(self.id, handle.id, false)
    }
}

/// What the creation of a task named `name` in the group `id` does to a
/// manager, and what it returns: an empty name is refused, then a group that
/// is not live; else the task gets the next task id, its handle joins the
/// end of the group's list, and the manager holds it among its tasks.
pub open spec fn task_created(
    before: GroupManager,
    after: GroupManager,
    id: usize,
    name: Seq<char>,
    result: Result<Task, TaskError>,
) -> bool {
    &&& after.next_group_id() == before.next_group_id()
    &&& match result {
        Ok(task) => {
            &&& name.len() > 0
            &&& is_live(before.graph(), id)
            &&& task.ident() == before.next_task_id()
            &&& task.raw().name_text() == name
            &&& task.raw().has_body()
            &&& after.next_task_id() == before.next_task_id() + 1
            &&& after.graph() == task_added(before.graph(), id, task.live_handle())
            &&& after.live_task_ids() == before.live_task_ids().push(task.ident())
            &&& task.ident() > 0
            &&& task_is_live(after.live_task_ids(), task.ident())
        },
        Err(e) => {
            &&& after.graph() == before.graph()
            &&& after.next_task_id() == before.next_task_id()
            &&& after.live_task_ids() == before.live_task_ids()
            &&& e == if name.len() == 0 {
                TaskError::InvalidItemName
            } else {
                TaskError::InvalidGroupHandle
            }
            &&& name.len() == 0 || !is_live(before.graph(), id)
        },
    }
}

impl GroupManager {
    /// Create new group that can contain tasks and executable in topology.
    ///
    /// An empty name is refused with `InvalidItemName`, and the manager stays
    /// as it is. Else the group gets the next id and joins the end of the
    /// list.
    pub fn create_group(&mut self, name: &str) -> (result: Result<Group, TaskError>)
        requires
            old(self).next_group_id() < usize::MAX,
        ensures
            final(self).wf(),
            final(self).next_task_id() == old(self).next_task_id(),
            final(self).live_task_ids() == old(self).live_task_ids(),
            result is Err <==> name@.len() == 0,
            result matches Err(e) ==> e == TaskError::InvalidItemName,
            result is Err ==> final(self).graph() == old(self).graph(),
            result is Err ==> final(self).next_group_id() == old(self).next_group_id(),
            result matches Ok(group) ==> {
                &&& group.ident() == old(self).next_group_id()
                &&& group.name_text() == name@
                &&& final(self).next_group_id() == old(self).next_group_id() + 1
                &&& final(self).graph().len() == old(self).graph().len() + 1
                &&& final(self).graph().drop_last() == old(self).graph()
                &&& is_fresh_group(final(self).graph().last(), name@, group.ident())
                &&& is_live(final(self).graph(), group.ident())
            },
    {
        proof {
            use_type_invariant(&*self);
        }
        if name.is_empty() {
            Err(TaskError::InvalidItemName)
        } else {
            let id = self.group_counter;
            let raw = GroupRaw::new(name, id);
            let group = Group { id, name: name.to_string() };
            let mut groups: Vec<GroupRaw> = Vec::new();
            std::mem::swap(&mut self.groups, &mut groups);
            groups.push(raw);
            proof {
                assert(views(groups@) =~= old(self).graph().push(raw@));
                lemma_fresh_group_keeps_order(old(self).graph(), raw@, id);
                assert(views(groups@).drop_last() =~= old(self).graph());
                assert(views(groups@).last() == raw@);
                assert forall|i: int| 0 <= i < views(groups@).len() implies ids_below(
                    #[trigger] views(groups@)[i],
                    (id + 1) as usize,
                ) by {
                    if i < old(self).graph().len() {
                        assert(ids_below(old(self).graph()[i], id));
                    }
                }
                let before = old(self).graph();
                let after = views(groups@);
                assert forall|i: int, m: int|
                    0 <= i < after.len() && 0 <= m < after[i].tasks.len() implies is_handle_of(
                    before,
                    #[trigger] after[i].tasks[m],
                ) by {
                    assert(after[i] == before[i]);
                    assert(before[i].tasks[m] == after[i].tasks[m]);
                }
                lemma_tasks_kept(before, after, self.live_task_ids(), self.next_task_id());
            }
            self.group_counter = id + 1;
            self.groups = groups;
            Ok(group)
        }
    }

    /// Gives up a group: it stays in the list, marked as released, until the
    /// list is rearranged. Its handles no longer resolve.
    pub fn release_group(&mut self, group: Group)
        ensures
            final(self).wf(),
            final(self).next_group_id() == old(self).next_group_id(),
            final(self).next_task_id() == old(self).next_task_id(),
            final(self).live_task_ids() == old(self).live_task_ids(),
            final(self).graph() == group_released(old(self).graph(), group.ident()),
    {
        proof {
            use_type_invariant(&*self);
        }
        let mut groups: Vec<GroupRaw> = Vec::new();
        std::mem::swap(&mut self.groups, &mut groups);
        match index_in(&groups, group.id) {
            Some(at) => {
                groups[at].released = true;
            },
            None => {},
        }
        proof {
            assert(views(groups@) =~= group_released(old(self).graph(), group.ident()));
            lemma_same_edges_keep_order(old(self).graph(), views(groups@), self.group_counter);
            lemma_same_tasks_kept(
                old(self).graph(),
                views(groups@),
                self.live_task_ids(),
                self.next_task_id(),
            );
        }
        self.groups = groups;
    }

    /// Appends the handle of a new task to the task list of the live group
    /// `id`, and takes the task among the tasks that the manager holds.
    fn attach(&mut self, id: usize, handle: TaskHandle)
        requires
            old(self).next_task_id() < usize::MAX,
            is_live(old(self).graph(), id),
            handle.ident() == old(self).next_task_id(),
            !handle.released(),
        ensures
            final(self).wf(),
            final(self).next_group_id() == old(self).next_group_id(),
            final(self).next_task_id() == old(self).next_task_id() + 1,
            final(self).graph() == task_added(old(self).graph(), id, handle),
            final(self).live_task_ids() == old(self).live_task_ids().push(handle.ident()),
    {
        proof {
            use_type_invariant(&*self);
        }
        let number = self.task_counter;
        let ghost alive = self.live_task_ids();
        let mut groups: Vec<GroupRaw> = Vec::new();
        std::mem::swap(&mut self.groups, &mut groups);
        match index_in(&groups, id) {
            Some(at) => {
                groups[at].tasks.push(handle);
            },
            None => {},
        }
        self.task_counter = number + 1;
        let mut tasks: Vec<usize> = Vec::new();
        std::mem::swap(&mut self.live_tasks, &mut tasks);
        tasks.push(number);
        proof {
            let before = old(self).graph();
            let after = views(groups@);
            assert(after =~= task_added(before, id, handle));
            lemma_same_edges_keep_order(before, after, self.group_counter);
            assert forall|k: int| 0 <= k < tasks@.len() implies 0 < (#[trigger] tasks@[k]) < number
                + 1 by {
                if k < alive.len() {
                    assert(tasks@[k] == alive[k]);
                }
            }
            assert forall|i: int, m: int|
                0 <= i < after.len() && 0 <= m < after[i].tasks.len() implies 0 < (
            #[trigger] after[i].tasks[m]).ident() < number + 1 && (after[i].tasks[m].released()
                <==> !tasks@.contains(after[i].tasks[m].ident())) by {
                let h = after[i].tasks[m];
                lemma_push_contains(alive, number, h.ident());
                if m < before[i].tasks.len() {
                    assert(before[i].tasks[m] == h);
                }
            }
        }
        self.live_tasks = tasks;
        self.groups = groups;
    }

    /// Chains the group `caller` with the group `other`: the edge runs from
    /// the caller where `forward` holds, to the caller where it does not.
    fn link(&mut self, caller: usize, other: usize, forward: bool) -> (result: Result<
        (),
        TaskError,
    >)
        ensures
            final(self).wf(),
            final(self).next_group_id() == old(self).next_group_id(),
            final(self).next_task_id() == old(self).next_task_id(),
            final(self).live_task_ids() == old(self).live_task_ids(),
            result == chain_outcome(old(self).graph(), caller, other),
            result is Err ==> final(self).graph() == old(self).graph(),
            result is Ok ==> final(self).graph() == if forward {
                linked(old(self).graph(), caller, other)
            } else {
                linked(old(self).graph(), other, caller)
            },
    {
        proof {
            use_type_invariant(&*self);
        }
        let mut groups: Vec<GroupRaw> = Vec::new();
        std::mem::swap(&mut self.groups, &mut groups);
        let result = link_in(&mut groups, caller, other, forward, Ghost(self.group_counter));
        proof {
            lemma_same_tasks_kept(
                old(self).graph(),
                views(groups@),
                self.live_task_ids(),
                self.next_task_id(),
            );
        }
        self.groups = groups;
        result
    }

    /// Gives up a task: the manager holds it no more, so that every handle
    /// to it reads released and resolves to nothing. The handles to it that
    /// the groups hold are marked, and stay in their lists until the tasks
    /// are rearranged. A plan that holds the task does not call it any more.
    pub fn release_task(&mut self, task: Task)
        ensures
            final(self).wf(),
            final(self).next_group_id() == old(self).next_group_id(),
            final(self).next_task_id() == old(self).next_task_id(),
            final(self).graph() == task_released(old(self).graph(), task.ident()),
            final(self).live_task_ids() == old(self).live_task_ids().filter(
                |held: usize| held != task.ident(),
            ),
            task.ident() != 0 ==> !task_is_live(final(self).live_task_ids(), task.ident()),
    {
        proof {
            use_type_invariant(&*self);
        }
        task.mark_gone();
        let id = task.id();
        let ghost alive = self.live_task_ids();
        let mut groups: Vec<GroupRaw> = Vec::new();
        std::mem::swap(&mut self.groups, &mut groups);
        release_task_in(&mut groups, id, Ghost(self.group_counter));
        let tasks = without(&self.live_tasks, id);
        proof {
            let before = old(self).graph();
            let after = views(groups@);
            let other = |held: usize| held != id;
            crate::lists::lemma_filter_holds(alive, other, id);
            assert forall|k: int| 0 <= k < tasks@.len() implies 0 < (#[trigger] tasks@[k])
                < self.next_task_id() by {
                assert(tasks@.contains(tasks@[k]));
                crate::lists::lemma_filter_holds(alive, other, tasks@[k]);
                let x = choose|x: int| 0 <= x < alive.len() && alive[x] == tasks@[k];
                assert(0 < alive[x] < self.next_task_id());
            }
            assert forall|i: int, m: int|
                0 <= i < after.len() && 0 <= m < after[i].tasks.len() implies 0 < (
            #[trigger] after[i].tasks[m]).ident() < self.next_task_id() && (
            after[i].tasks[m].released() <==> !tasks@.contains(after[i].tasks[m].ident())) by {
                let h = before[i].tasks[m];
                h.retired_holds();
                crate::lists::lemma_filter_holds(alive, other, h.ident());
                assert(0 < h.ident() < self.next_task_id());
            }
        }
        let mut held = tasks;
        std::mem::swap(&mut self.live_tasks, &mut held);
        self.groups = groups;
    }
}

/// Chains the group `caller` with the group `other`: the edge runs from
/// the caller where `forward` holds, to the caller where it does not.
fn link_in(
    groups: &mut Vec<GroupRaw>,
    caller: usize,
    other: usize,
    forward: bool,
    bound: Ghost<usize>,
) -> (result: Result<(), TaskError>)
    requires
        list_wf(views(old(groups)@), bound@),
    ensures
        list_wf(views(final(groups)@), bound@),
        result == chain_outcome(views(old(groups)@), caller, other),
        result is Err ==> views(final(groups)@) == views(old(groups)@),
        result is Ok ==> views(final(groups)@) == if forward {
            linked(views(old(groups)@), caller, other)
        } else {
            linked(views(old(groups)@), other, caller)
        },
{
    if caller == other {
        return Err(TaskError::InvalidChaining);
    }
    let a = match index_in(groups, caller) {
        Some(a) => a,
        None => {
            return Err(TaskError::InvalidGroupHandle);
        },
    };
    assert(views(groups@)[a as int] == groups[a as int]@);
    if groups[a].released {
        return Err(TaskError::InvalidGroupHandle);
    }
    if groups[a].is_contains_id(other) {
        return Err(TaskError::InvalidChaining);
    }
    let b = match index_in(groups, other) {
        Some(b) => b,
        None => {
            return Err(TaskError::InvalidGroupHandle);
        },
    };
    assert(views(groups@)[b as int] == groups[b as int]@);
    if groups[b].released {
        return Err(TaskError::InvalidGroupHandle);
    }
    if forward {
        groups[a].chains.success_groups.push(GroupHandle { id: other });
        groups[b].chains.precede_groups.push(GroupHandle { id: caller });
        proof {
            assert(views(groups@) =~= linked(views(old(groups)@), caller, other));
            lemma_linked_keeps_order(
                views(old(groups)@),
                a as int,
                b as int,
                bound@,
            );
        }
    } else {
        groups[a].chains.precede_groups.push(GroupHandle { id: other });
        groups[b].chains.success_groups.push(GroupHandle { id: caller });
        proof {
            assert(views(groups@) =~= linked(views(old(groups)@), other, caller));
            lemma_linked_keeps_order(
                views(old(groups)@),
                b as int,
                a as int,
                bound@,
            );
        }
    }
    Ok(())
}

/// Marks every handle to the task `id` that a group holds as released.
fn release_task_in(groups: &mut Vec<GroupRaw>, id: usize, bound: Ghost<usize>)
    requires
        list_wf(views(old(groups)@), bound@),
    ensures
        list_wf(views(final(groups)@), bound@),
        views(final(groups)@) == task_released(views(old(groups)@), id),
{
    let mut i: usize = 0;
    while i < groups.len()
        invariant
            i <= groups.len(),
            groups.len() == old(groups).len(),
            forall|j: int|
                0 <= j < i ==> (#[trigger] views(groups@)[j]) == task_released(
                    views(old(groups)@),
                    id,
                )[j],
            forall|j: int| i <= j < groups.len() ==> groups[j] == old(groups)[j],
        decreases groups.len() - i,
    {
        let ghost before = groups@;
        assert forall|j: int| 0 <= j < i implies (#[trigger] views(before)[j])
            == task_released(views(old(groups)@), id)[j] by {
            assert(views(groups@)[j] == views(before)[j]);
        }
        let mut k: usize = 0;
        while k < groups[i].tasks.len()
            invariant
                i < groups.len(),
                groups.len() == before.len(),
                forall|j: int| 0 <= j < before.len() && j != i ==> groups[j] == before[j],
                groups[i as int]@.id == before[i as int]@.id,
                groups[i as int]@.name == before[i as int]@.name,
                groups[i as int]@.released == before[i as int]@.released,
                groups[i as int]@.sentinel == before[i as int]@.sentinel,
                groups[i as int]@.predecessors == before[i as int]@.predecessors,
                groups[i as int]@.successors == before[i as int]@.successors,
                groups[i as int]@.tasks.len() == before[i as int]@.tasks.len(),
                k <= groups[i as int]@.tasks.len(),
                forall|m: int|
                    0 <= m < k ==> (#[trigger] groups[i as int]@.tasks[m]) == if before[i as int]@.tasks[m].ident()
                        == id {
                        before[i as int]@.tasks[m].retired()
                    } else {
                        before[i as int]@.tasks[m]
                    },
                forall|m: int|
                    k <= m < before[i as int]@.tasks.len() ==> (
                    #[trigger] groups[i as int]@.tasks[m]) == before[i as int]@.tasks[m],
            decreases groups[i as int]@.tasks.len() - k,
        {
            if groups[i].tasks[k].id() == id {
                groups[i].tasks[k].retire();
            }
            k += 1;
        }
        proof {
            let goal = task_released(views(old(groups)@), id);
            assert(before[i as int] == old(groups)[i as int]);
            assert(groups[i as int]@.tasks =~= goal[i as int].tasks);
            assert(views(groups@)[i as int] == goal[i as int]);
            assert forall|j: int| 0 <= j < i implies (#[trigger] views(groups@)[j]) == goal[j] by {
                assert(groups[j] == before[j]);
                assert(views(before)[j] == goal[j]);
            }
        }
        i += 1;
    }
    proof {
        assert(views(groups@) =~= task_released(views(old(groups)@), id));
        lemma_same_edges_keep_order(views(old(groups)@), views(groups@), bound@);
    }
}

/// An edge between two groups that are not chained yet leaves the graph in
/// order.
proof fn lemma_linked_keeps_order(graph: Seq<GroupView>, a: int, b: int, bound: usize)
    requires
        graph_wf(graph),
        forall|i: int| 0 <= i < graph.len() ==> ids_below(#[trigger] graph[i], bound),
        0 <= a < graph.len(),
        0 <= b < graph.len(),
        a != b,
        !mentions(graph[a], graph[b].id) || !mentions(graph[b], graph[a].id),
    ensures
        graph_wf(linked(graph, graph[a].id, graph[b].id)),
        forall|i: int|
            0 <= i < graph.len() ==> ids_below(
                #[trigger] linked(graph, graph[a].id, graph[b].id)[i],
                bound,
            ),
{
    let from = graph[a].id;
    let to = graph[b].id;
    let after = linked(graph, from, to);
    assert(from != to);
    assert(!mentions(graph[a], to) && !mentions(graph[b], from));
    assert(ids_below(graph[a], bound) && ids_below(graph[b], bound));
    assert forall|i: int| 0 <= i < graph.len() implies (#[trigger] after[i]).id == graph[i].id by {}
    assert forall|i: int| 0 <= i < graph.len() && i != a && i != b implies #[trigger] after[i]
        == graph[i] by {}
    assert(after[a].predecessors == graph[a].predecessors);
    assert(after[a].successors == graph[a].successors.push(GroupHandle { id: to }));
    assert(after[b].successors == graph[b].successors);
    assert(after[b].predecessors == graph[b].predecessors.push(GroupHandle { id: from }));
    assert forall|i: int| 0 <= i < after.len() implies chains_wf(#[trigger] after[i]) by {
        assert(chains_wf(graph[i]));
    }
    assert forall|i: int, j: int| 0 <= i < after.len() && 0 <= j < after.len() implies ((
    #[trigger] after[i]).successors.contains(GroupHandle { id: (#[trigger] after[j]).id })
        <==> after[j].predecessors.contains(GroupHandle { id: after[i].id })) by {
        let hi = GroupHandle { id: graph[i].id };
        let hj = GroupHandle { id: graph[j].id };
        assert(graph[i].successors.contains(hj) <==> graph[j].predecessors.contains(hi));
        if i == a {
            lemma_push_contains(graph[a].successors, GroupHandle { id: to }, hj);
        }
        if j == b {
            lemma_push_contains(graph[b].predecessors, GroupHandle { id: from }, hi);
        }
    }
    assert forall|i: int| 0 <= i < graph.len() implies ids_below(#[trigger] after[i], bound) by {
        assert(ids_below(graph[i], bound));
    }
}

/// What a purged edge list holds.
pub proof fn lemma_purged_chain_holds(chain: Seq<GroupHandle>, gone: Seq<usize>, h: GroupHandle)
    ensures
        purged_chain(chain, gone).contains(h) <==> (chain.contains(h) && !gone.contains(h.id)),
{
    let pred = |h: GroupHandle| !gone.contains(h.id);
    let kept = chain.filter(pred);
    if kept.contains(h) {
        chain.lemma_filter_contains_rev(pred, h);
        let m = choose|m: int| 0 <= m < kept.len() && kept[m] == h;
        chain.lemma_filter_pred(pred, m);
    }
    if chain.contains(h) && !gone.contains(h.id) {
        let m = choose|m: int| 0 <= m < chain.len() && chain[m] == h;
        chain.lemma_filter_contains(pred, m);
    }
}

/// A purged group keeps its edge lists in order.
proof fn lemma_purged_group_keeps_order(group: GroupView, gone: Seq<usize>, bound: usize)
    requires
        chains_wf(group),
        ids_below(group, bound),
    ensures
        chains_wf(purged_group(group, gone)),
        ids_below(purged_group(group, gone), bound),
{
    let after = purged_group(group, gone);
    let pred = |h: GroupHandle| !gone.contains(h.id);
    let same = |h: GroupHandle| h;
    lemma_purged_chain_holds(group.predecessors, gone, GroupHandle { id: group.id });
    lemma_purged_chain_holds(group.successors, gone, GroupHandle { id: group.id });
    assert forall|i: int, j: int| 0 <= i < j < group.predecessors.len() implies same(
        #[trigger] group.predecessors[i],
    ) != same(#[trigger] group.predecessors[j]) by {}
    lemma_filter_keeps_distinct(group.predecessors, pred, same);
    assert forall|i: int, j: int| 0 <= i < j < group.successors.len() implies same(
        #[trigger] group.successors[i],
    ) != same(#[trigger] group.successors[j]) by {}
    lemma_filter_keeps_distinct(group.successors, pred, same);
    assert forall|i: int, j: int|
        0 <= i < after.predecessors.len() && 0 <= j < after.predecessors.len() && i
            != j implies after.predecessors[i] != after.predecessors[j] by {
        if i < j {
            assert(same(after.predecessors[i]) != same(after.predecessors[j]));
        } else {
            assert(same(after.predecessors[j]) != same(after.predecessors[i]));
        }
    }
    assert forall|i: int, j: int|
        0 <= i < after.successors.len() && 0 <= j < after.successors.len() && i
            != j implies after.successors[i] != after.successors[j] by {
        if i < j {
            assert(same(after.successors[i]) != same(after.successors[j]));
        } else {
            assert(same(after.successors[j]) != same(after.successors[i]));
        }
    }
    assert forall|k: int| 0 <= k < after.successors.len() implies !after.predecessors.contains(
        #[trigger] after.successors[k],
    ) by {
        let h = after.successors[k];
        assert(after.successors.contains(h));
        lemma_purged_chain_holds(group.successors, gone, h);
        lemma_purged_chain_holds(group.predecessors, gone, h);
        let m = choose|m: int| 0 <= m < group.successors.len() && group.successors[m] == h;
        assert(!group.predecessors.contains(group.successors[m]));
    }
    assert forall|k: int| 0 <= k < after.predecessors.len() implies (
    #[trigger] after.predecessors[k]).id < bound by {
        let h = after.predecessors[k];
        assert(after.predecessors.contains(h));
        lemma_purged_chain_holds(group.predecessors, gone, h);
        let m = choose|m: int| 0 <= m < group.predecessors.len() && group.predecessors[m] == h;
        assert(group.predecessors[m].id < bound);
    }
    assert forall|k: int| 0 <= k < after.successors.len() implies (
    #[trigger] after.successors[k]).id < bound by {
        let h = after.successors[k];
        assert(after.successors.contains(h));
        lemma_purged_chain_holds(group.successors, gone, h);
        let m = choose|m: int| 0 <= m < group.successors.len() && group.successors[m] == h;
        assert(group.successors[m].id < bound);
    }
}

/// Every live group of a graph is a group of the graph and is not released.
pub proof fn lemma_live_group_is_member(graph: Seq<GroupView>, k: int) -> (i: int)
    requires
        0 <= k < live_groups(graph).len(),
    ensures
        0 <= i < graph.len(),
        graph[i] == live_groups(graph)[k],
        !graph[i].released,
{
    let pred = |g: GroupView| !g.released;
    let live = graph.filter(pred);
    graph.lemma_filter_pred(pred, k);
    assert(live.contains(live[k]));
    graph.lemma_filter_contains_rev(pred, live[k]);
    choose|i: int| 0 <= i < graph.len() && graph[i] == live[k]
}

/// An id is among the released ids of a graph just when a released group of
/// the graph has it.
pub proof fn lemma_released_ids_hold(graph: Seq<GroupView>, id: usize)
    ensures
        released_ids(graph).contains(id) <==> exists|i: int|
            0 <= i < graph.len() && (#[trigger] graph[i]).id == id && graph[i].released,
{
    let pred = |g: GroupView| g.released;
    let dead = graph.filter(pred);
    let ids = released_ids(graph);
    if ids.contains(id) {
        let m = choose|m: int| 0 <= m < ids.len() && ids[m] == id;
        graph.lemma_filter_pred(pred, m);
        assert(dead.contains(dead[m]));
        graph.lemma_filter_contains_rev(pred, dead[m]);
        let i = choose|i: int| 0 <= i < graph.len() && graph[i] == dead[m];
        assert(graph[i].id == id && graph[i].released);
    }
    if exists|i: int| 0 <= i < graph.len() && (#[trigger] graph[i]).id == id && graph[i].released {
        let i = choose|i: int|
            0 <= i < graph.len() && (#[trigger] graph[i]).id == id && graph[i].released;
        graph.lemma_filter_contains(pred, i);
        let m = choose|m: int| 0 <= m < dead.len() && dead[m] == graph[i];
        assert(ids[m] == id);
    }
}

/// Rearranging a graph in order leaves a graph in order.
pub proof fn lemma_rearranged_keeps_order(graph: Seq<GroupView>, bound: usize)
    requires
        graph_wf(graph),
        forall|i: int| 0 <= i < graph.len() ==> ids_below(#[trigger] graph[i], bound),
    ensures
        graph_wf(rearranged(graph)),
        forall|i: int|
            0 <= i < rearranged(graph).len() ==> ids_below(#[trigger] rearranged(graph)[i], bound),
{
    let live = live_groups(graph);
    let gone = released_ids(graph);
    let after = rearranged(graph);
    let id_of = |g: GroupView| g.id;
    assert forall|i: int, j: int| 0 <= i < j < graph.len() implies id_of(#[trigger] graph[i])
        != id_of(#[trigger] graph[j]) by {}
    lemma_filter_keeps_distinct(graph, |g: GroupView| !g.released, id_of);
    assert forall|k: int| 0 <= k < after.len() implies chains_wf(#[trigger] after[k])
        && ids_below(after[k], bound) && !gone.contains(after[k].id) by {
        let i = lemma_live_group_is_member(graph, k);
        lemma_purged_group_keeps_order(graph[i], gone, bound);
        lemma_released_ids_hold(graph, graph[i].id);
    }
    assert forall|i: int, j: int| 0 <= i < j < after.len() implies (#[trigger] after[i]).id != (
    #[trigger] after[j]).id by {
        assert(id_of(live[i]) != id_of(live[j]));
    }
    assert forall|k: int, l: int| 0 <= k < after.len() && 0 <= l < after.len() implies ((
    #[trigger] after[k]).successors.contains(GroupHandle { id: (#[trigger] after[l]).id })
        <==> after[l].predecessors.contains(GroupHandle { id: after[k].id })) by {
        let i = lemma_live_group_is_member(graph, k);
        let j = lemma_live_group_is_member(graph, l);
        lemma_purged_chain_holds(graph[i].successors, gone, GroupHandle { id: graph[j].id });
        lemma_purged_chain_holds(graph[j].predecessors, gone, GroupHandle { id: graph[i].id });
        assert(!gone.contains(after[k].id) && !gone.contains(after[l].id));
        assert(graph[i].successors.contains(GroupHandle { id: graph[j].id })
            <==> graph[j].predecessors.contains(GroupHandle { id: graph[i].id }));
    }
}

/// A graph that differs from one in order by its task lists and release
/// marks alone is in order too.
proof fn lemma_same_edges_keep_order(before: Seq<GroupView>, after: Seq<GroupView>, bound: usize)
    requires
        graph_wf(before),
        forall|i: int| 0 <= i < before.len() ==> ids_below(#[trigger] before[i], bound),
        after.len() == before.len(),
        forall|i: int|
            0 <= i < before.len() ==> (#[trigger] after[i]).id == before[i].id && after[i].predecessors
                == before[i].predecessors && after[i].successors == before[i].successors,
    ensures
        graph_wf(after),
        forall|i: int| 0 <= i < after.len() ==> ids_below(#[trigger] after[i], bound),
{
    assert forall|i: int| 0 <= i < after.len() implies chains_wf(#[trigger] after[i]) by {
        assert(chains_wf(before[i]));
    }
    assert forall|i: int, j: int| 0 <= i < after.len() && 0 <= j < after.len() implies ((
    #[trigger] after[i]).successors.contains(GroupHandle { id: (#[trigger] after[j]).id })
        <==> after[j].predecessors.contains(GroupHandle { id: after[i].id })) by {
        assert(before[i].successors.contains(GroupHandle { id: before[j].id })
            <==> before[j].predecessors.contains(GroupHandle { id: before[i].id }));
    }
    assert forall|i: int| 0 <= i < after.len() implies ids_below(#[trigger] after[i], bound) by {
        assert(ids_below(before[i], bound));
    }
}

impl GroupManager {
    /// Remove invalidated tasks from list of valid groups.
    pub fn rearrange_tasks(&mut self)
        ensures
            final(self).wf(),
            final(self).next_group_id() == old(self).next_group_id(),
            final(self).next_task_id() == old(self).next_task_id(),
            final(self).live_task_ids() == old(self).live_task_ids(),
            final(self).graph() == tasks_rearranged(old(self).graph()),
    {
        proof {
            use_type_invariant(&*self);
        }
        let mut groups: Vec<GroupRaw> = Vec::new();
        std::mem::swap(&mut self.groups, &mut groups);
        rearrange_tasks_in(&mut groups, Ghost(self.group_counter));
        proof {
            let before = old(self).graph();
            let after = views(groups@);
            assert forall|i: int, m: int|
                0 <= i < after.len() && 0 <= m < after[i].tasks.len() implies is_handle_of(
                before,
                #[trigger] after[i].tasks[m],
            ) by {
                let h = after[i].tasks[m];
                if !before[i].released {
                    assert(after[i].tasks.contains(h));
                    before[i].tasks.lemma_filter_contains_rev(|t: TaskHandle| !t.released(), h);
                    let y = choose|y: int| 0 <= y < before[i].tasks.len() && before[i].tasks[y] == h;
                    assert(before[i].tasks[y] == h);
                } else {
                    assert(before[i].tasks[m] == h);
                }
            }
            lemma_tasks_kept(before, after, self.live_task_ids(), self.next_task_id());
        }
        self.groups = groups;
    }

    /// Remove invalidated group from list and rerrange them: the released
    /// groups leave the list, and the groups that stay lose their edges to
    /// them.
    pub fn rearrange_groups(&mut self)
        ensures
            final(self).wf(),
            final(self).next_group_id() == old(self).next_group_id(),
            final(self).next_task_id() == old(self).next_task_id(),
            final(self).live_task_ids() == old(self).live_task_ids(),
            final(self).graph() == rearranged(old(self).graph()),
    {
        proof {
            use_type_invariant(&*self);
        }
        let mut groups: Vec<GroupRaw> = Vec::new();
        std::mem::swap(&mut self.groups, &mut groups);
        rearrange_groups_in(&mut groups, Ghost(self.group_counter));
        proof {
            let before = old(self).graph();
            let after = views(groups@);
            assert forall|i: int, m: int|
                0 <= i < after.len() && 0 <= m < after[i].tasks.len() implies is_handle_of(
                before,
                #[trigger] after[i].tasks[m],
            ) by {
                let x = lemma_live_group_is_member(before, i);
                assert(after[i].tasks == before[x].tasks);
                assert(before[x].tasks[m] == after[i].tasks[m]);
            }
            lemma_tasks_kept(before, after, self.live_task_ids(), self.next_task_id());
        }
        self.groups = groups;
    }
}

/// Drops from the task list of every live group the handles of released
/// tasks.
fn rearrange_tasks_in(groups: &mut Vec<GroupRaw>, bound: Ghost<usize>)
    requires
        list_wf(views(old(groups)@), bound@),
    ensures
        list_wf(views(final(groups)@), bound@),
        views(final(groups)@) == tasks_rearranged(views(old(groups)@)),
{
    let mut i: usize = 0;
    while i < groups.len()
        invariant
            i <= groups.len(),
            groups.len() == old(groups).len(),
            forall|j: int|
                0 <= j < i ==> (#[trigger] groups[j])@ == tasks_rearranged(
                    views(old(groups)@),
                )[j],
            forall|j: int| i <= j < groups.len() ==> groups[j] == old(groups)[j],
        decreases groups.len() - i,
    {
        if !groups[i].released {
            groups[i].rearrange_tasks();
        }
        i += 1;
    }
    proof {
        assert(views(groups@) =~= tasks_rearranged(views(old(groups)@)));
        lemma_same_edges_keep_order(views(old(groups)@), views(groups@), bound@);
    }
}

/// Takes the released groups out of the list, and from the groups that stay
/// the edges to them.
fn rearrange_groups_in(groups: &mut Vec<GroupRaw>, bound: Ghost<usize>)
    requires
        list_wf(views(old(groups)@), bound@),
    ensures
        list_wf(views(final(groups)@), bound@),
        views(final(groups)@) == rearranged(views(old(groups)@)),
{
    let ghost graph = views(groups@);
    let mut gone: Vec<usize> = Vec::new();
    let mut i: usize = 0;
    assert(graph.take(0) =~= Seq::<GroupView>::empty());
    reveal(Seq::filter);
    while i < groups.len()
        invariant
            i <= groups.len(),
            graph == views(groups@),
            gone@ == released_ids(graph.take(i as int)),
        decreases groups.len() - i,
    {
        proof {
            let head = graph.take(i as int);
            assert(graph.take(i + 1) =~= head.push(graph[i as int]));
            head.lemma_filter_push(graph[i as int], |g: GroupView| g.released);
            assert(released_ids(head.push(graph[i as int])) =~= if graph[i as int].released {
                released_ids(head).push(graph[i as int].id)
            } else {
                released_ids(head)
            });
            assert(graph[i as int] == groups[i as int]@);
        }
        if groups[i].released {
            gone.push(groups[i].id);
        }
        i += 1;
    }
    assert(graph.take(i as int) =~= graph);

    let mut source: Vec<GroupRaw> = Vec::new();
    std::mem::swap(groups, &mut source);
    assert(views(source@) == graph);
    let mut remained: Vec<GroupRaw> = Vec::new();
    let ghost all = source@;
    for group in it: source
        invariant
            it.seq() == all,
            views(all) == graph,
            views(remained@) == purged_groups(
                live_groups(graph.take(it.index() as int)),
                gone@,
            ),
    {
        let ghost done = it.index() as int;
        let mut group = group;
        proof {
            let head = graph.take(done);
            assert(group@ == graph[done]) by {
                assert(views(all)[done] == all[done]@);
            }
            assert(graph.take(done + 1) =~= head.push(graph[done]));
            head.lemma_filter_push(graph[done], |g: GroupView| !g.released);
        }
        let ghost kept = remained@;
        if !group.released {
            group.purge_chains(&gone);
            remained.push(group);
            proof {
                assert(group@ == purged_group(graph[done], gone@));
                assert(live_groups(graph.take(done + 1)) == live_groups(graph.take(done)).push(
                    graph[done],
                ));
                assert(views(remained@) =~= views(kept).push(group@));
                assert(views(remained@) =~= purged_groups(
                    live_groups(graph.take(done + 1)),
                    gone@,
                ));
            }
        }
    }
    assert(graph.take(graph.len() as int) =~= graph);
    *groups = remained;
    proof {
        lemma_rearranged_keeps_order(graph, bound@);
    }
}

/// Chaining two groups a second time is refused, whichever of the two asks
/// and in whichever direction: once `caller` has been chained with `other`,
/// each of them is refused the other with `InvalidChaining`.
pub proof fn lemma_chained_twice_is_refused(graph: Seq<GroupView>, caller: usize, other: usize)
    requires
        graph_wf(graph),
        chain_outcome(graph, caller, other) is Ok,
    ensures
        chain_outcome(linked(graph, caller, other), caller, other) == Err::<(), TaskError>(
            TaskError::InvalidChaining,
        ),
        chain_outcome(linked(graph, caller, other), other, caller) == Err::<(), TaskError>(
            TaskError::InvalidChaining,
        ),
        chain_outcome(linked(graph, other, caller), caller, other) == Err::<(), TaskError>(
            TaskError::InvalidChaining,
        ),
        chain_outcome(linked(graph, other, caller), other, caller) == Err::<(), TaskError>(
            TaskError::InvalidChaining,
        ),
{
    let a = choose|i: int| 0 <= i < graph.len() && (#[trigger] graph[i]).id == caller && !graph[i].released;
    let b = choose|i: int| 0 <= i < graph.len() && (#[trigger] graph[i]).id == other && !graph[i].released;
    let forth = linked(graph, caller, other);
    let back = linked(graph, other, caller);
    lemma_push_contains(graph[a].successors, GroupHandle { id: other }, GroupHandle { id: other });
    lemma_push_contains(graph[b].predecessors, GroupHandle { id: caller }, GroupHandle { id: caller });
    lemma_push_contains(graph[b].successors, GroupHandle { id: caller }, GroupHandle { id: caller });
    lemma_push_contains(graph[a].predecessors, GroupHandle { id: other }, GroupHandle { id: other });
    assert(forth[a].id == caller && !forth[a].released && mentions(forth[a], other));
    assert(forth[b].id == other && !forth[b].released && mentions(forth[b], caller));
    assert(back[a].id == caller && !back[a].released && mentions(back[a], other));
    assert(back[b].id == other && !back[b].released && mentions(back[b], caller));
}

/// Rearranging the groups a second time changes nothing.
pub proof fn lemma_rearranged_twice(graph: Seq<GroupView>)
    ensures
        rearranged(rearranged(graph)) == rearranged(graph),
{
    let once = rearranged(graph);
    let live = |g: GroupView| !g.released;
    let dead = |g: GroupView| g.released;
    assert forall|k: int| 0 <= k < once.len() implies live(#[trigger] once[k]) by {
        let i = lemma_live_group_is_member(graph, k);
    }
    lemma_filter_all(once, live);
    assert forall|k: int| 0 <= k < once.len() implies !dead(#[trigger] once[k]) by {
        assert(live(once[k]));
    }
    lemma_filter_none(once, dead);
    let gone = released_ids(once);
    assert(gone.len() == 0);
    assert forall|k: int| 0 <= k < once.len() implies purged_group(#[trigger] once[k], gone)
        == once[k] by {
        let kept = |h: GroupHandle| !gone.contains(h.id);
        lemma_filter_all(once[k].predecessors, kept);
        lemma_filter_all(once[k].successors, kept);
    }
    assert(rearranged(once) =~= once);
}

/// Rearranging the tasks a second time changes nothing.
pub proof fn lemma_tasks_rearranged_twice(graph: Seq<GroupView>)
    ensures
        tasks_rearranged(tasks_rearranged(graph)) == tasks_rearranged(graph),
{
    let once = tasks_rearranged(graph);
    let live = |h: TaskHandle| !h.released();
    assert forall|k: int| 0 <= k < once.len() implies #[trigger] tasks_rearranged(once)[k]
        == once[k] by {
        if !graph[k].released {
            let kept = live_tasks(graph[k].tasks);
            assert forall|m: int| 0 <= m < kept.len() implies live(#[trigger] kept[m]) by {
                graph[k].tasks.lemma_filter_pred(live, m);
            }
            lemma_filter_all(kept, live);
        }
    }
    assert(tasks_rearranged(once) =~= once);
}

/// Once the groups are rearranged, nothing is left of a released group: no
/// group that stays has an edge to it, and, in a graph in order, none has
/// its id.
pub proof fn lemma_released_group_is_gone(graph: Seq<GroupView>, id: usize, k: int)
    requires
        released_ids(graph).contains(id),
        0 <= k < rearranged(graph).len(),
    ensures
        !mentions(rearranged(graph)[k], id),
        graph_wf(graph) ==> rearranged(graph)[k].id != id,
{
    let gone = released_ids(graph);
    let i = lemma_live_group_is_member(graph, k);
    lemma_purged_chain_holds(graph[i].predecessors, gone, GroupHandle { id });
    lemma_purged_chain_holds(graph[i].successors, gone, GroupHandle { id });
    lemma_released_ids_hold(graph, id);
}

impl GroupManager {
    /// Whether the precedence edges between the live groups form a cycle. The
    /// groups on a cycle wait for each other: a plan with a cycle cannot be
    /// run to its end.
    pub fn is_cyclic(&self) -> (cyclic: bool)
        requires
            crate::topology::plan_fits(self.graph()),
        ensures
            cyclic == !crate::topology::acyclic(crate::topology::frozen(self.graph()).nodes),
    {
        proof {
            use_type_invariant(self);
        }
        match crate::topology::Topology::new_from(&self.groups) {
            Ok(topology) => topology.is_cyclic(),
            Err(_) => {
                proof {
                    let alive = |g: GroupView| !g.released;
                    lemma_filter_none(self.graph(), alive);
                    let nodes = crate::topology::frozen(self.graph()).nodes;
                    assert(crate::topology::is_ranking(nodes, Seq::<nat>::empty()));
                }
                false
            },
        }
    }
}

/// Once a task is released, no handle to it resolves: the manager holds the
/// task no more, whatever handles were taken before and wherever they are
/// kept.
pub proof fn lemma_released_task_is_gone(alive: Seq<usize>, id: usize)
    requires
        id != 0,
    ensures
        !task_is_live(alive.filter(|held: usize| held != id), id),
        forall|other: usize|
            other != id ==> task_is_live(alive.filter(|held: usize| held != id), other)
                == task_is_live(alive, other),
{
    let rest = |held: usize| held != id;
    crate::lists::lemma_filter_holds(alive, rest, id);
    assert forall|other: usize| other != id implies task_is_live(alive.filter(rest), other)
        == task_is_live(alive, other) by {
        crate::lists::lemma_filter_holds(alive, rest, other);
    }
}

/// The handles that the groups of a manager hold tell of their tasks what
/// the manager tells: a handle bears the mark of a released task just when
/// its task is released.
pub proof fn lemma_stored_handles_tell(
    graph: Seq<GroupView>,
    alive: Seq<usize>,
    bound: usize,
    at: int,
    m: int,
)
    requires
        tasks_wf(graph, alive, bound),
        0 <= at < graph.len(),
        0 <= m < graph[at].tasks.len(),
    ensures
        graph[at].tasks[m].released() <==> !task_is_live(alive, graph[at].tasks[m].ident()),
{
    assert(0 < graph[at].tasks[m].ident());
}

} // verus!
