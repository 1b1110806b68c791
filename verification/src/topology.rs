//! The frozen plan: what the graph of groups looks like at the moment it is
//! handed to a worker.
use crate::error::TaskError;
use crate::group::graph_wf;
use crate::group::GroupHandle;
use crate::group::GroupList;
use crate::group::GroupRaw;
use crate::group::GroupView;
use crate::group::lemma_live_group_is_member;
use crate::group::lemma_purged_chain_holds;
use crate::group::lemma_released_ids_hold;
use crate::group::live_groups;
use crate::group::live_tasks;
use crate::group::rearranged;
use crate::group::released_ids;
use crate::group::tasks_rearranged;
use crate::group::views;
use crate::lists::lemma_filter_agree;
use crate::lists::lemma_filter_all;
use crate::lists::lemma_filter_keeps_distinct;
use crate::lists::lemma_filter_map_after_filter;
use crate::lists::lemma_filter_map_agree;
use crate::lists::lemma_filter_map_holds;
use crate::lists::lemma_filter_map_no_repeats;
use crate::task::TaskHandle;
use vstd::prelude::*;

verus! {

/// One task of a plan: the task's handle, the place of the group node that
/// owns it in the plan's list of nodes, and the task's place in that node's
/// list of tasks.
pub struct TaskNode {
    pub handle: TaskHandle,
    pub group_node: usize,
    pub index: usize,
}

impl TaskNode {
    /// Create new task node.
    pub fn new(handle: TaskHandle, group_node: usize, index: usize) -> (node: Self)
        ensures
            node == (TaskNode { handle, group_node, index }),
    {
        TaskNode { handle, group_node, index }
    }

    /// Calls the task, unless it has been released, before the freeze or
    /// after.
    pub fn invoke(&self) {
        if !self.handle.is_gone() {
            self.handle.data().call();
        }
    }

    /// A second node for the same task.
    pub fn duplicate(&self) -> (copy: Self)
        ensures
            copy == *self,
    {
        TaskNode {
            handle: self.handle.duplicate(),
            group_node: self.group_node,
            index: self.index,
        }
    }
}

/// One group of a plan.
pub struct GroupNode {
    handle: GroupHandle,
    task_nodes: Vec<TaskNode>,
    remained_task_cnt: u32,
    successor_nodes: Vec<usize>,
    remained_predecessor_cnt: u32,
}

/// What a group node is to the contracts of this crate.
pub ghost struct NodeView {
    /// The group that the node stands for.
    pub group: GroupHandle,
    /// The node's tasks, in the order in which they are enqueued.
    pub tasks: Seq<TaskNode>,
    /// How many of the node's tasks have not completed.
    pub remaining_tasks: u32,
    /// The places of the nodes that run after this one.
    pub successors: Seq<usize>,
    /// How many of the nodes that run before this one have not completed.
    pub remaining_predecessors: u32,
}

impl View for GroupNode {
    type V = NodeView;

    closed spec fn view(&self) -> NodeView {
        NodeView {
            group: self.handle,
            tasks: self.task_nodes@,
            remaining_tasks: self.remained_task_cnt,
            successors: self.successor_nodes@,
            remaining_predecessors: self.remained_predecessor_cnt,
        }
    }
}

/// The counter that follows `count` when it is decreased by one; below zero
/// it wraps, as a machine counter does.
pub open spec fn decreased(count: u32) -> u32 {
    if count == 0 {
        u32::MAX
    } else {
        (count - 1) as u32
    }
}

impl GroupNode {
    /// Create new group node, without tasks and without successors.
    pub fn new(handle: GroupHandle) -> (node: Self)
        ensures
            node@ == (NodeView {
                group: handle,
                tasks: Seq::empty(),
                remaining_tasks: 0,
                successors: Seq::empty(),
                remaining_predecessors: 0,
            }),
    {
        GroupNode {
            handle,
            task_nodes: Vec::new(),
            remained_task_cnt: 0,
            successor_nodes: Vec::new(),
            remained_predecessor_cnt: 0,
        }
    }

    /// Check group node is ready to being processed.
    pub fn is_ready(&self) -> (ready: bool)
        ensures
            ready == (self@.remaining_predecessors == 0),
    {
        self.remained_predecessor_cnt == 0
    }

    /// Increase remained predecessor count by 1 and return last value.
    pub fn increase_predecessor_count(&mut self) -> (last: u32)
        requires
            old(self)@.remaining_predecessors < u32::MAX,
        ensures
            last == old(self)@.remaining_predecessors,
            final(self)@ == (NodeView { remaining_predecessors: (last + 1) as u32, ..old(self)@ }),
    {
        let last = self.remained_predecessor_cnt;
        self.remained_predecessor_cnt = last + 1;
        last
    }

    /// Decrease remained predecessor count by 1 and return last value.
    pub fn decrease_predecessor_count(&mut self) -> (last: u32)
        ensures
            last == old(self)@.remaining_predecessors,
            final(self)@ == (NodeView { remaining_predecessors: decreased(last), ..old(self)@ }),
    {
        let last = self.remained_predecessor_cnt;
        self.remained_predecessor_cnt = last.wrapping_sub(1);
        last
    }

    /// Get remained task count.
    pub fn task_count(&self) -> (count: u32)
        ensures
            count == self@.remaining_tasks,
    {
        self.remained_task_cnt
    }

    /// Decrease remained task count by 1 and return last value.
    pub fn decrease_task_count(&mut self) -> (last: u32)
        ensures
            last == old(self)@.remaining_tasks,
            final(self)@ == (NodeView { remaining_tasks: decreased(last), ..old(self)@ }),
    {
        let last = self.remained_task_cnt;
        self.remained_task_cnt = last.wrapping_sub(1);
        last
    }

    /// The group that the node stands for.
    pub fn handle(&self) -> (handle: GroupHandle)
        ensures
            handle == self@.group,
    {
        self.handle
    }

    /// The node's tasks.
    pub fn task_nodes(&self) -> (tasks: &Vec<TaskNode>)
        ensures
            tasks@ == self@.tasks,
    {
        &self.task_nodes
    }

    /// The places of the nodes that run after this one.
    pub fn successor_nodes(&self) -> (successors: &Vec<usize>)
        ensures
            successors@ == self@.successors,
    {
        &self.successor_nodes
    }

    /// A second node with the same content.
    pub fn duplicate(&self) -> (copy: Self)
        ensures
            copy@ == self@,
    {
        let mut task_nodes: Vec<TaskNode> = Vec::new();
        let mut k: usize = 0;
        while k < self.task_nodes.len()
            invariant
                k <= self.task_nodes.len(),
                task_nodes@ == self.task_nodes@.take(k as int),
            decreases self.task_nodes.len() - k,
        {
            task_nodes.push(self.task_nodes[k].duplicate());
            assert(task_nodes@ =~= self.task_nodes@.take(k + 1));
            k += 1;
        }
        assert(self.task_nodes@.take(k as int) =~= self.task_nodes@);
        let mut successor_nodes: Vec<usize> = Vec::new();
        let mut m: usize = 0;
        while m < self.successor_nodes.len()
            invariant
                m <= self.successor_nodes.len(),
                successor_nodes@ == self.successor_nodes@.take(m as int),
            decreases self.successor_nodes.len() - m,
        {
            successor_nodes.push(self.successor_nodes[m]);
            assert(successor_nodes@ =~= self.successor_nodes@.take(m + 1));
            m += 1;
        }
        assert(self.successor_nodes@.take(m as int) =~= self.successor_nodes@);
        GroupNode {
            handle: self.handle,
            task_nodes,
            remained_task_cnt: self.remained_task_cnt,
            successor_nodes,
            remained_predecessor_cnt: self.remained_predecessor_cnt,
        }
    }
}

/// The views of a list of nodes, in the list's order.
pub open spec fn node_views(nodes: Seq<GroupNode>) -> Seq<NodeView> {
    nodes.map_values(|n: GroupNode| n@)
}

/// The places `0`, `1`, ... below `n`, in rising order.
pub open spec fn places(n: nat) -> Seq<usize> {
    Seq::new(n, |k: int| k as usize)
}

/// The task nodes of the group `group` when its node stands at `at`: one for
/// each live task, in the order of the group's list; where the group has no
/// live task, one for its placeholder task.
pub open spec fn node_tasks(group: GroupView, at: usize) -> Seq<TaskNode> {
    let live = live_tasks(group.tasks);
    if live.len() == 0 {
        seq![TaskNode { handle: group.sentinel, group_node: at, index: 0 }]
    } else {
        numbered(live, at)
    }
}

/// A task node for each handle of a list, for the group node at `at`.
pub open spec fn numbered(handles: Seq<TaskHandle>, at: usize) -> Seq<TaskNode> {
    Seq::new(
        handles.len(),
        |m: int| TaskNode { handle: handles[m], group_node: at, index: m as usize },
    )
}

/// Whether, among the groups `live`, the one at `from` names the one at `to`
/// as a successor.
pub open spec fn is_edge(live: Seq<GroupView>, from: int, to: int) -> bool {
    live[from].successors.contains(GroupHandle { id: live[to].id })
}

/// The ids of a list of groups, in the list's order.
pub open spec fn ids_of(live: Seq<GroupView>) -> Seq<usize> {
    live.map_values(|g: GroupView| g.id)
}

/// The first place at which an id stands in a list of ids, if it stands
/// there.
pub open spec fn first_place(ids: Seq<usize>, id: usize) -> Option<usize> {
    match ids.index_of_first(id) {
        Some(at) => Some(at as usize),
        None => None,
    }
}

/// The place, among the groups `live`, of the group that a handle names, if
/// it names one of them.
pub open spec fn place_of(live: Seq<GroupView>, handle: GroupHandle) -> Option<usize> {
    first_place(ids_of(live), handle.id)
}

/// Whether the edges between the groups `live` can be frozen: no two groups
/// have the same id, and no group names a successor twice. So it is in every
/// graph in order.
pub open spec fn edges_in_order(live: Seq<GroupView>) -> bool {
    &&& forall|i: int, j: int|
        0 <= i < j < live.len() ==> (#[trigger] live[i]).id != (#[trigger] live[j]).id
    &&& forall|k: int| 0 <= k < live.len() ==> (#[trigger] live[k]).successors.no_duplicates()
}

/// The places below `bound` of the groups that name the group at `to` as a
/// successor, in rising order.
pub open spec fn edges_into(live: Seq<GroupView>, to: int, bound: nat) -> Seq<usize> {
    places(bound).filter(|from: usize| is_edge(live, from as int, to))
}

/// The places of the groups that the group at `from` names as successors,
/// in the order in which its list of successors names them. A handle that
/// names none of the groups `live` gives no place.
pub open spec fn successors_of(live: Seq<GroupView>, from: int) -> Seq<usize> {
    live[from].successors.filter_map(|h: GroupHandle| place_of(live, h))
}

/// The places of the groups that name the group at `to` as a successor, in
/// rising order.
pub open spec fn predecessors_of(live: Seq<GroupView>, to: int) -> Seq<usize> {
    edges_into(live, to, live.len())
}

/// The node of the group at `at` among the groups `live`, at the moment of
/// the freeze.
pub open spec fn frozen_node(live: Seq<GroupView>, at: int) -> NodeView {
    NodeView {
        group: GroupHandle { id: live[at].id },
        tasks: node_tasks(live[at], at as usize),
        remaining_tasks: node_tasks(live[at], at as usize).len() as u32,
        successors: successors_of(live, at),
        remaining_predecessors: predecessors_of(live, at).len() as u32,
    }
}

/// The node of a group before its edges are written: the tasks are there,
/// the successors are not, and it waits for no predecessor.
pub open spec fn bare_node(group: GroupView, at: int) -> NodeView {
    NodeView {
        group: GroupHandle { id: group.id },
        tasks: node_tasks(group, at as usize),
        remaining_tasks: node_tasks(group, at as usize).len() as u32,
        successors: Seq::empty(),
        remaining_predecessors: 0,
    }
}

/// The nodes of the groups `live` before their edges are written.
pub open spec fn bare_nodes(live: Seq<GroupView>) -> Seq<NodeView> {
    Seq::new(live.len(), |at: int| bare_node(live[at], at))
}

/// The nodes of the groups `live`, in their order.
pub open spec fn frozen_nodes(live: Seq<GroupView>) -> Seq<NodeView> {
    Seq::new(live.len(), |at: int| frozen_node(live, at))
}

/// The number of task nodes in a list of nodes.
pub open spec fn total_tasks(nodes: Seq<NodeView>) -> nat
    decreases nodes.len(),
{
    if nodes.len() == 0 {
        0
    } else {
        total_tasks(nodes.drop_last()) + nodes.last().tasks.len()
    }
}

/// The places below `bound` of the nodes that wait for no predecessor, in
/// rising order.
pub open spec fn roots_below(nodes: Seq<NodeView>, bound: nat) -> Seq<usize> {
    places(bound).filter(|at: usize| nodes[at as int].remaining_predecessors == 0)
}

/// The places of the nodes that wait for no predecessor, in rising order.
pub open spec fn root_places(nodes: Seq<NodeView>) -> Seq<usize> {
    roots_below(nodes, nodes.len())
}

/// Whether every group of the graph has been released; so it is where the
/// graph is empty.
pub open spec fn no_live_group(graph: Seq<GroupView>) -> bool {
    forall|i: int| 0 <= i < graph.len() ==> (#[trigger] graph[i]).released
}

/// What a plan is to the contracts of this crate.
pub ghost struct PlanView {
    /// The group nodes, one for each live group, in the order of the list
    /// that the plan was built from.
    pub nodes: Seq<NodeView>,
    /// The number of task nodes.
    pub task_count: usize,
    /// The places of the nodes that wait for no predecessor.
    pub roots: Seq<usize>,
}

/// Whether `task` is a task node of the plan, found where it says it stands.
pub open spec fn is_task_of(nodes: Seq<NodeView>, task: TaskNode) -> bool {
    &&& task.group_node < nodes.len()
    &&& task.index < nodes[task.group_node as int].tasks.len()
    &&& nodes[task.group_node as int].tasks[task.index as int] == task
}

/// The number of nodes that name the node at `to` as a successor.
pub open spec fn in_degree(nodes: Seq<NodeView>, to: int) -> nat {
    places(nodes.len()).filter(
        |from: usize| nodes[from as int].successors.contains(to as usize),
    ).len()
}

/// Whether every task of the node at `at` says where it stands.
pub open spec fn tasks_placed(nodes: Seq<NodeView>, at: int) -> bool {
    forall|m: int|
        0 <= m < nodes[at].tasks.len() ==> (#[trigger] nodes[at].tasks[m]).group_node == at
            && nodes[at].tasks[m].index == m
}

/// The node at `at` is as the freeze leaves it: it has a task; it counts all
/// its tasks as remaining; each task says where it stands; its successors
/// are nodes of the plan, none named twice; and it counts as remaining
/// predecessors the nodes that name it as a successor.
pub open spec fn node_wf(nodes: Seq<NodeView>, at: int) -> bool {
    let node = nodes[at];
    &&& node.tasks.len() >= 1
    &&& node.remaining_tasks == node.tasks.len()
    &&& tasks_placed(nodes, at)
    &&& forall|m: int| 0 <= m < node.successors.len() ==> (#[trigger] node.successors[m]) < nodes.len()
    &&& node.successors.no_duplicates()
    &&& node.remaining_predecessors == in_degree(nodes, at)
}

impl PlanView {
    /// The plan is as the freeze leaves it: every node is; the task count is
    /// the number of task nodes; and the roots are the nodes that wait for
    /// no predecessor.
    pub open spec fn wf(self) -> bool {
        &&& self.nodes.len() <= usize::MAX
        &&& forall|at: int| 0 <= at < self.nodes.len() ==> node_wf(self.nodes, at)
        &&& self.task_count == total_tasks(self.nodes)
        &&& self.roots == root_places(self.nodes)
    }
}

/// Whether `rank` gives every node a number below the numbers of its
/// successors.
pub open spec fn is_ranking(nodes: Seq<NodeView>, rank: Seq<nat>) -> bool {
    &&& rank.len() == nodes.len()
    &&& forall|from: int, m: int|
        0 <= from < nodes.len() && 0 <= m < nodes[from].successors.len() ==> rank[from] < rank[(
        #[trigger] nodes[from].successors[m]) as int]
}

/// Whether the edges of the plan form no cycle: the nodes can be numbered so
/// that every edge leads to a higher number.
pub open spec fn acyclic(nodes: Seq<NodeView>) -> bool {
    exists|rank: Seq<nat>| is_ranking(nodes, rank)
}

/// The plan of a graph: a node for each live group, the edges between live
/// groups, the number of tasks and the roots.
pub open spec fn frozen(graph: Seq<GroupView>) -> PlanView {
    let nodes = frozen_nodes(live_groups(graph));
    PlanView { nodes, task_count: total_tasks(nodes) as usize, roots: root_places(nodes) }
}

/// Whether the counters of the plan of `graph` fit the machine: the nodes
/// and the tasks of each node can be counted in 32 bits, and all tasks in a
/// `usize`.
pub open spec fn plan_fits(graph: Seq<GroupView>) -> bool {
    let live = live_groups(graph);
    &&& live.len() <= u32::MAX
    &&& forall|at: int| 0 <= at < live.len() ==> live_tasks((#[trigger] live[at]).tasks).len() <= u32::MAX
    &&& total_tasks(frozen_nodes(live)) <= usize::MAX
}

/// Represents executable task group unit.
pub struct Topology {
    group_nodes: Vec<GroupNode>,
    task_count: usize,
    root_groups: Vec<usize>,
}

impl View for Topology {
    type V = PlanView;

    closed spec fn view(&self) -> PlanView {
        PlanView {
            nodes: node_views(self.group_nodes@),
            task_count: self.task_count,
            roots: self.root_groups@,
        }
    }
}

impl Topology {
    /// Every plan is as the freeze leaves it.
    #[verifier::type_invariant]
    spec fn inv(&self) -> bool {
        self@.wf()
    }

    /// Create empty topology.
    pub fn new() -> (topology: Self)
        ensures
            topology@ == (PlanView { nodes: Seq::empty(), task_count: 0, roots: Seq::empty() }),
    {
        proof {
            reveal(Seq::filter);
            assert(places(0) =~= Seq::<usize>::empty());
            assert(node_views(Seq::<GroupNode>::empty()) =~= Seq::<NodeView>::empty());
        }
        let topology = Topology { group_nodes: Vec::new(), task_count: 0, root_groups: Vec::new() };
        assert(topology@.nodes =~= Seq::empty());
        topology
    }

    /// The number of task nodes.
    pub fn task_count(&self) -> (count: usize)
        ensures
            count == self@.task_count,
    {
        self.task_count
    }

    /// The places of the nodes that wait for no predecessor.
    pub fn root_groups(&self) -> (roots: &Vec<usize>)
        ensures
            roots@ == self@.roots,
    {
        &self.root_groups
    }

    /// The group nodes. They are as the freeze left them, as the whole plan
    /// is.
    pub fn group_nodes(&self) -> (nodes: &Vec<GroupNode>)
        ensures
            node_views(nodes@) == self@.nodes,
            self@.wf(),
    {
        proof {
            use_type_invariant(self);
        }
        &self.group_nodes
    }
}

/// The places below `bound + 1` are the places below `bound` and `bound`.
proof fn lemma_places_step(bound: nat)
    ensures
        places(bound + 1) == places(bound).push(bound as usize),
{
    assert(places(bound + 1) =~= places(bound).push(bound as usize));
}

/// The live groups of the first groups of a graph are the first live groups
/// of the graph.
proof fn lemma_live_groups_prefix(graph: Seq<GroupView>, upto: int)
    requires
        0 <= upto <= graph.len(),
    ensures
        live_groups(graph.take(upto)).len() <= live_groups(graph).len(),
        live_groups(graph.take(upto)) == live_groups(graph).take(
            live_groups(graph.take(upto)).len() as int,
        ),
{
    let pred = |g: GroupView| !g.released;
    assert(graph =~= graph.take(upto) + graph.skip(upto));
    Seq::filter_distributes_over_add(graph.take(upto), graph.skip(upto), pred);
    assert(live_groups(graph) == live_groups(graph.take(upto)) + live_groups(graph.skip(upto)));
    assert(live_groups(graph.take(upto)) =~= live_groups(graph).take(
        live_groups(graph.take(upto)).len() as int,
    ));
}

/// The first nodes of a list hold no more tasks than the list.
proof fn lemma_total_tasks_prefix(nodes: Seq<NodeView>, upto: int)
    requires
        0 <= upto <= nodes.len(),
    ensures
        total_tasks(nodes.take(upto)) <= total_tasks(nodes),
    decreases nodes.len(),
{
    if upto == nodes.len() {
        assert(nodes.take(upto) =~= nodes);
    } else {
        lemma_total_tasks_prefix(nodes.drop_last(), upto);
        assert(nodes.drop_last().take(upto) =~= nodes.take(upto));
    }
}

/// The number of tasks after a node has joined the list.
proof fn lemma_total_tasks_push(nodes: Seq<NodeView>, node: NodeView)
    ensures
        total_tasks(nodes.push(node)) == total_tasks(nodes) + node.tasks.len(),
{
    assert(nodes.push(node).drop_last() =~= nodes);
}

/// Whether a graph holds no live group.
fn all_released(groups: &GroupList) -> (none: bool)
    ensures
        none == no_live_group(views(groups@)),
{
    let mut i: usize = 0;
    while i < groups.len()
        invariant
            i <= groups.len(),
            forall|j: int| 0 <= j < i ==> (#[trigger] views(groups@)[j]).released,
        decreases groups.len() - i,
    {
        if !groups[i].is_released() {
            assert(!views(groups@)[i as int].released);
            return false;
        }
        i += 1;
    }
    true
}

/// The task nodes of a group whose node stands at `at`.
fn task_nodes_of(group: &GroupRaw, at: usize) -> (nodes: Vec<TaskNode>)
    ensures
        nodes@ == node_tasks(group@, at),
{
    let tasks = group.tasks();
    let mut nodes: Vec<TaskNode> = Vec::new();
    let mut k: usize = 0;
    assert(tasks@.take(0) =~= Seq::<TaskHandle>::empty());
    reveal(Seq::filter);
    while k < tasks.len()
        invariant
            k <= tasks.len(),
            tasks@ == group@.tasks,
            nodes@ == numbered(live_tasks(tasks@.take(k as int)), at),
        decreases tasks.len() - k,
    {
        proof {
            let head = tasks@.take(k as int);
            assert(tasks@.take(k + 1) =~= head.push(tasks@[k as int]));
            head.lemma_filter_push(tasks@[k as int], |h: TaskHandle| !h.released());
        }
        if !tasks[k].is_marked() {
            let index = nodes.len();
            nodes.push(TaskNode::new(tasks[k].duplicate(), at, index));
            assert(nodes@ =~= numbered(live_tasks(tasks@.take(k + 1)), at));
        }
        k += 1;
    }
    assert(tasks@.take(k as int) =~= tasks@);
    if nodes.len() == 0 {
        nodes.push(TaskNode::new(group.handle_of_empty_task(), at, 0));
        assert(nodes@ =~= seq![TaskNode { handle: group@.sentinel, group_node: at, index: 0 }]);
    }
    nodes
}

/// Two lists of nodes with the same tasks hold the same number of tasks.
proof fn lemma_total_tasks_same(a: Seq<NodeView>, b: Seq<NodeView>)
    requires
        a.len() == b.len(),
        forall|k: int| 0 <= k < a.len() ==> (#[trigger] a[k]).tasks == b[k].tasks,
    ensures
        total_tasks(a) == total_tasks(b),
    decreases a.len(),
{
    if a.len() > 0 {
        assert(a.last().tasks == b.last().tasks);
        assert forall|k: int| 0 <= k < a.drop_last().len() implies (#[trigger] a.drop_last()[k]).tasks
            == b.drop_last()[k].tasks by {
            assert(a[k].tasks == b[k].tasks);
        }
        lemma_total_tasks_same(a.drop_last(), b.drop_last());
    }
}

/// While the nodes of the first groups are written, the count of their
/// tasks stays within what the whole plan holds.
proof fn lemma_bare_total_bounded(graph: Seq<GroupView>, upto: int)
    requires
        0 <= upto <= graph.len(),
    ensures
        total_tasks(bare_nodes(live_groups(graph.take(upto)))) <= total_tasks(
            frozen_nodes(live_groups(graph)),
        ),
{
    let part = live_groups(graph.take(upto));
    let live = live_groups(graph);
    lemma_live_groups_prefix(graph, upto);
    let all = bare_nodes(live);
    assert(bare_nodes(part) =~= all.take(part.len() as int));
    lemma_total_tasks_prefix(all, part.len() as int);
    lemma_total_tasks_same(all, frozen_nodes(live));
}

/// Where an id stands first in a list of ids.
pub proof fn lemma_first_place(ids: Seq<usize>, id: usize)
    requires
        ids.len() <= usize::MAX,
    ensures
        match first_place(ids, id) {
            Some(at) => at < ids.len() && ids[at as int] == id && forall|j: int|
                0 <= j < at ==> ids[j] != id,
            None => forall|j: int| 0 <= j < ids.len() ==> ids[j] != id,
        },
{
    ids.index_of_first_ensures(id);
    if first_place(ids, id) is None {
        assert forall|j: int| 0 <= j < ids.len() implies ids[j] != id by {
            if ids[j] == id {
                assert(ids.contains(id));
            }
        }
    }
}

/// Among groups with ids of their own, a handle names the group that has its
/// id.
proof fn lemma_place_of(live: Seq<GroupView>, handle: GroupHandle, at: usize)
    requires
        edges_in_order(live),
        live.len() <= usize::MAX,
    ensures
        place_of(live, handle) == Some(at) <==> (at < live.len() && live[at as int].id
            == handle.id),
{
    let ids = ids_of(live);
    lemma_first_place(ids, handle.id);
    if at < live.len() && live[at as int].id == handle.id {
        assert(ids[at as int] == handle.id);
        match first_place(ids, handle.id) {
            Some(found) => {
                assert(ids[found as int] == live[found as int].id);
                if found < at {
                    assert(live[found as int].id != live[at as int].id);
                } else if at < found {
                    assert(live[at as int].id != live[found as int].id);
                }
            },
            None => {},
        }
    }
}

/// The live groups of a graph in order have edges that can be frozen.
pub proof fn lemma_live_edges_in_order(graph: Seq<GroupView>)
    requires
        graph_wf(graph),
    ensures
        edges_in_order(live_groups(graph)),
{
    let live = live_groups(graph);
    let id_of = |g: GroupView| g.id;
    assert forall|i: int, j: int| 0 <= i < j < graph.len() implies id_of(#[trigger] graph[i])
        != id_of(#[trigger] graph[j]) by {}
    lemma_filter_keeps_distinct(graph, |g: GroupView| !g.released, id_of);
    assert forall|i: int, j: int| 0 <= i < j < live.len() implies (#[trigger] live[i]).id != (
    #[trigger] live[j]).id by {
        assert(id_of(live[i]) != id_of(live[j]));
    }
    assert forall|k: int| 0 <= k < live.len() implies (
    #[trigger] live[k]).successors.no_duplicates() by {
        let i = lemma_live_group_is_member(graph, k);
        assert(crate::group::chains_wf(graph[i]));
    }
}

/// What the first successors of a frozen node hold: the places of the groups
/// that the first `upto` handles of the group's list name, none twice.
proof fn lemma_successors_so_far(live: Seq<GroupView>, from: int, upto: int, to: usize)
    requires
        edges_in_order(live),
        0 <= from < live.len(),
        live.len() <= usize::MAX,
        0 <= upto <= live[from].successors.len(),
    ensures
        live[from].successors.take(upto).filter_map(
            |h: GroupHandle| place_of(live, h),
        ).no_duplicates(),
        live[from].successors.take(upto).filter_map(|h: GroupHandle| place_of(live, h)).contains(
            to,
        ) <==> (to < live.len() && live[from].successors.take(upto).contains(
            GroupHandle { id: live[to as int].id },
        )),
{
    let list = live[from].successors.take(upto);
    let f = |h: GroupHandle| place_of(live, h);
    assert(live[from].successors.no_duplicates());
    assert forall|i: int, j: int| 0 <= i < j < list.len() && f(list[i]) is Some implies f(
        #[trigger] list[i],
    ) != f(#[trigger] list[j]) by {
        let at = f(list[i])->0;
        lemma_place_of(live, list[i], at);
        lemma_place_of(live, list[j], at);
        assert(list[i] == live[from].successors[i] && list[j] == live[from].successors[j]);
    }
    lemma_filter_map_no_repeats(list, f);
    lemma_filter_map_holds(list, f, to);
    let named = GroupHandle { id: live[to as int].id };
    if list.filter_map(f).contains(to) {
        let i = choose|i: int| 0 <= i < list.len() && f(#[trigger] list[i]) == Some(to);
        lemma_place_of(live, list[i], to);
        assert(list[i] == named);
    }
    if to < live.len() && list.contains(named) {
        let i = choose|i: int| 0 <= i < list.len() && list[i] == named;
        lemma_place_of(live, list[i], to);
    }
}

/// What the successors of a frozen node hold: the places of the groups that
/// its group names, each once.
proof fn lemma_frozen_successors(live: Seq<GroupView>, from: int, to: usize)
    requires
        edges_in_order(live),
        0 <= from < live.len(),
        live.len() <= usize::MAX,
    ensures
        successors_of(live, from).contains(to) <==> (to < live.len() && is_edge(
            live,
            from,
            to as int,
        )),
        successors_of(live, from).no_duplicates(),
        forall|m: int|
            0 <= m < successors_of(live, from).len() ==> (#[trigger] successors_of(live, from)[m])
                < live.len(),
{
    let list = live[from].successors;
    assert(list.take(list.len() as int) =~= list);
    lemma_successors_so_far(live, from, list.len() as int, to);
    let kept = successors_of(live, from);
    assert forall|m: int| 0 <= m < kept.len() implies (#[trigger] kept[m]) < live.len() by {
        assert(kept.contains(kept[m]));
        lemma_successors_so_far(live, from, list.len() as int, kept[m]);
    }
}

/// The freeze invariants: the plan of a graph in order whose counters fit
/// the machine has a task node for every live group; counts for every node
/// exactly the live groups that name it as a successor; counts as many tasks
/// as its nodes hold; lists as roots the nodes that wait for nothing; and
/// names no released group as a successor.
pub proof fn lemma_frozen_is_in_order(graph: Seq<GroupView>)
    requires
        graph_wf(graph),
        plan_fits(graph),
    ensures
        frozen(graph).wf(),
        frozen(graph).nodes.len() == live_groups(graph).len(),
{
    let live = live_groups(graph);
    let nodes = frozen_nodes(live);
    let n = live.len();
    lemma_live_edges_in_order(graph);
    assert forall|at: int| 0 <= at < nodes.len() implies node_wf(nodes, at) by {
        lemma_frozen_successors(live, at, 0);
        let into = |from: usize| is_edge(live, from as int, at);
        let named = |from: usize| nodes[from as int].successors.contains(at as usize);
        assert forall|i: int| 0 <= i < places(n).len() implies named(#[trigger] places(n)[i])
            == into(places(n)[i]) by {
            lemma_frozen_successors(live, i, at as usize);
        }
        lemma_filter_agree(places(n), named, into);
        places(n).lemma_filter_len(into);
    }
}

impl Topology {
    /// Create group node list and total count of tasks to process from the
    /// input, but not chained list. `origin` tells, for each node, where its
    /// group stands in the input.
    fn create_group_nodes(
        groups: &GroupList,
        out: &mut Vec<GroupNode>,
        origin: &mut Vec<usize>,
    ) -> (total: usize)
        requires
            plan_fits(views(groups@)),
        ensures
            node_views(final(out)@) == bare_nodes(live_groups(views(groups@))),
            total == total_tasks(bare_nodes(live_groups(views(groups@)))),
            final(origin)@.len() == live_groups(views(groups@)).len(),
            forall|k: int|
                0 <= k < final(origin)@.len() ==> (#[trigger] final(origin)@[k]) < groups.len()
                    && views(groups@)[final(origin)@[k] as int] == live_groups(views(groups@))[k],
    {
        let ghost graph = views(groups@);
        let mut total: usize = 0;
        out.clear();
        origin.clear();
        let mut g: usize = 0;
        assert(graph.take(0) =~= Seq::<GroupView>::empty());
        reveal(Seq::filter);
        assert(node_views(out@) =~= bare_nodes(live_groups(graph.take(0))));
        while g < groups.len()
            invariant
                g <= groups.len(),
                graph == views(groups@),
                plan_fits(graph),
                node_views(out@) == bare_nodes(live_groups(graph.take(g as int))),
                origin@.len() == live_groups(graph.take(g as int)).len(),
                forall|k: int|
                    0 <= k < origin@.len() ==> (#[trigger] origin@[k]) < g && graph[origin@[k] as int]
                        == live_groups(graph.take(g as int))[k],
                total == total_tasks(bare_nodes(live_groups(graph.take(g as int)))),
            decreases groups.len() - g,
        {
            let ghost head = graph.take(g as int);
            let ghost part = live_groups(head);
            let group = &groups[g];
            proof {
                assert(graph[g as int] == group@);
                assert(graph.take(g + 1) =~= head.push(group@));
                head.lemma_filter_push(group@, |g: GroupView| !g.released);
                lemma_bare_total_bounded(graph, g + 1);
                lemma_live_groups_prefix(graph, g + 1);
            }
            if !group.is_released() {
                let at = out.len();
                let ghost grown = part.push(group@);
                proof {
                    assert(node_views(out@).len() == out@.len());
                    assert(grown == live_groups(graph.take(g + 1)));
                    assert(live_groups(graph)[at as int] == grown[at as int]);
                    assert(bare_nodes(grown) =~= bare_nodes(part).push(bare_node(group@, at as int)));
                    lemma_total_tasks_push(bare_nodes(part), bare_node(group@, at as int));
                }
                let task_nodes = task_nodes_of(group, at);
                assert(task_nodes@.len() <= u32::MAX);
                let count = task_nodes.len();
                let node = GroupNode {
                    handle: GroupHandle { id: group.id() },
                    task_nodes,
                    remained_task_cnt: count as u32,
                    successor_nodes: Vec::new(),
                    remained_predecessor_cnt: 0,
                };
                assert(node@ == bare_node(group@, at as int));
                total = total + count;
                out.push(node);
                origin.push(g);
                proof {
                    assert(node_views(out@) =~= bare_nodes(part).push(node@));
                }
            }
            g += 1;
        }
        assert(graph.take(g as int) =~= graph);
        total
    }
}

/// The node of the group at `at` while the edges are written: those from
/// the groups below `from` are there, and of those from the group at `from`
/// the ones to the groups at `told`.
spec fn partly_chained(live: Seq<GroupView>, at: int, from: nat, told: Seq<usize>) -> NodeView {
    NodeView {
        successors: if at < from {
            successors_of(live, at)
        } else {
            Seq::empty()
        },
        remaining_predecessors: (edges_into(live, at, from).len() + if told.contains(at as usize) {
            1int
        } else {
            0int
        }) as u32,
        ..bare_node(live[at], at)
    }
}

/// The ids of the groups that a list of nodes stands for.
spec fn node_ids(nodes: Seq<NodeView>) -> Seq<usize> {
    nodes.map_values(|n: NodeView| n.group.id)
}

/// Where the node of the group `id` stands in a list of nodes: the first
/// place with that id, if there is one.
fn node_of(nodes: &Vec<GroupNode>, id: usize) -> (at: Option<usize>)
    ensures
        at == first_place(node_ids(node_views(nodes@)), id),
{
    let ghost ids = node_ids(node_views(nodes@));
    let mut k: usize = 0;
    proof {
        assert(node_views(nodes@).len() == nodes@.len());
        assert(ids.len() == nodes.len());
        lemma_first_place(ids, id);
    }
    while k < nodes.len()
        invariant
            k <= nodes.len(),
            ids == node_ids(node_views(nodes@)),
            ids.len() == nodes.len(),
            forall|j: int| 0 <= j < k ==> ids[j] != id,
            match first_place(ids, id) {
                Some(at) => at < ids.len() && ids[at as int] == id && forall|j: int|
                    0 <= j < at ==> ids[j] != id,
                None => forall|j: int| 0 <= j < ids.len() ==> ids[j] != id,
            },
        decreases nodes.len() - k,
    {
        assert(ids[k as int] == nodes@[k as int]@.group.id);
        if nodes[k].handle.id == id {
            return Some(k);
        }
        k += 1;
    }
    None
}

/// The edges into a group from the groups below `bound + 1`.
proof fn lemma_edges_into_step(live: Seq<GroupView>, to: int, bound: nat)
    requires
        bound <= usize::MAX,
    ensures
        edges_into(live, to, bound).len() <= bound,
        edges_into(live, to, bound + 1).len() == edges_into(live, to, bound).len() + if is_edge(
            live,
            bound as int,
            to,
        ) {
            1int
        } else {
            0int
        },
{
    let pred = |from: usize| is_edge(live, from as int, to);
    lemma_places_step(bound);
    places(bound).lemma_filter_push(bound as usize, pred);
    places(bound).lemma_filter_len(pred);
}

impl Topology {
    /// Writes the nodes of the live groups of a list, with their edges, into
    /// `out`, and returns the number of their tasks. The successors of a
    /// node are written in the order in which its group names them.
    fn fill_from_list(groups: &GroupList, out: &mut Vec<GroupNode>) -> (total: usize)
        requires
            graph_wf(views(groups@)),
            plan_fits(views(groups@)),
        ensures
            node_views(final(out)@) == frozen_nodes(live_groups(views(groups@))),
            total == total_tasks(frozen_nodes(live_groups(views(groups@)))),
    {
        let ghost graph = views(groups@);
        let ghost live = live_groups(graph);
        let ghost empty = Seq::<usize>::empty();
        let mut origin: Vec<usize> = Vec::new();
        let total = Self::create_group_nodes(groups, out, &mut origin);
        let n = out.len();
        proof {
            assert(node_views(out@).len() == out@.len());
            lemma_total_tasks_same(bare_nodes(live), frozen_nodes(live));
            lemma_live_edges_in_order(graph);
            reveal(Seq::filter);
            assert forall|k: int| 0 <= k < n implies (#[trigger] out@[k])@ == partly_chained(
                live,
                k,
                0,
                empty,
            ) by {
                assert(node_views(out@)[k] == out@[k]@);
                assert(places(0) =~= Seq::<usize>::empty());
            }
        }
        let mut i: usize = 0;
        while i < n
            invariant
                i <= n,
                n == out@.len(),
                n == live.len(),
                n <= u32::MAX,
                n == origin@.len(),
                graph == views(groups@),
                live == live_groups(graph),
                empty == Seq::<usize>::empty(),
                edges_in_order(live),
                forall|k: int|
                    0 <= k < n ==> (#[trigger] origin@[k]) < groups.len() && graph[origin@[k] as int]
                        == live[k],
                forall|k: int|
                    0 <= k < n ==> (#[trigger] out@[k])@ == partly_chained(live, k, i as nat, empty),
            decreases n - i,
        {
            let source = &groups[origin[i]];
            assert(source@ == live[i as int]) by {
                assert(graph[origin@[i as int] as int] == source@);
            }
            let list = source.successors();
            let ghost place = |h: GroupHandle| place_of(live, h);
            let mut successors: Vec<usize> = Vec::new();
            let mut m: usize = 0;
            assert(list@.take(0) =~= Seq::<GroupHandle>::empty());
            while m < list.len()
                invariant
                    i < n,
                    m <= list.len(),
                    n == out@.len(),
                    n == live.len(),
                    n <= u32::MAX,
                    edges_in_order(live),
                    list@ == live[i as int].successors,
                    place == (|h: GroupHandle| place_of(live, h)),
                    successors@ == list@.take(m as int).filter_map(place),
                    forall|k: int|
                        0 <= k < n ==> (#[trigger] out@[k])@ == partly_chained(
                            live,
                            k,
                            i as nat,
                            successors@,
                        ),
                decreases list.len() - m,
            {
                let ghost before = out@;
                let ghost told = successors@;
                proof {
                    list@.lemma_filter_map_take_succ(place, m as int);
                    assert(node_ids(node_views(out@)) =~= ids_of(live)) by {
                        assert forall|k: int| 0 <= k < n implies #[trigger] node_ids(
                            node_views(out@),
                        )[k] == ids_of(live)[k] by {
                            assert(out@[k]@ == partly_chained(live, k, i as nat, told));
                        }
                    }
                }
                match node_of(out, list[m].id) {
                    Some(to) => {
                        proof {
                            lemma_place_of(live, list@[m as int], to);
                            lemma_successors_so_far(live, i as int, m as int, to);
                            if list@.take(m as int).contains(list@[m as int]) {
                                let e = choose|e: int|
                                    0 <= e < m && list@.take(m as int)[e] == list@[m as int];
                                assert(list@[e] == list@[m as int]);
                            }
                            lemma_edges_into_step(live, to as int, i as nat);
                            assert(out@[to as int]@ == partly_chained(
                                live,
                                to as int,
                                i as nat,
                                told,
                            ));
                        }
                        successors.push(to);
                        out[to].increase_predecessor_count();
                        proof {
                            assert(successors@ =~= told + seq![to]);
                            assert forall|k: int| 0 <= k < n implies (#[trigger] out@[k])@
                                == partly_chained(live, k, i as nat, successors@) by {
                                crate::lists::lemma_push_contains(told, to, k as usize);
                                if k != to {
                                    assert(out@[k] == before[k]);
                                }
                                assert(before[k]@ == partly_chained(live, k, i as nat, told));
                            }
                        }
                    },
                    None => {
                        proof {
                            assert(successors@ =~= told + Seq::<usize>::empty());
                        }
                    },
                }
                m += 1;
            }
            let ghost before = out@;
            let ghost told = successors@;
            proof {
                assert(list@.take(m as int) =~= list@);
                assert(told == successors_of(live, i as int));
            }
            out[i].successor_nodes = successors;
            proof {
                assert forall|k: int| 0 <= k < n implies (#[trigger] out@[k])@ == partly_chained(
                    live,
                    k,
                    (i + 1) as nat,
                    empty,
                ) by {
                    lemma_edges_into_step(live, k, i as nat);
                    lemma_frozen_successors(live, i as int, k as usize);
                    if k != i {
                        assert(out@[k] == before[k]);
                    }
                    assert(before[k]@ == partly_chained(live, k, i as nat, told));
                }
            }
            i += 1;
        }
        proof {
            assert forall|k: int| 0 <= k < n implies #[trigger] node_views(out@)[k] == frozen_nodes(
                live,
            )[k] by {
                assert(out@[k]@ == partly_chained(live, k, n as nat, empty));
                lemma_edges_into_step(live, k, n as nat);
            }
            assert(node_views(out@) =~= frozen_nodes(live));
        }
        total
    }

    /// Try to create topology instance from group list.
    ///
    /// A list without a live group is refused with `NoValidatedGroups`. Else
    /// the plan holds a node for each live group, in the list's order, with
    /// the group's live tasks, or its placeholder task where it has none; the
    /// edges between live groups, the successors of a group in the order in
    /// which the group names them; the number of tasks; and the roots.
    ///
    /// The list must be in order, as the list of every manager is.
    pub fn new_from(groups: &GroupList) -> (result: Result<Topology, TaskError>)
        requires
            graph_wf(views(groups@)),
            plan_fits(views(groups@)),
        ensures
            result is Err <==> no_live_group(views(groups@)),
            result matches Err(e) ==> e == TaskError::NoValidatedGroups,
            result matches Ok(topology) ==> topology@ == frozen(views(groups@)),
    {
        if all_released(groups) {
            return Err(TaskError::NoValidatedGroups);
        }
        proof {
            lemma_frozen_is_in_order(views(groups@));
        }
        let mut group_nodes: Vec<GroupNode> = Vec::new();
        let task_count = Self::fill_from_list(groups, &mut group_nodes);
        let root_groups = root_list(&group_nodes);
        Ok(Topology { group_nodes, task_count, root_groups })
    }

    /// Rearrange topology with given group list: the plan is built anew, in
    /// place. A list without a live group is refused with
    /// `NoValidatedGroups`, and the plan stays as it is.
    ///
    /// The list must be in order, as the list of every manager is.
    pub fn rearrange_from(&mut self, groups: &GroupList) -> (result: Result<(), TaskError>)
        requires
            graph_wf(views(groups@)),
            plan_fits(views(groups@)),
        ensures
            result is Err <==> no_live_group(views(groups@)),
            result matches Err(e) ==> e == TaskError::NoValidatedGroups && *final(self) == *old(self),
            result is Ok ==> final(self)@ == frozen(views(groups@)),
    {
        if all_released(groups) {
            return Err(TaskError::NoValidatedGroups);
        }
        proof {
            lemma_frozen_is_in_order(views(groups@));
        }
        let mut group_nodes: Vec<GroupNode> = Vec::new();
        let task_count = Self::fill_from_list(groups, &mut group_nodes);
        let root_groups = root_list(&group_nodes);
        *self = Topology { group_nodes, task_count, root_groups };
        Ok(())
    }
}

/// The places of the nodes that wait for no predecessor.
fn root_list(nodes: &Vec<GroupNode>) -> (roots: Vec<usize>)
    ensures
        roots@ == root_places(node_views(nodes@)),
{
    let mut roots: Vec<usize> = Vec::new();
    let mut k: usize = 0;
    let ghost plan = node_views(nodes@);
    proof {
        reveal(Seq::filter);
        assert(places(0) =~= Seq::<usize>::empty());
    }
    while k < nodes.len()
        invariant
            k <= nodes.len(),
            plan == node_views(nodes@),
            roots@ == roots_below(plan, k as nat),
        decreases nodes.len() - k,
    {
        proof {
            lemma_places_step(k as nat);
            places(k as nat).lemma_filter_push(
                k as usize,
                |at: usize| plan[at as int].remaining_predecessors == 0,
            );
            assert(plan[k as int] == nodes@[k as int]@);
        }
        if nodes[k].is_ready() {
            roots.push(k);
        }
        k += 1;
    }
    roots
}

/// Two lists of groups that agree on every edge give every group the same
/// predecessors.
proof fn lemma_edges_agree(a: Seq<GroupView>, b: Seq<GroupView>, at: int)
    requires
        a.len() == b.len(),
        0 <= at < a.len(),
        forall|from: int, to: int|
            0 <= from < a.len() && 0 <= to < a.len() ==> is_edge(a, from, to) == is_edge(
                b,
                from,
                to,
            ),
    ensures
        predecessors_of(a, at) == predecessors_of(b, at),
{
    let n = a.len();
    let in_a = |from: usize| is_edge(a, from as int, at);
    let in_b = |from: usize| is_edge(b, from as int, at);
    assert forall|i: int| 0 <= i < places(n).len() implies in_a(#[trigger] places(n)[i]) == in_b(
        places(n)[i],
    ) by {
        assert(places(n)[i] < n);
        assert(is_edge(a, places(n)[i] as int, at) == is_edge(b, places(n)[i] as int, at));
    }
    lemma_filter_agree(places(n), in_a, in_b);
}

/// Two lists of groups with the same ids give every handle the same place.
proof fn lemma_same_ids_same_places(a: Seq<GroupView>, b: Seq<GroupView>, list: Seq<GroupHandle>)
    requires
        a.len() == b.len(),
        forall|k: int| 0 <= k < a.len() ==> (#[trigger] a[k]).id == b[k].id,
    ensures
        list.filter_map(|h: GroupHandle| place_of(a, h)) == list.filter_map(
            |h: GroupHandle| place_of(b, h),
        ),
{
    assert(ids_of(a) =~= ids_of(b));
    lemma_filter_map_agree(
        list,
        |h: GroupHandle| place_of(a, h),
        |h: GroupHandle| place_of(b, h),
    );
}

/// Rearranging the groups of a graph in order does not change its plan: the
/// plan never held the released groups, nor the edges to them.
pub proof fn lemma_rearranged_has_same_plan(graph: Seq<GroupView>)
    requires
        graph_wf(graph),
        live_groups(graph).len() <= usize::MAX,
    ensures
        frozen(rearranged(graph)) == frozen(graph),
{
    let live = live_groups(graph);
    let gone = released_ids(graph);
    let once = rearranged(graph);
    let n = live.len();
    let alive = |g: GroupView| !g.released;
    assert forall|k: int| 0 <= k < once.len() implies alive(#[trigger] once[k]) by {
        let i = lemma_live_group_is_member(graph, k);
    }
    lemma_filter_all(once, alive);
    assert(live_groups(once) == once);
    assert forall|from: int, to: int| 0 <= from < n && 0 <= to < n implies is_edge(once, from, to)
        == is_edge(live, from, to) by {
        let i = lemma_live_group_is_member(graph, from);
        let j = lemma_live_group_is_member(graph, to);
        lemma_purged_chain_holds(live[from].successors, gone, GroupHandle { id: live[to].id });
        lemma_released_ids_hold(graph, live[to].id);
    }
    assert forall|at: int| 0 <= at < n implies #[trigger] frozen_nodes(once)[at] == frozen_nodes(
        live,
    )[at] by {
        lemma_edges_agree(once, live, at);
        let list = live[at].successors;
        let keep = |h: GroupHandle| !gone.contains(h.id);
        let place = |h: GroupHandle| place_of(live, h);
        assert forall|i: int| 0 <= i < list.len() && !keep(#[trigger] list[i]) implies place(
            list[i],
        ) is None by {
            let id = list[i].id;
            lemma_released_ids_hold(graph, id);
            lemma_first_place(ids_of(live), id);
            if place(list[i]) is Some {
                let k = place(list[i])->0;
                assert(ids_of(live)[k as int] == live[k as int].id);
                let x = lemma_live_group_is_member(graph, k as int);
                let y = choose|y: int|
                    0 <= y < graph.len() && (#[trigger] graph[y]).id == id && graph[y].released;
                if x < y {
                    assert(graph[x].id != graph[y].id);
                } else if y < x {
                    assert(graph[y].id != graph[x].id);
                }
            }
        }
        lemma_filter_map_after_filter(list, keep, place);
        lemma_same_ids_same_places(once, live, once[at].successors);
        assert(once[at].successors == list.filter(keep));
    }
    assert(frozen_nodes(once) =~= frozen_nodes(live));
}

/// The live groups of a graph whose tasks are rearranged are the live groups
/// of the graph, each with its live tasks alone.
proof fn lemma_tasks_rearranged_keeps_live(graph: Seq<GroupView>)
    ensures
        live_groups(tasks_rearranged(graph)).len() == live_groups(graph).len(),
        forall|k: int|
            0 <= k < live_groups(graph).len() ==> #[trigger] live_groups(tasks_rearranged(graph))[k]
                == (GroupView {
                tasks: live_tasks(live_groups(graph)[k].tasks),
                ..live_groups(graph)[k]
            }),
    decreases graph.len(),
{
    reveal(Seq::filter);
    let once = tasks_rearranged(graph);
    let alive = |g: GroupView| !g.released;
    if graph.len() > 0 {
        let rest = graph.drop_last();
        lemma_tasks_rearranged_keeps_live(rest);
        assert(tasks_rearranged(rest) =~= once.drop_last());
    }
}

/// Rearranging the tasks of a graph does not change its plan: the plan never
/// held the released tasks.
pub proof fn lemma_tasks_rearranged_has_same_plan(graph: Seq<GroupView>)
    ensures
        frozen(tasks_rearranged(graph)) == frozen(graph),
{
    let once = tasks_rearranged(graph);
    lemma_tasks_rearranged_keeps_live(graph);
    let live = live_groups(graph);
    let after = live_groups(once);
    let n = live.len();
    assert forall|k: int| 0 <= k < n implies (#[trigger] after[k]).id == live[k].id
        && after[k].successors == live[k].successors && after[k].sentinel == live[k].sentinel
        && after[k].tasks == live_tasks(live[k].tasks) by {
        assert(live_groups(tasks_rearranged(graph))[k] == (GroupView {
            tasks: live_tasks(live[k].tasks),
            ..live[k]
        }));
    }
    assert forall|from: int, to: int| 0 <= from < n && 0 <= to < n implies is_edge(after, from, to)
        == is_edge(live, from, to) by {
        assert(after[from].successors == live[from].successors);
        assert(after[to].id == live[to].id);
    }
    assert forall|at: int| 0 <= at < n implies #[trigger] frozen_nodes(after)[at] == frozen_nodes(
        live,
    )[at] by {
        let fresh = |h: TaskHandle| !h.released();
        let kept = live_tasks(live[at].tasks);
        assert forall|m: int| 0 <= m < kept.len() implies fresh(#[trigger] kept[m]) by {
            live[at].tasks.lemma_filter_pred(fresh, m);
        }
        lemma_filter_all(kept, fresh);
        assert(after[at].tasks == kept);
        assert(after[at].sentinel == live[at].sentinel);
        lemma_edges_agree(after, live, at);
        lemma_same_ids_same_places(after, live, live[at].successors);
        assert(after[at].successors == live[at].successors);
    }
    assert(frozen_nodes(after) =~= frozen_nodes(live));
}

/// How many handles of a list stand for tasks that have not been released.
fn live_task_count(tasks: &Vec<TaskHandle>) -> (count: usize)
    ensures
        count == live_tasks(tasks@).len(),
{
    let mut count: usize = 0;
    let mut k: usize = 0;
    assert(tasks@.take(0) =~= Seq::<TaskHandle>::empty());
    reveal(Seq::filter);
    while k < tasks.len()
        invariant
            k <= tasks.len(),
            count == live_tasks(tasks@.take(k as int)).len(),
            count <= k,
        decreases tasks.len() - k,
    {
        proof {
            let head = tasks@.take(k as int);
            assert(tasks@.take(k + 1) =~= head.push(tasks@[k as int]));
            head.lemma_filter_push(tasks@[k as int], |h: TaskHandle| !h.released());
        }
        if !tasks[k].is_marked() {
            count += 1;
        }
        k += 1;
    }
    assert(tasks@.take(k as int) =~= tasks@);
    count
}

impl Topology {
    /// Whether the counters of the plan of a list of groups fit the machine,
    /// so that the plan can be built.
    pub fn fits(groups: &GroupList) -> (fits: bool)
        ensures
            fits == plan_fits(views(groups@)),
    {
        let ghost graph = views(groups@);
        let ghost live = live_groups(graph);
        let mut nodes: usize = 0;
        let mut total: usize = 0;
        let mut g: usize = 0;
        assert(graph.take(0) =~= Seq::<GroupView>::empty());
        reveal(Seq::filter);
        while g < groups.len()
            invariant
                g <= groups.len(),
                graph == views(groups@),
                live == live_groups(graph),
                nodes == live_groups(graph.take(g as int)).len(),
                nodes <= u32::MAX,
                forall|at: int|
                    0 <= at < nodes ==> live_tasks((#[trigger] live[at]).tasks).len() <= u32::MAX,
                total == total_tasks(bare_nodes(live_groups(graph.take(g as int)))),
            decreases groups.len() - g,
        {
            let ghost head = graph.take(g as int);
            let ghost part = live_groups(head);
            let group = &groups[g];
            proof {
                assert(graph[g as int] == group@);
                assert(graph.take(g + 1) =~= head.push(group@));
                head.lemma_filter_push(group@, |g: GroupView| !g.released);
                lemma_bare_total_bounded(graph, g + 1);
                lemma_live_groups_prefix(graph, g + 1);
                lemma_live_groups_prefix(graph, g as int);
            }
            if !group.is_released() {
                let ghost grown = part.push(group@);
                proof {
                    assert(grown == live_groups(graph.take(g + 1)));
                    assert(live[nodes as int] == grown[nodes as int]);
                    assert(bare_nodes(grown) =~= bare_nodes(part).push(
                        bare_node(group@, nodes as int),
                    ));
                    lemma_total_tasks_push(bare_nodes(part), bare_node(group@, nodes as int));
                }
                let count = live_task_count(group.tasks());
                if count > u32::MAX as usize {
                    assert(!plan_fits(graph));
                    return false;
                }
                if nodes >= u32::MAX as usize {
                    assert(!plan_fits(graph));
                    return false;
                }
                let held: usize = if count == 0 {
                    1
                } else {
                    count
                };
                if total > usize::MAX - held {
                    assert(!plan_fits(graph));
                    return false;
                }
                total = total + held;
                nodes = nodes + 1;
            }
            g += 1;
        }
        proof {
            assert(graph.take(g as int) =~= graph);
            lemma_total_tasks_same(bare_nodes(live), frozen_nodes(live));
        }
        true
    }
}

/// The plan holds a task node for every live task of every live group, and
/// no other, but for the placeholder of a group without live tasks: the
/// node of the `at`-th live group holds the group's live tasks, in their
/// order.
pub proof fn lemma_plan_holds_live_tasks(graph: Seq<GroupView>, at: int, m: int)
    requires
        0 <= at < live_groups(graph).len(),
        at <= usize::MAX,
        0 <= m < live_tasks(live_groups(graph)[at].tasks).len(),
    ensures
        frozen(graph).nodes[at].group.id == live_groups(graph)[at].id,
        frozen(graph).nodes[at].tasks.len() == live_tasks(live_groups(graph)[at].tasks).len(),
        frozen(graph).nodes[at].tasks[m].handle == live_tasks(live_groups(graph)[at].tasks)[m],
        !frozen(graph).nodes[at].tasks[m].handle.released(),
{
    let tasks = live_groups(graph)[at].tasks;
    tasks.lemma_filter_pred(|h: TaskHandle| !h.released(), m);
}

} // verus!
