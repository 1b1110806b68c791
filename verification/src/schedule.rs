//! One run of a plan: the state that a worker keeps, the steps that the
//! taking of a task and its completion take, and what holds once the run
//! owes no task.
use crate::lists::lemma_concat_contains;
use crate::lists::lemma_drop_first_holds;
use crate::lists::lemma_filter_agree;
use crate::lists::lemma_filter_all;
use crate::lists::lemma_filter_holds;
use crate::lists::lemma_filter_no_repeats;
use crate::lists::lemma_filter_none;
use crate::lists::lemma_filter_one_less;
use crate::lists::lemma_remove_holds;
use crate::topology::decreased;
use crate::topology::is_ranking;
use crate::topology::is_task_of;
use crate::topology::node_wf;
use crate::topology::NodeView;
use crate::topology::places;
use crate::topology::root_places;
use crate::topology::TaskNode;
use crate::topology::tasks_placed;
use crate::topology::total_tasks;
use vstd::prelude::*;
use vstd::seq_lib::lemma_no_dup_in_concat;

verus! {

/// The task nodes of the nodes at `ats`, node after node.
pub open spec fn tasks_of(plan: Seq<NodeView>, ats: Seq<usize>) -> Seq<TaskNode>
    decreases ats.len(),
{
    if ats.len() == 0 {
        Seq::empty()
    } else {
        tasks_of(plan, ats.drop_last()) + plan[ats.last() as int].tasks
    }
}

/// The successors of the node at `at` that wait for this node alone.
pub open spec fn last_waiters(nodes: Seq<NodeView>, at: int) -> Seq<usize> {
    nodes[at].successors.filter(|to: usize| nodes[to as int].remaining_predecessors == 1)
}

/// The nodes that the completion of a task of the node at `at` sets free:
/// none unless it was the node's last task; then every successor that waited
/// for this node alone, in the order of the successors.
pub open spec fn freed_nodes(nodes: Seq<NodeView>, at: int) -> Seq<usize> {
    if nodes[at].remaining_tasks == 1 {
        last_waiters(nodes, at)
    } else {
        Seq::empty()
    }
}

/// The task nodes that the completion of a task of the node at `at` sets
/// free: the tasks of the nodes that it sets free, node after node.
pub open spec fn released_tasks(nodes: Seq<NodeView>, at: int) -> Seq<TaskNode> {
    tasks_of(nodes, freed_nodes(nodes, at))
}

/// The nodes after a task of the node at `at` has completed: that node has
/// one task less to wait for; if it was its last, every successor has one
/// predecessor less to wait for.
pub open spec fn completed_nodes(nodes: Seq<NodeView>, at: int) -> Seq<NodeView> {
    Seq::new(
        nodes.len(),
        |k: int|
            NodeView {
                remaining_tasks: if k == at {
                    decreased(nodes[k].remaining_tasks)
                } else {
                    nodes[k].remaining_tasks
                },
                remaining_predecessors: if nodes[at].remaining_tasks == 1
                    && nodes[at].successors.contains(k as usize) {
                    decreased(nodes[k].remaining_predecessors)
                } else {
                    nodes[k].remaining_predecessors
                },
                ..nodes[k]
            },
    )
}

/// The sum of the remaining-task counters.
pub open spec fn remaining_total(nodes: Seq<NodeView>) -> nat
    decreases nodes.len(),
{
    if nodes.len() == 0 {
        0
    } else {
        remaining_total(nodes.drop_last()) + nodes.last().remaining_tasks as nat
    }
}

/// How many tasks of the node at `at` have not run.
pub open spec fn unran(plan: Seq<NodeView>, history: Seq<TaskNode>, at: int) -> nat {
    plan[at].tasks.filter(|task: TaskNode| !history.contains(task)).len()
}

/// How many predecessors of the node at `to` still have a task to run.
pub open spec fn waiting_on(plan: Seq<NodeView>, nodes: Seq<NodeView>, to: int) -> nat {
    places(plan.len()).filter(
        |from: usize|
            plan[from as int].successors.contains(to as usize) && nodes[from as int].remaining_tasks
                != 0,
    ).len()
}

/// Whether `nodes` are the nodes of `plan` but for their counters.
pub open spec fn same_shape(plan: Seq<NodeView>, nodes: Seq<NodeView>) -> bool {
    &&& nodes.len() == plan.len()
    &&& forall|k: int|
        0 <= k < plan.len() ==> (#[trigger] nodes[k]).group == plan[k].group && nodes[k].tasks
            == plan[k].tasks && nodes[k].successors == plan[k].successors
}

/// Whether no task stands in `history` before a task of a node that runs
/// before its own.
pub open spec fn in_order(plan: Seq<NodeView>, history: Seq<TaskNode>) -> bool {
    forall|i: int, j: int|
        0 <= i < history.len() && 0 <= j < history.len() && plan[(
        #[trigger] history[i]).group_node as int].successors.contains(
            (#[trigger] history[j]).group_node,
        ) ==> i < j
}

/// Whether `history` is a whole run of the plan: every task node of the plan
/// stands in it, once, and nothing else; and no task stands before a task of
/// a node that runs before its own.
pub open spec fn complete_run(plan: Seq<NodeView>, history: Seq<TaskNode>) -> bool {
    &&& history.no_duplicates()
    &&& forall|task: TaskNode| #[trigger] history.contains(task) <==> is_task_of(plan, task)
    &&& in_order(plan, history)
}

/// The state of a run.
pub ghost struct RunView {
    /// The nodes as they were frozen.
    pub plan: Seq<NodeView>,
    /// The nodes with their counters as the run has left them.
    pub nodes: Seq<NodeView>,
    /// The tasks that wait to be taken, the next one first.
    pub queue: Seq<TaskNode>,
    /// The tasks that have been taken and have not completed.
    pub running: Seq<TaskNode>,
    /// The tasks that have completed, in the order in which they did.
    pub history: Seq<TaskNode>,
    /// The number of tasks that have not completed.
    pub task_count: usize,
}

impl RunView {
    /// Whether a task has been handed to the queue since the run began: it
    /// waits there, or is running, or has completed.
    pub open spec fn issued(self, task: TaskNode) -> bool {
        self.history.contains(task) || self.running.contains(task) || self.queue.contains(task)
    }

    /// The run is in order: the plan is as the freeze left it; a task has
    /// been issued just when its node waits for no predecessor, and it
    /// stands in one place only: in the queue, among the running, or in the
    /// history; every node counts the tasks of its own that have not
    /// completed, and the predecessors that have not finished; the task
    /// count is the sum of what the nodes count; and the tasks completed in
    /// an order that the edges allow.
    pub open spec fn wf(self) -> bool {
        &&& self.plan.len() <= usize::MAX
        &&& forall|at: int| 0 <= at < self.plan.len() ==> node_wf(self.plan, at)
        &&& same_shape(self.plan, self.nodes)
        &&& self.history.no_duplicates()
        &&& self.running.no_duplicates()
        &&& self.queue.no_duplicates()
        &&& forall|task: TaskNode| #[trigger]
            self.history.contains(task) ==> !self.running.contains(task) && !self.queue.contains(
                task,
            )
        &&& forall|task: TaskNode| #[trigger]
            self.running.contains(task) ==> !self.queue.contains(task)
        &&& forall|task: TaskNode| #[trigger]
            self.issued(task) <==> (is_task_of(self.plan, task)
                && self.nodes[task.group_node as int].remaining_predecessors == 0)
        &&& forall|at: int|
            0 <= at < self.plan.len() ==> (#[trigger] self.nodes[at]).remaining_tasks == unran(
                self.plan,
                self.history,
                at,
            )
        &&& forall|at: int|
            0 <= at < self.plan.len() ==> (#[trigger] self.nodes[at]).remaining_predecessors
                == waiting_on(self.plan, self.nodes, at)
        &&& self.task_count == remaining_total(self.nodes)
        &&& in_order(self.plan, self.history)
    }

    /// The run at its start: nothing has been taken, and the tasks of the
    /// roots wait in the queue.
    pub open spec fn start(plan: Seq<NodeView>) -> RunView {
        RunView {
            plan,
            nodes: plan,
            queue: tasks_of(plan, root_places(plan)),
            running: Seq::empty(),
            history: Seq::empty(),
            task_count: total_tasks(plan) as usize,
        }
    }

    /// The run after the first task of the queue has been taken.
    pub open spec fn taken(self) -> RunView {
        RunView {
            queue: self.queue.drop_first(),
            running: self.running.push(self.queue.first()),
            ..self
        }
    }

    /// The run after the running task `task` has completed: it stands at the
    /// end of the history; its node, and if that was the node's last task,
    /// the successors, count one less; and the tasks of the successors that
    /// have become ready stand at the end of the queue.
    pub open spec fn completed(self, task: TaskNode) -> RunView {
        let at = task.group_node as int;
        RunView {
            plan: self.plan,
            nodes: completed_nodes(self.nodes, at),
            queue: self.queue + released_tasks(self.nodes, at),
            running: self.running.remove(self.running.index_of(task)),
            history: self.history.push(task),
            task_count: (self.task_count - 1) as usize,
        }
    }

    /// The run after the first task of the queue has been taken and has
    /// completed.
    pub open spec fn stepped(self) -> RunView {
        self.taken().completed(self.queue.first())
    }
}

/// The sum of the counters after one of them has gone down by one.
pub proof fn lemma_remaining_total_step(before: Seq<NodeView>, after: Seq<NodeView>, at: int)
    requires
        before.len() == after.len(),
        0 <= at < before.len(),
        before[at].remaining_tasks >= 1,
        after[at].remaining_tasks == before[at].remaining_tasks - 1,
        forall|k: int|
            0 <= k < before.len() && k != at ==> (#[trigger] after[k]).remaining_tasks
                == before[k].remaining_tasks,
    ensures
        remaining_total(after) + 1 == remaining_total(before),
    decreases before.len(),
{
    let n = before.len() - 1;
    if at == n {
        lemma_remaining_total_same(before.drop_last(), after.drop_last());
    } else {
        assert(after[n].remaining_tasks == before[n].remaining_tasks);
        lemma_remaining_total_step(before.drop_last(), after.drop_last(), at);
    }
}

/// Two lists of nodes with the same counters have the same sum.
pub proof fn lemma_remaining_total_same(a: Seq<NodeView>, b: Seq<NodeView>)
    requires
        a.len() == b.len(),
        forall|k: int| 0 <= k < a.len() ==> (#[trigger] a[k]).remaining_tasks == b[k].remaining_tasks,
    ensures
        remaining_total(a) == remaining_total(b),
    decreases a.len(),
{
    if a.len() > 0 {
        assert(a[a.len() - 1].remaining_tasks == b[a.len() - 1].remaining_tasks);
        assert forall|k: int| 0 <= k < a.drop_last().len() implies (
        #[trigger] a.drop_last()[k]).remaining_tasks == b.drop_last()[k].remaining_tasks by {
            assert(a[k].remaining_tasks == b[k].remaining_tasks);
        }
        lemma_remaining_total_same(a.drop_last(), b.drop_last());
    }
}

/// The sum of the counters is zero just when every counter is.
pub proof fn lemma_remaining_total_zero(nodes: Seq<NodeView>)
    ensures
        remaining_total(nodes) == 0 <==> forall|k: int|
            0 <= k < nodes.len() ==> (#[trigger] nodes[k]).remaining_tasks == 0,
    decreases nodes.len(),
{
    if nodes.len() > 0 {
        let rest = nodes.drop_last();
        lemma_remaining_total_zero(rest);
        if remaining_total(nodes) == 0 {
            assert forall|k: int| 0 <= k < nodes.len() implies (#[trigger] nodes[k]).remaining_tasks
                == 0 by {
                if k < rest.len() {
                    assert(rest[k] == nodes[k]);
                }
            }
        }
        if forall|k: int| 0 <= k < nodes.len() ==> (#[trigger] nodes[k]).remaining_tasks == 0 {
            assert forall|k: int| 0 <= k < rest.len() implies (#[trigger] rest[k]).remaining_tasks
                == 0 by {
                assert(rest[k] == nodes[k]);
            }
            assert(nodes[nodes.len() - 1].remaining_tasks == 0);
        }
    }
}

/// Where every node counts all its tasks, the sum of the counters is the
/// number of tasks.
pub proof fn lemma_remaining_total_at_start(plan: Seq<NodeView>)
    requires
        forall|k: int|
            0 <= k < plan.len() ==> (#[trigger] plan[k]).remaining_tasks == plan[k].tasks.len(),
    ensures
        remaining_total(plan) == total_tasks(plan),
    decreases plan.len(),
{
    if plan.len() > 0 {
        let rest = plan.drop_last();
        assert forall|k: int| 0 <= k < rest.len() implies (#[trigger] rest[k]).remaining_tasks
            == rest[k].tasks.len() by {
            assert(rest[k] == plan[k]);
        }
        lemma_remaining_total_at_start(rest);
        assert(plan[plan.len() - 1].remaining_tasks == plan[plan.len() - 1].tasks.len());
    }
}

/// The tasks of a node of the plan are told apart by their places.
pub proof fn lemma_node_tasks(plan: Seq<NodeView>, at: int)
    requires
        0 <= at < plan.len(),
        tasks_placed(plan, at),
    ensures
        plan[at].tasks.no_duplicates(),
        forall|task: TaskNode| #[trigger]
            plan[at].tasks.contains(task) <==> (is_task_of(plan, task) && task.group_node == at),
{
    let tasks = plan[at].tasks;
    assert forall|task: TaskNode| #[trigger] tasks.contains(task) <==> (is_task_of(plan, task)
        && task.group_node == at) by {
        if tasks.contains(task) {
            let m = choose|m: int| 0 <= m < tasks.len() && tasks[m] == task;
            assert(tasks[m].index == m);
        }
        if is_task_of(plan, task) && task.group_node == at {
            assert(tasks[task.index as int] == task);
        }
    }
}

/// The tasks of a list of nodes, none named twice: no task stands twice in
/// them, and they are the tasks of the plan whose node is in the list.
pub proof fn lemma_tasks_of(plan: Seq<NodeView>, ats: Seq<usize>)
    requires
        forall|at: int| 0 <= at < plan.len() ==> tasks_placed(plan, at),
        ats.no_duplicates(),
        forall|i: int| 0 <= i < ats.len() ==> (#[trigger] ats[i]) < plan.len(),
    ensures
        tasks_of(plan, ats).no_duplicates(),
        forall|task: TaskNode| #[trigger]
            tasks_of(plan, ats).contains(task) <==> (is_task_of(plan, task) && ats.contains(
                task.group_node,
            )),
    decreases ats.len(),
{
    if ats.len() > 0 {
        let rest = ats.drop_last();
        let last = ats.last();
        let head = tasks_of(plan, rest);
        let tail = plan[last as int].tasks;
        assert forall|i: int, j: int| 0 <= i < rest.len() && 0 <= j < rest.len() && i != j implies rest[i]
            != rest[j] by {
            assert(rest[i] == ats[i] && rest[j] == ats[j]);
        }
        assert forall|i: int| 0 <= i < rest.len() implies (#[trigger] rest[i]) < plan.len() by {
            assert(rest[i] == ats[i]);
        }
        lemma_tasks_of(plan, rest);
        assert(tasks_placed(plan, last as int));
        lemma_node_tasks(plan, last as int);
        assert(!rest.contains(last)) by {
            if rest.contains(last) {
                let i = choose|i: int| 0 <= i < rest.len() && rest[i] == last;
                assert(ats[i] == ats[ats.len() - 1]);
            }
        }
        assert forall|i: int, j: int| 0 <= i < head.len() && 0 <= j < tail.len() implies head[i]
            != tail[j] by {
            assert(head.contains(head[i]));
            assert(tail.contains(tail[j]));
        }
        lemma_no_dup_in_concat(head, tail);
        assert forall|task: TaskNode| #[trigger]
            tasks_of(plan, ats).contains(task) <==> (is_task_of(plan, task) && ats.contains(
                task.group_node,
            )) by {
            lemma_concat_contains(head, tail, task);
            assert(head.contains(task) <==> (is_task_of(plan, task) && rest.contains(
                task.group_node,
            )));
            assert(tail.contains(task) <==> (is_task_of(plan, task) && task.group_node == last));
            crate::lists::lemma_push_contains(rest, last, task.group_node);
            assert(rest.push(last) =~= ats);
        }
    }
}

/// The places below a bound hold each place once, and nothing else.
pub proof fn lemma_places(bound: nat, at: usize)
    requires
        bound <= usize::MAX,
    ensures
        places(bound).no_duplicates(),
        places(bound).contains(at) <==> at < bound,
{
    let all = places(bound);
    if all.contains(at) {
        let k = choose|k: int| 0 <= k < all.len() && all[k] == at;
        assert(at < bound);
    }
    if at < bound {
        assert(all[at as int] == at);
    }
}

/// A run is in order at its start.
pub proof fn lemma_start_in_order(plan: Seq<NodeView>)
    requires
        plan.len() <= usize::MAX,
        forall|at: int| 0 <= at < plan.len() ==> node_wf(plan, at),
        total_tasks(plan) <= usize::MAX,
    ensures
        RunView::start(plan).wf(),
{
    let run = RunView::start(plan);
    let n = plan.len();
    let roots = root_places(plan);
    let is_root = |at: usize| plan[at as int].remaining_predecessors == 0;
    lemma_places(n, 0);
    lemma_filter_no_repeats(places(n), is_root);
    assert forall|i: int| 0 <= i < roots.len() implies (#[trigger] roots[i]) < n by {
        assert(roots.contains(roots[i]));
        lemma_filter_holds(places(n), is_root, roots[i]);
        lemma_places(n, roots[i]);
    }
    assert forall|at: int| 0 <= at < n implies tasks_placed(plan, at) by {
        assert(node_wf(plan, at));
    }
    lemma_tasks_of(plan, roots);
    assert forall|task: TaskNode| #[trigger]
        run.issued(task) <==> (is_task_of(run.plan, task)
            && run.nodes[task.group_node as int].remaining_predecessors == 0) by {
        lemma_filter_holds(places(n), is_root, task.group_node);
        lemma_places(n, task.group_node);
        assert(run.queue.contains(task) <==> (is_task_of(plan, task) && roots.contains(
            task.group_node,
        )));
    }
    assert forall|at: int| 0 <= at < n implies (#[trigger] run.nodes[at]).remaining_tasks == unran(
        run.plan,
        run.history,
        at,
    ) by {
        assert(node_wf(plan, at));
        let fresh = |task: TaskNode| !run.history.contains(task);
        lemma_filter_all(plan[at].tasks, fresh);
    }
    assert forall|at: int| 0 <= at < n implies (#[trigger] run.nodes[at]).remaining_predecessors
        == waiting_on(run.plan, run.nodes, at) by {
        assert(node_wf(plan, at));
        let named = |from: usize| plan[from as int].successors.contains(at as usize);
        let held = |from: usize|
            plan[from as int].successors.contains(at as usize) && plan[from as int].remaining_tasks
                != 0;
        assert forall|i: int| 0 <= i < places(n).len() implies named(#[trigger] places(n)[i])
            == held(places(n)[i]) by {
            assert(node_wf(plan, i));
        }
        lemma_filter_agree(places(n), named, held);
    }
    assert forall|k: int| 0 <= k < n implies (#[trigger] plan[k]).remaining_tasks
        == plan[k].tasks.len() by {
        assert(node_wf(plan, k));
    }
    lemma_remaining_total_at_start(plan);
}

/// The sum of the counters is at least each of them.
pub proof fn lemma_remaining_total_bounds(nodes: Seq<NodeView>, at: int)
    requires
        0 <= at < nodes.len(),
    ensures
        nodes[at].remaining_tasks <= remaining_total(nodes),
    decreases nodes.len(),
{
    if at < nodes.len() - 1 {
        lemma_remaining_total_bounds(nodes.drop_last(), at);
    }
}

/// Taking the first task of the queue leaves a run in order; the task is a
/// task of the plan.
pub proof fn lemma_taken_in_order(run: RunView)
    requires
        run.wf(),
        run.queue.len() > 0,
    ensures
        run.taken().wf(),
        is_task_of(run.plan, run.queue.first()),
        run.taken().running.contains(run.queue.first()),
{
    let next = run.taken();
    let first = run.queue.first();
    assert(run.queue.contains(first));
    assert(run.issued(first));
    assert(!run.running.contains(first));
    assert(next.running.no_duplicates()) by {
        assert forall|i: int, j: int|
            0 <= i < next.running.len() && 0 <= j < next.running.len() && i != j implies next.running[i]
            != next.running[j] by {
            if i < run.running.len() {
                assert(run.running.contains(run.running[i]));
            }
            if j < run.running.len() {
                assert(run.running.contains(run.running[j]));
            }
        }
    }
    lemma_drop_first_holds(run.queue, first);
    assert forall|task: TaskNode| #[trigger]
        next.history.contains(task) implies !next.running.contains(task) && !next.queue.contains(
            task,
        ) by {
        crate::lists::lemma_push_contains(run.running, first, task);
        lemma_drop_first_holds(run.queue, task);
    }
    assert forall|task: TaskNode| #[trigger] next.running.contains(task) implies !next.queue.contains(
        task,
    ) by {
        crate::lists::lemma_push_contains(run.running, first, task);
        lemma_drop_first_holds(run.queue, task);
        if run.running.contains(task) {
            assert(!run.queue.contains(task));
        }
    }
    assert forall|task: TaskNode| #[trigger]
        next.issued(task) <==> (is_task_of(next.plan, task)
            && next.nodes[task.group_node as int].remaining_predecessors == 0) by {
        crate::lists::lemma_push_contains(run.running, first, task);
        lemma_drop_first_holds(run.queue, task);
        assert(run.issued(task) <==> (is_task_of(run.plan, task)
            && run.nodes[task.group_node as int].remaining_predecessors == 0));
    }
    assert(next.running[run.running.len() as int] == first);
}

/// What is known of a running task: it is a task of the plan that has not
/// completed; its node waits for no predecessor and still counts a task;
/// and every successor of its node still counts a predecessor.
pub proof fn lemma_running_task(run: RunView, task: TaskNode)
    requires
        run.wf(),
        run.running.contains(task),
    ensures
        is_task_of(run.plan, task),
        !run.history.contains(task),
        !run.queue.contains(task),
        run.nodes[task.group_node as int].remaining_predecessors == 0,
        run.nodes[task.group_node as int].remaining_tasks >= 1,
        run.task_count >= 1,
        forall|m: int|
            0 <= m < run.plan[task.group_node as int].successors.len() ==> run.nodes[(
            #[trigger] run.plan[task.group_node as int].successors[m]) as int].remaining_predecessors
                >= 1,
{
    let at = task.group_node as int;
    assert(run.issued(task));
    let fresh = |t: TaskNode| !run.history.contains(t);
    assert(run.plan[at].tasks[task.index as int] == task);
    run.plan[at].tasks.lemma_filter_contains(fresh, task.index as int);
    assert(run.nodes[at].remaining_tasks == unran(run.plan, run.history, at));
    lemma_remaining_total_bounds(run.nodes, at);
    let n = run.plan.len();
    assert forall|m: int| 0 <= m < run.plan[at].successors.len() implies run.nodes[(
    #[trigger] run.plan[at].successors[m]) as int].remaining_predecessors >= 1 by {
        let to = run.plan[at].successors[m];
        assert(node_wf(run.plan, at));
        assert(to < n);
        let held = |from: usize|
            run.plan[from as int].successors.contains(to as usize) && run.nodes[from
                as int].remaining_tasks != 0;
        assert(run.plan[at].successors.contains(to));
        assert(places(n)[at] == at as usize);
        places(n).lemma_filter_contains(held, at);
        assert(run.nodes[to as int].remaining_predecessors == waiting_on(
            run.plan,
            run.nodes,
            to as int,
        ));
    }
}

/// How many tasks of a node have not run, after one more task has run.
pub proof fn lemma_unran_step(plan: Seq<NodeView>, history: Seq<TaskNode>, task: TaskNode, at: int)
    requires
        0 <= at < plan.len(),
        node_wf(plan, at),
        is_task_of(plan, task),
        !history.contains(task),
    ensures
        unran(plan, history.push(task), at) + (if at == task.group_node {
            1int
        } else {
            0int
        }) == unran(plan, history, at),
{
    let tasks = plan[at].tasks;
    let before = |t: TaskNode| !history.contains(t);
    let after = |t: TaskNode| !history.push(task).contains(t);
    assert forall|i: int| 0 <= i < tasks.len() && tasks[i] != task implies before(
        #[trigger] tasks[i],
    ) == after(tasks[i]) by {
        crate::lists::lemma_push_contains(history, task, tasks[i]);
    }
    crate::lists::lemma_push_contains(history, task, task);
    if at == task.group_node {
        lemma_node_tasks(plan, at);
        assert(tasks.contains(task));
        lemma_filter_one_less(tasks, before, after, task);
    } else {
        assert forall|i: int| 0 <= i < tasks.len() implies before(#[trigger] tasks[i]) == after(
            tasks[i],
        ) by {
            assert(tasks[i].group_node == at);
        }
        lemma_filter_agree(tasks, before, after);
    }
}

/// How many predecessors a node still waits for, after a task of the node
/// at `at` has completed.
pub proof fn lemma_waiting_step(plan: Seq<NodeView>, nodes: Seq<NodeView>, at: int, to: int)
    requires
        plan.len() <= usize::MAX,
        same_shape(plan, nodes),
        0 <= at < plan.len(),
        0 <= to < plan.len(),
        nodes[at].remaining_tasks >= 1,
    ensures
        waiting_on(plan, completed_nodes(nodes, at), to) + (if nodes[at].remaining_tasks == 1
            && plan[at].successors.contains(to as usize) {
            1int
        } else {
            0int
        }) == waiting_on(plan, nodes, to),
{
    let n = plan.len();
    let after = completed_nodes(nodes, at);
    let wide = |from: usize|
        plan[from as int].successors.contains(to as usize) && nodes[from as int].remaining_tasks
            != 0;
    let strict = |from: usize|
        plan[from as int].successors.contains(to as usize) && after[from as int].remaining_tasks
            != 0;
    lemma_places(n, at as usize);
    if nodes[at].remaining_tasks == 1 && plan[at].successors.contains(to as usize) {
        assert forall|i: int| 0 <= i < places(n).len() && places(n)[i] != at as usize implies wide(
            #[trigger] places(n)[i],
        ) == strict(places(n)[i]) by {}
        lemma_filter_one_less(places(n), wide, strict, at as usize);
    } else {
        assert forall|i: int| 0 <= i < places(n).len() implies wide(#[trigger] places(n)[i])
            == strict(places(n)[i]) by {}
        lemma_filter_agree(places(n), wide, strict);
    }
}

/// Where the tasks stand after a running task has completed.
pub proof fn lemma_completed_issued(run: RunView, task: TaskNode)
    requires
        run.wf(),
        run.running.contains(task),
    ensures
        run.completed(task).history.no_duplicates(),
        run.completed(task).running.no_duplicates(),
        run.completed(task).queue.no_duplicates(),
        forall|other: TaskNode| #[trigger]
            run.completed(task).history.contains(other) ==> !run.completed(task).running.contains(
                other,
            ) && !run.completed(task).queue.contains(other),
        forall|other: TaskNode| #[trigger]
            run.completed(task).running.contains(other) ==> !run.completed(task).queue.contains(
                other,
            ),
        forall|other: TaskNode| #[trigger]
            run.completed(task).issued(other) <==> (is_task_of(run.plan, other) && run.completed(
                task,
            ).nodes[other.group_node as int].remaining_predecessors == 0),
{
    let next = run.completed(task);
    let at = task.group_node as int;
    let plan = run.plan;
    let nodes = run.nodes;
    let after = next.nodes;
    let n = plan.len();
    let freed = released_tasks(nodes, at);
    let last = nodes[at].remaining_tasks == 1;
    let waits = |to: usize| nodes[to as int].remaining_predecessors == 1;
    let waiters = freed_nodes(nodes, at);
    lemma_running_task(run, task);
    assert(node_wf(plan, at));
    assert(nodes[at].successors == plan[at].successors);
    let slot = run.running.index_of(task);
    assert(run.running[slot] == task);
    lemma_remove_holds(run.running, slot, task);
    lemma_freed_nodes(nodes, at);
    assert forall|k: int| 0 <= k < n implies tasks_placed(nodes, k) by {
        assert(node_wf(plan, k));
        assert(nodes[k].tasks == plan[k].tasks);
    }
    lemma_tasks_of(nodes, waiters);
    assert forall|to: int| 0 <= to < n && last && plan[at].successors.contains(
        to as usize,
    ) implies nodes[to].remaining_predecessors >= 1 by {
        let m = choose|m: int|
            0 <= m < plan[at].successors.len() && plan[at].successors[m] == to as usize;
        assert(nodes[plan[at].successors[m] as int].remaining_predecessors >= 1);
    }
    // What the freed tasks are.
    assert forall|other: TaskNode| #[trigger] freed.contains(other) implies is_task_of(plan, other)
        && last && plan[at].successors.contains(other.group_node)
        && nodes[other.group_node as int].remaining_predecessors == 1 && !run.issued(other) by {
        assert(is_task_of(nodes, other) && waiters.contains(other.group_node));
        lemma_filter_holds(plan[at].successors, waits, other.group_node);
        assert(nodes[other.group_node as int].tasks == plan[other.group_node as int].tasks);
        assert(run.issued(other) <==> (is_task_of(plan, other)
            && nodes[other.group_node as int].remaining_predecessors == 0));
    }
    assert(next.history.no_duplicates()) by {
        assert forall|i: int, j: int|
            0 <= i < next.history.len() && 0 <= j < next.history.len() && i != j implies next.history[i]
            != next.history[j] by {
            if i < run.history.len() {
                assert(run.history.contains(run.history[i]));
            }
            if j < run.history.len() {
                assert(run.history.contains(run.history[j]));
            }
        }
    }
    assert(next.queue.no_duplicates()) by {
        assert forall|i: int, j: int| 0 <= i < run.queue.len() && 0 <= j < freed.len() implies run.queue[i]
            != freed[j] by {
            assert(run.queue.contains(run.queue[i]));
            assert(freed.contains(freed[j]));
        }
        lemma_no_dup_in_concat(run.queue, freed);
    }
    assert forall|other: TaskNode| #[trigger]
        next.history.contains(other) implies !next.running.contains(other) && !next.queue.contains(
            other,
        ) by {
        crate::lists::lemma_push_contains(run.history, task, other);
        lemma_remove_holds(run.running, slot, other);
        lemma_concat_contains(run.queue, freed, other);
        if freed.contains(other) {
            assert(!run.issued(other));
        }
        if run.history.contains(other) {
            assert(!run.running.contains(other) && !run.queue.contains(other));
        }
    }
    assert forall|other: TaskNode| #[trigger]
        next.running.contains(other) implies !next.queue.contains(other) by {
        lemma_remove_holds(run.running, slot, other);
        lemma_concat_contains(run.queue, freed, other);
        if freed.contains(other) {
            assert(!run.issued(other));
        }
        assert(run.running.contains(other));
        assert(!run.queue.contains(other));
    }
    assert forall|other: TaskNode| #[trigger]
        next.issued(other) <==> (is_task_of(plan, other)
            && after[other.group_node as int].remaining_predecessors == 0) by {
        crate::lists::lemma_push_contains(run.history, task, other);
        lemma_remove_holds(run.running, slot, other);
        lemma_concat_contains(run.queue, freed, other);
        lemma_filter_holds(plan[at].successors, waits, other.group_node);
        assert(run.issued(other) <==> (is_task_of(plan, other)
            && nodes[other.group_node as int].remaining_predecessors == 0));
        assert(next.issued(other) <==> (run.issued(other) || freed.contains(other)));
        if is_task_of(plan, other) {
            assert(nodes[other.group_node as int].tasks == plan[other.group_node as int].tasks);
            assert(is_task_of(nodes, other));
            if last && plan[at].successors.contains(other.group_node) {
                assert(nodes[other.group_node as int].remaining_predecessors >= 1);
            }
        }
        if freed.contains(other) {
            assert(is_task_of(plan, other));
        }
    }
}

/// The order of the tasks that have completed, after a running task has
/// completed.
pub proof fn lemma_completed_order(run: RunView, task: TaskNode)
    requires
        run.wf(),
        run.running.contains(task),
    ensures
        in_order(run.plan, run.history.push(task)),
{
    let at = task.group_node as int;
    let plan = run.plan;
    let nodes = run.nodes;
    let n = plan.len();
    let before = run.history;
    let after = before.push(task);
    lemma_running_task(run, task);
    assert forall|i: int, j: int|
        0 <= i < after.len() && 0 <= j < after.len() && plan[(
        #[trigger] after[i]).group_node as int].successors.contains(
            (#[trigger] after[j]).group_node,
        ) implies i < j by {
        if i < before.len() && j < before.len() {
            assert(after[i] == before[i] && after[j] == before[j]);
        } else if i == before.len() {
            let other = after[j];
            if j < before.len() {
                assert(before.contains(before[j]));
            }
            assert(run.issued(other));
            let to = other.group_node as int;
            let held = |from: usize|
                plan[from as int].successors.contains(to as usize) && nodes[from
                    as int].remaining_tasks != 0;
            assert(nodes[to].remaining_predecessors == waiting_on(plan, nodes, to));
            lemma_filter_none(places(n), held);
            assert(places(n)[at] == at as usize);
            assert(!held(places(n)[at]));
        }
    }
}

/// The completion of a running task leaves a run in order.
pub proof fn lemma_completed_in_order(run: RunView, task: TaskNode)
    requires
        run.wf(),
        run.running.contains(task),
    ensures
        run.completed(task).wf(),
{
    let next = run.completed(task);
    let at = task.group_node as int;
    let plan = run.plan;
    let nodes = run.nodes;
    let after = next.nodes;
    let n = plan.len();
    lemma_running_task(run, task);
    assert(node_wf(plan, at));
    assert(same_shape(plan, after));
    assert forall|k: int| 0 <= k < n implies (#[trigger] after[k]).remaining_tasks == unran(
        plan,
        next.history,
        k,
    ) by {
        assert(node_wf(plan, k));
        lemma_unran_step(plan, run.history, task, k);
        assert(nodes[k].remaining_tasks == unran(plan, run.history, k));
    }
    assert forall|to: int| 0 <= to < n implies (#[trigger] after[to]).remaining_predecessors
        == waiting_on(plan, after, to) by {
        lemma_waiting_step(plan, nodes, at, to);
        assert(nodes[to].remaining_predecessors == waiting_on(plan, nodes, to));
        assert(nodes[at].successors == plan[at].successors);
    }
    lemma_remaining_total_step(nodes, after, at);
    lemma_completed_issued(run, task);
    lemma_completed_order(run, task);
}

/// A step, the taking of the first task of the queue and its completion,
/// leaves a run in order.
pub proof fn lemma_step_in_order(run: RunView)
    requires
        run.wf(),
        run.queue.len() > 0,
    ensures
        run.stepped().wf(),
        run.task_count >= 1,
        is_task_of(run.plan, run.queue.first()),
{
    lemma_taken_in_order(run);
    lemma_running_task(run.taken(), run.queue.first());
    lemma_completed_in_order(run.taken(), run.queue.first());
}

/// A run that owes no task is whole, whatever the order in which its tasks
/// were taken and completed: every task of the plan has completed, once; no
/// task completed before a task of a node that runs before its own; nothing
/// waits and nothing is running; and every counter is at zero.
pub proof fn lemma_finished(run: RunView)
    requires
        run.wf(),
        run.task_count == 0,
    ensures
        complete_run(run.plan, run.history),
        run.queue.len() == 0,
        run.running.len() == 0,
        forall|at: int|
            0 <= at < run.nodes.len() ==> (#[trigger] run.nodes[at]).remaining_tasks == 0
                && run.nodes[at].remaining_predecessors == 0,
{
    let plan = run.plan;
    let nodes = run.nodes;
    let n = plan.len();
    let history = run.history;
    lemma_remaining_total_zero(nodes);
    assert forall|task: TaskNode| is_task_of(plan, task) implies #[trigger] history.contains(
        task,
    ) by {
        let at = task.group_node as int;
        let fresh = |t: TaskNode| !history.contains(t);
        assert(nodes[at].remaining_tasks == unran(plan, history, at));
        lemma_filter_none(plan[at].tasks, fresh);
        assert(!fresh(plan[at].tasks[task.index as int]));
    }
    assert forall|task: TaskNode| #[trigger] history.contains(task) <==> is_task_of(plan, task) by {
        if history.contains(task) {
            assert(run.issued(task));
        }
    }
    if run.queue.len() > 0 {
        assert(run.queue.contains(run.queue[0]));
        assert(run.issued(run.queue[0]));
        assert(history.contains(run.queue[0]));
    }
    if run.running.len() > 0 {
        assert(run.running.contains(run.running[0]));
        assert(run.issued(run.running[0]));
        assert(history.contains(run.running[0]));
    }
    assert forall|at: int| 0 <= at < n implies (#[trigger] nodes[at]).remaining_predecessors
        == 0 by {
        let held = |from: usize|
            plan[from as int].successors.contains(at as usize) && nodes[from as int].remaining_tasks
                != 0;
        assert(nodes[at].remaining_predecessors == waiting_on(plan, nodes, at));
        assert forall|i: int| 0 <= i < places(n).len() implies !held(#[trigger] places(n)[i]) by {
            assert(nodes[i].remaining_tasks == 0);
        }
        lemma_filter_none(places(n), held);
    }
}

/// Once the queue has drained and nothing is running, no node of a plan
/// without cycles waits for a predecessor.
pub proof fn lemma_no_node_waits(run: RunView, rank: Seq<nat>, to: int)
    requires
        run.wf(),
        run.queue.len() == 0,
        run.running.len() == 0,
        is_ranking(run.plan, rank),
        0 <= to < run.plan.len(),
    ensures
        run.nodes[to].remaining_predecessors == 0,
    decreases rank[to],
{
    let plan = run.plan;
    let nodes = run.nodes;
    let n = plan.len();
    if nodes[to].remaining_predecessors != 0 {
        let held = |from: usize|
            plan[from as int].successors.contains(to as usize) && nodes[from as int].remaining_tasks
                != 0;
        assert(nodes[to].remaining_predecessors == waiting_on(plan, nodes, to));
        lemma_filter_none(places(n), held);
        let i = choose|i: int| 0 <= i < places(n).len() && held(#[trigger] places(n)[i]);
        let from = i;
        assert(places(n)[i] == i as usize);
        let m = choose|m: int|
            0 <= m < plan[from].successors.len() && plan[from].successors[m] == to as usize;
        assert(rank[from] < rank[plan[from].successors[m] as int]);
        lemma_no_node_waits(run, rank, from);
        let fresh = |task: TaskNode| !run.history.contains(task);
        assert(nodes[from].remaining_tasks == unran(plan, run.history, from));
        lemma_filter_none(plan[from].tasks, fresh);
        let k = choose|k: int| 0 <= k < plan[from].tasks.len() && fresh(#[trigger] plan[from].tasks[k]);
        let task = plan[from].tasks[k];
        assert(node_wf(plan, from));
        assert(is_task_of(plan, task));
        assert(run.issued(task));
    }
}

/// Once the queue of a run of a plan without cycles has drained and nothing
/// is running, the run owes no task.
pub proof fn lemma_drained(run: RunView, rank: Seq<nat>)
    requires
        run.wf(),
        run.queue.len() == 0,
        run.running.len() == 0,
        is_ranking(run.plan, rank),
    ensures
        run.task_count == 0,
{
    let plan = run.plan;
    let nodes = run.nodes;
    let n = plan.len();
    assert forall|at: int| 0 <= at < n implies (#[trigger] nodes[at]).remaining_tasks == 0 by {
        let fresh = |task: TaskNode| !run.history.contains(task);
        assert(nodes[at].remaining_tasks == unran(plan, run.history, at));
        assert(node_wf(plan, at));
        lemma_no_node_waits(run, rank, at);
        assert forall|k: int| 0 <= k < plan[at].tasks.len() implies !fresh(
            #[trigger] plan[at].tasks[k],
        ) by {
            assert(is_task_of(plan, plan[at].tasks[k]));
            assert(run.issued(plan[at].tasks[k]));
        }
        lemma_filter_none(plan[at].tasks, fresh);
    }
    lemma_remaining_total_zero(nodes);
}

/// A run that owes no task shows that the plan has no cycle: the place of a
/// node's first task in the history numbers the nodes so that every edge
/// leads to a higher number.
pub proof fn lemma_whole_run_ranks(run: RunView)
    requires
        run.wf(),
        run.task_count == 0,
    ensures
        crate::topology::acyclic(run.plan),
{
    let plan = run.plan;
    let n = plan.len();
    let history = run.history;
    lemma_finished(run);
    assert forall|at: int| 0 <= at < n implies history.contains(#[trigger] plan[at].tasks[0]) by {
        assert(node_wf(plan, at));
        assert(is_task_of(plan, plan[at].tasks[0]));
    }
    let rank = Seq::new(n, |at: int| history.index_of(plan[at].tasks[0]) as nat);
    assert forall|from: int, m: int|
        0 <= from < n && 0 <= m < plan[from].successors.len() implies rank[from] < rank[(
    #[trigger] plan[from].successors[m]) as int] by {
        let to = plan[from].successors[m] as int;
        assert(node_wf(plan, from));
        assert(node_wf(plan, to));
        assert(history.contains(plan[from].tasks[0]));
        assert(history.contains(plan[to].tasks[0]));
        let i = history.index_of(plan[from].tasks[0]);
        let j = history.index_of(plan[to].tasks[0]);
        assert(history[i] == plan[from].tasks[0]);
        assert(history[j] == plan[to].tasks[0]);
        assert(history[i].group_node == from);
        assert(history[j].group_node == to);
        assert(plan[history[i].group_node as int].successors.contains(history[j].group_node));
    }
    assert(is_ranking(plan, rank));
}

/// Nodes with the same tasks give the same lists of tasks.
pub proof fn lemma_tasks_of_same(a: Seq<NodeView>, b: Seq<NodeView>, ats: Seq<usize>)
    requires
        a.len() == b.len(),
        forall|k: int| 0 <= k < a.len() ==> (#[trigger] a[k]).tasks == b[k].tasks,
        forall|i: int| 0 <= i < ats.len() ==> (#[trigger] ats[i]) < a.len(),
    ensures
        tasks_of(a, ats) == tasks_of(b, ats),
    decreases ats.len(),
{
    if ats.len() > 0 {
        let rest = ats.drop_last();
        assert forall|i: int| 0 <= i < rest.len() implies (#[trigger] rest[i]) < a.len() by {
            assert(rest[i] == ats[i]);
        }
        lemma_tasks_of_same(a, b, rest);
        assert(ats[ats.len() - 1] < a.len());
        assert(a[ats.last() as int].tasks == b[ats.last() as int].tasks);
    }
}

/// The nodes that a completion sets free are nodes of the plan, none named
/// twice.
pub proof fn lemma_freed_nodes(nodes: Seq<NodeView>, at: int)
    requires
        0 <= at < nodes.len(),
        nodes[at].successors.no_duplicates(),
        forall|m: int|
            0 <= m < nodes[at].successors.len() ==> (#[trigger] nodes[at].successors[m])
                < nodes.len(),
    ensures
        freed_nodes(nodes, at).no_duplicates(),
        forall|i: int|
            0 <= i < freed_nodes(nodes, at).len() ==> (#[trigger] freed_nodes(nodes, at)[i])
                < nodes.len(),
        forall|i: int|
            0 <= i < freed_nodes(nodes, at).len() ==> nodes[(#[trigger] freed_nodes(
                nodes,
                at,
            )[i]) as int].remaining_predecessors == 1,
{
    let freed = freed_nodes(nodes, at);
    let waits = |to: usize| nodes[to as int].remaining_predecessors == 1;
    if nodes[at].remaining_tasks == 1 {
        lemma_filter_no_repeats(nodes[at].successors, waits);
        assert forall|i: int| 0 <= i < freed.len() implies (#[trigger] freed[i]) < nodes.len()
            && nodes[freed[i] as int].remaining_predecessors == 1 by {
            assert(freed.contains(freed[i]));
            lemma_filter_holds(nodes[at].successors, waits, freed[i]);
            let m = choose|m: int|
                0 <= m < nodes[at].successors.len() && nodes[at].successors[m] == freed[i];
            assert(nodes[at].successors[m] < nodes.len());
        }
    }
}

/// The run after up to `steps` steps, each the taking of the first task of
/// the queue and its completion; it stops early where the queue is empty.
pub open spec fn run_on(run: RunView, steps: nat) -> RunView
    decreases steps,
{
    if steps == 0 || run.queue.len() == 0 {
        run
    } else {
        run_on(run.stepped(), (steps - 1) as nat)
    }
}

/// Tasks run in the order in which they were issued: what has completed and
/// what waits in the queue, in this order, stays at the front of that list
/// whatever steps follow.
pub proof fn lemma_issued_runs_first(run: RunView, steps: nat)
    requires
        run.running.len() == 0,
    ensures
        (run.history + run.queue).is_prefix_of(
            run_on(run, steps).history + run_on(run, steps).queue,
        ),
        run_on(run, steps).running.len() == 0,
        run_on(run, steps).plan == run.plan,
    decreases steps,
{
    if steps == 0 || run.queue.len() == 0 {
    } else {
        let next = run.stepped();
        let first = run.queue.first();
        let taken = run.taken();
        assert(taken.running =~= seq![first]);
        assert(taken.running[0] == first);
        assert(taken.running.contains(first));
        let slot = taken.running.index_of(first);
        assert(0 <= slot < 1);
        assert(next.running =~= Seq::<TaskNode>::empty());
        lemma_issued_runs_first(next, (steps - 1) as nat);
        assert(next.history + next.queue =~= (run.history + run.queue) + released_tasks(
            run.nodes,
            first.group_node as int,
        ));
    }
}

} // verus!
