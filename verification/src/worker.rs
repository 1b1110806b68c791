//! Workers: what drives a plan to completion.
use crate::error::TaskError;
use crate::schedule::complete_run;
use crate::schedule::completed_nodes;
use crate::schedule::freed_nodes;
use crate::schedule::lemma_completed_in_order;
use crate::schedule::lemma_drained;
use crate::schedule::lemma_finished;
use crate::schedule::lemma_running_task;
use crate::schedule::lemma_start_in_order;
use crate::schedule::lemma_step_in_order;
use crate::schedule::lemma_taken_in_order;
use crate::schedule::run_on;
use crate::schedule::RunView;
use crate::schedule::tasks_of;
use crate::topology::acyclic;
use crate::topology::GroupNode;
use crate::topology::is_ranking;
use crate::topology::is_task_of;
use crate::topology::node_views;
use crate::topology::node_wf;
use crate::topology::NodeView;
use crate::topology::PlanView;
use crate::topology::root_places;
use crate::topology::TaskNode;
use crate::topology::tasks_placed;
use crate::topology::Topology;
use crossbeam_deque::Injector;
use crossbeam_deque::Steal;
use std::collections::VecDeque;
use vstd::prelude::*;

verus! {

/// Default worker trait for executing tasks in the various ways.
///
/// A worker is driven in cycles of `ready`, `execute` and `wait_finish`.
pub trait Worker {
    /// The number of tasks that the worker still owes. A worker that does
    /// not say leaves it open.
    open spec fn pending(&self) -> nat {
        arbitrary()
    }

    /// Whether `execute` may be called. A worker that does not say leaves it
    /// open.
    open spec fn runnable(&self) -> bool {
        arbitrary()
    }

    /// Whether `wait_finish` may be called. A worker that does not say
    /// leaves it open.
    open spec fn finishing(&self) -> bool {
        arbitrary()
    }

    /// Whether the worker never fails: neither `ready` nor `execute` hands
    /// back an error. A worker that does not say leaves it open.
    open spec fn reliable(&self) -> bool {
        arbitrary()
    }

    /// What a successful `ready` with the plan `topology` makes of the
    /// worker: `after`. A worker that does not say leaves it open.
    open spec fn readied(&self, topology: PlanView, after: &Self) -> bool {
        arbitrary()
    }

    /// What a successful `execute` makes of the worker: `after`. A worker
    /// that does not say leaves it open.
    open spec fn executed(&self, after: &Self) -> bool {
        arbitrary()
    }

    /// What `wait_finish` makes of the worker: `after`. A worker that does
    /// not say leaves it open.
    open spec fn waited(&self, after: &Self) -> bool {
        arbitrary()
    }

    /// Whether `error` is an error that `ready` with the plan `topology` may
    /// hand back. A worker that does not say leaves it open.
    open spec fn ready_fails(&self, topology: PlanView, error: TaskError) -> bool {
        arbitrary()
    }

    /// Whether `error` is an error that `execute` may hand back. A worker
    /// that does not say leaves it open.
    open spec fn execute_fails(&self, error: TaskError) -> bool {
        arbitrary()
    }

    /// Ready worker with given topology: the worker owes every task of the
    /// plan, and the tasks of the roots wait to be taken.
    ///
    /// If ready is failed, return error code.
    fn ready(&mut self, topology: &Topology) -> (result: Result<(), TaskError>)
        ensures
            old(self).reliable() ==> result is Ok && final(self).reliable(),
            result is Ok ==> old(self).readied(topology@, final(self)),
            result matches Err(error) ==> old(self).ready_fails(topology@, error),
            result is Ok ==> final(self).pending() == topology@.task_count,
            result is Ok && acyclic(topology@.nodes) ==> final(self).runnable(),
    ;

    /// Execute worker and process tasks.
    ///
    /// If execution is failed, return error code.
    fn execute(&mut self) -> (result: Result<(), TaskError>)
        requires
            old(self).runnable(),
        ensures
            old(self).reliable() ==> result is Ok && final(self).reliable(),
            result is Ok ==> old(self).executed(final(self)),
            result matches Err(error) ==> old(self).execute_fails(error),
            result is Ok ==> final(self).finishing(),
    ;

    /// Returns once the worker owes no task.
    fn wait_finish(&mut self)
        requires
            old(self).finishing(),
        ensures
            final(self).pending() == 0,
            old(self).waited(final(self)),
    ;
}

/// The node at `k` while the completion of the last task of the node at `at`
/// is passed on: the successors in `told` have been told.
spec fn partly_told(nodes: Seq<NodeView>, at: int, told: Seq<usize>, k: int) -> NodeView {
    NodeView {
        remaining_tasks: if k == at {
            crate::topology::decreased(nodes[k].remaining_tasks)
        } else {
            nodes[k].remaining_tasks
        },
        remaining_predecessors: if told.contains(k as usize) {
            crate::topology::decreased(nodes[k].remaining_predecessors)
        } else {
            nodes[k].remaining_predecessors
        },
        ..nodes[k]
    }
}

/// The completion protocol: a task of the node at `at` has run.
///
/// The node counts one task less. If that was its last task, every successor
/// counts one predecessor less, and the places of the successors that waited
/// for this node alone are handed back, in the order of the successors:
/// their tasks are to be enqueued.
pub fn complete_task(nodes: &mut Vec<GroupNode>, at: usize) -> (ready: Vec<usize>)
    requires
        at < old(nodes).len(),
        node_views(old(nodes)@)[at as int].successors.no_duplicates(),
        forall|m: int|
            0 <= m < node_views(old(nodes)@)[at as int].successors.len() ==> (#[trigger] node_views(
                old(nodes)@,
            )[at as int].successors[m]) < old(nodes).len(),
    ensures
        node_views(final(nodes)@) == completed_nodes(node_views(old(nodes)@), at as int),
        ready@ == freed_nodes(node_views(old(nodes)@), at as int),
{
    let ghost before = node_views(nodes@);
    let ghost links = before[at as int].successors;
    let n = nodes.len();
    assert(before[at as int] == nodes@[at as int]@);
    let last = nodes[at].decrease_task_count();
    let mut ready: Vec<usize> = Vec::new();
    if last == 1 {
        let count = nodes[at].successor_nodes().len();
        let mut m: usize = 0;
        proof {
            reveal(Seq::filter);
            assert(links.take(0) =~= Seq::<usize>::empty());
            assert forall|k: int| 0 <= k < n implies (#[trigger] nodes@[k])@ == partly_told(
                before,
                at as int,
                links.take(0),
                k,
            ) by {
                assert(before[k] == old(nodes)@[k]@);
            }
        }
        while m < count
            invariant
                m <= count,
                count == links.len(),
                n == nodes@.len(),
                n == before.len(),
                at < n,
                links == before[at as int].successors,
                links.no_duplicates(),
                forall|i: int| 0 <= i < links.len() ==> (#[trigger] links[i]) < n,
                forall|k: int|
                    0 <= k < n ==> (#[trigger] nodes@[k])@ == partly_told(
                        before,
                        at as int,
                        links.take(m as int),
                        k,
                    ),
                ready@ == links.take(m as int).filter(
                    |to: usize| before[to as int].remaining_predecessors == 1,
                ),
            decreases count - m,
        {
            let ghost told = links.take(m as int);
            let ghost waits = |to: usize| before[to as int].remaining_predecessors == 1;
            assert(nodes@[at as int]@.successors == links);
            let to = nodes[at].successor_nodes()[m];
            proof {
                assert(to == links[m as int]);
                assert(links.take(m + 1) =~= told.push(to));
                told.lemma_filter_push(to, waits);
                if told.contains(to) {
                    let i = choose|i: int| 0 <= i < told.len() && told[i] == to;
                    assert(links[i] == links[m as int]);
                }
                assert(nodes@[to as int]@ == partly_told(before, at as int, told, to as int));
            }
            let ghost middle = nodes@;
            let last_waiting = nodes[to].decrease_predecessor_count();
            if last_waiting == 1 {
                ready.push(to);
            }
            proof {
                assert forall|k: int| 0 <= k < n implies (#[trigger] nodes@[k])@ == partly_told(
                    before,
                    at as int,
                    links.take(m + 1),
                    k,
                ) by {
                    crate::lists::lemma_push_contains(told, to, k as usize);
                    if k != to {
                        assert(nodes@[k] == middle[k]);
                    }
                    assert(middle[k]@ == partly_told(before, at as int, told, k));
                }
            }
            m += 1;
        }
        proof {
            assert(links.take(m as int) =~= links);
            assert forall|k: int| 0 <= k < n implies #[trigger] node_views(nodes@)[k]
                == completed_nodes(before, at as int)[k] by {
                assert(nodes@[k]@ == partly_told(before, at as int, links, k));
            }
            assert(node_views(nodes@) =~= completed_nodes(before, at as int));
        }
    } else {
        proof {
            assert forall|k: int| 0 <= k < n implies #[trigger] node_views(nodes@)[k]
                == completed_nodes(before, at as int)[k] by {
                if k != at {
                    assert(nodes@[k] == old(nodes)@[k]);
                }
                assert(before[k] == old(nodes)@[k]@);
            }
            assert(node_views(nodes@) =~= completed_nodes(before, at as int));
        }
    }
    ready
}

/// Appends a second node for each task of `tasks` to the back of `queue`.
fn enqueue_tasks(queue: &mut VecDeque<TaskNode>, tasks: &Vec<TaskNode>)
    ensures
        final(queue)@ == old(queue)@ + tasks@,
{
    let mut k: usize = 0;
    assert(queue@ =~= old(queue)@ + tasks@.take(0));
    while k < tasks.len()
        invariant
            k <= tasks.len(),
            queue@ == old(queue)@ + tasks@.take(k as int),
        decreases tasks.len() - k,
    {
        queue.push_back(tasks[k].duplicate());
        assert(queue@ =~= old(queue)@ + tasks@.take(k + 1));
        k += 1;
    }
    assert(tasks@.take(k as int) =~= tasks@);
}

/// Appends the tasks of the nodes at `ats` to the back of `queue`, node
/// after node.
fn enqueue_nodes(queue: &mut VecDeque<TaskNode>, nodes: &Vec<GroupNode>, ats: &Vec<usize>)
    requires
        forall|i: int| 0 <= i < ats@.len() ==> (#[trigger] ats@[i]) < nodes@.len(),
    ensures
        final(queue)@ == old(queue)@ + tasks_of(node_views(nodes@), ats@),
{
    let ghost plan = node_views(nodes@);
    let mut i: usize = 0;
    assert(ats@.take(0) =~= Seq::<usize>::empty());
    assert(queue@ =~= old(queue)@ + tasks_of(plan, ats@.take(0)));
    while i < ats.len()
        invariant
            i <= ats.len(),
            plan == node_views(nodes@),
            forall|i: int| 0 <= i < ats@.len() ==> (#[trigger] ats@[i]) < nodes@.len(),
            queue@ == old(queue)@ + tasks_of(plan, ats@.take(i as int)),
        decreases ats.len() - i,
    {
        proof {
            assert(ats@.take(i + 1).drop_last() =~= ats@.take(i as int));
            assert(plan[ats@[i as int] as int] == nodes@[ats@[i as int] as int]@);
        }
        let ghost before = queue@;
        enqueue_tasks(queue, nodes[ats[i]].task_nodes());
        assert(queue@ =~= old(queue)@ + tasks_of(plan, ats@.take(i + 1)));
        i += 1;
    }
    assert(ats@.take(i as int) =~= ats@);
}

/// A copy of the nodes of a plan, for a run of its own.
pub fn copy_nodes(nodes: &Vec<GroupNode>) -> (copy: Vec<GroupNode>)
    ensures
        node_views(copy@) == node_views(nodes@),
{
    let mut copy: Vec<GroupNode> = Vec::new();
    let mut k: usize = 0;
    while k < nodes.len()
        invariant
            k <= nodes.len(),
            copy@.len() == k,
            forall|i: int| 0 <= i < k ==> (#[trigger] copy@[i])@ == nodes@[i]@,
        decreases nodes.len() - k,
    {
        copy.push(nodes[k].duplicate());
        k += 1;
    }
    assert(node_views(copy@) =~= node_views(nodes@));
    copy
}

/// The roots of a plan are nodes of the plan.
proof fn lemma_roots_are_nodes(plan: Seq<NodeView>, i: int)
    requires
        plan.len() <= usize::MAX,
        0 <= i < root_places(plan).len(),
    ensures
        root_places(plan)[i] < plan.len(),
{
    let roots = root_places(plan);
    let is_root = |at: usize| plan[at as int].remaining_predecessors == 0;
    assert(roots.contains(roots[i]));
    crate::lists::lemma_filter_holds(crate::topology::places(plan.len()), is_root, roots[i]);
    crate::schedule::lemma_places(plan.len(), roots[i]);
}

/// Worker variation type which process tasks sequentially.
pub struct SequentialWorker {
    queue: VecDeque<TaskNode>,
    task_count: usize,
    group_nodes: Vec<GroupNode>,
    plan: Ghost<Seq<NodeView>>,
    history: Ghost<Seq<TaskNode>>,
}

impl View for SequentialWorker {
    type V = RunView;

    closed spec fn view(&self) -> RunView {
        RunView {
            plan: self.plan@,
            nodes: node_views(self.group_nodes@),
            queue: self.queue@,
            running: Seq::empty(),
            history: self.history@,
            task_count: self.task_count,
        }
    }
}

impl SequentialWorker {
    /// Create new sequential worker: it holds no plan and owes no task.
    pub fn new() -> (worker: Self)
        ensures
            worker@.wf(),
            worker@.plan.len() == 0,
            worker@.nodes.len() == 0,
            worker@.queue.len() == 0,
            worker@.running.len() == 0,
            worker@.history.len() == 0,
            worker@.task_count == 0,
    {
        let worker = SequentialWorker {
            queue: VecDeque::new(),
            task_count: 0,
            group_nodes: Vec::new(),
            plan: Ghost(Seq::empty()),
            history: Ghost(Seq::empty()),
        };
        proof {
            reveal(Seq::filter);
            let plan = Seq::<NodeView>::empty();
            assert(crate::topology::places(0) =~= Seq::<usize>::empty());
            assert(worker@ =~= RunView::start(plan)) by {
                assert(node_views(worker.group_nodes@) =~= plan);
                assert(worker@.queue =~= tasks_of(plan, root_places(plan)));
            }
            lemma_start_in_order(plan);
        }
        worker
    }

    /// The number of tasks that the worker still owes.
    pub fn task_count(&self) -> (count: usize)
        ensures
            count == self@.task_count,
    {
        self.task_count
    }

    /// Takes task after task from the front of the queue and passes its
    /// completion on, until the queue is empty. Where `invoke` holds, each
    /// task is called before, unless it has been released.
    fn drain(&mut self, invoke: bool)
        requires
            old(self)@.wf(),
        ensures
            final(self)@.wf(),
            final(self)@.plan == old(self)@.plan,
            old(self)@.history.is_prefix_of(final(self)@.history),
            final(self)@.queue.len() == 0,
            final(self)@.running.len() == 0,
            final(self)@ == run_on(old(self)@, old(self)@.task_count as nat),
    {
        loop
            invariant
                self@.wf(),
                self@.plan == old(self)@.plan,
                old(self)@.history.is_prefix_of(self@.history),
                run_on(self@, self@.task_count as nat) == run_on(
                    old(self)@,
                    old(self)@.task_count as nat,
                ),
            ensures
                self@.queue.len() == 0,
            decreases self.task_count,
        {
            let ghost run = self@;
            let task = match self.queue.pop_front() {
                Some(task) => task,
                None => {
                    break ;
                },
            };
            proof {
                lemma_step_in_order(run);
                assert(node_wf(run.plan, task.group_node as int));
                assert(run.nodes[task.group_node as int].successors
                    == run.plan[task.group_node as int].successors);
            }
            if invoke {
                task.invoke();
            }
            self.task_count = self.task_count - 1;
            let ready = complete_task(&mut self.group_nodes, task.group_node);
            proof {
                crate::schedule::lemma_freed_nodes(run.nodes, task.group_node as int);
                crate::schedule::lemma_tasks_of_same(
                    run.nodes,
                    node_views(self.group_nodes@),
                    ready@,
                );
            }
            enqueue_nodes(&mut self.queue, &self.group_nodes, &ready);
            self.history = Ghost(run.history.push(task));
            proof {
                let taken = run.taken();
                assert(taken.running =~= seq![task]);
                crate::lists::lemma_remove_holds(taken.running, 0, task);
                assert(run.stepped().running =~= Seq::<TaskNode>::empty());
                assert(self@.queue =~= run.stepped().queue);
                assert(self@ == run.stepped());
            }
        }
    }
}

impl Topology {
    /// Whether the edges of the plan form a cycle. A plan with a cycle cannot
    /// be run to its end: the nodes on the cycle wait for each other.
    pub fn is_cyclic(&self) -> (cyclic: bool)
        ensures
            cyclic == !acyclic(self@.nodes),
    {
        let mut trial = SequentialWorker::new();
        let _ = trial.ready(self);
        trial.drain(false);
        proof {
            if acyclic(self@.nodes) {
                let rank = choose|rank: Seq<nat>| is_ranking(self@.nodes, rank);
                lemma_drained(trial@, rank);
            }
            if trial@.task_count == 0 {
                crate::schedule::lemma_whole_run_ranks(trial@);
            }
        }
        trial.task_count != 0
    }
}

impl Worker for SequentialWorker {
    open spec fn pending(&self) -> nat {
        self@.task_count as nat
    }

    open spec fn runnable(&self) -> bool {
        self@.wf() && acyclic(self@.plan)
    }

    open spec fn finishing(&self) -> bool {
        self@.task_count == 0
    }

    open spec fn reliable(&self) -> bool {
        true
    }

    open spec fn waited(&self, after: &Self) -> bool {
        after@ == self@
    }

    open spec fn ready_fails(&self, topology: PlanView, error: TaskError) -> bool {
        false
    }

    open spec fn execute_fails(&self, error: TaskError) -> bool {
        false
    }

    open spec fn readied(&self, topology: PlanView, after: &Self) -> bool {
        after@ == RunView::start(topology.nodes)
    }

    open spec fn executed(&self, after: &Self) -> bool {
        &&& after@ == run_on(self@, self@.task_count as nat)
        &&& after@.plan == self@.plan
        &&& self@.history.is_prefix_of(after@.history)
        &&& complete_run(after@.plan, after@.history)
        &&& after@.task_count == 0
        &&& after@.queue.len() == 0
        &&& forall|at: int|
            0 <= at < after@.nodes.len() ==> (#[trigger] after@.nodes[at]).remaining_tasks == 0
                && after@.nodes[at].remaining_predecessors == 0
    }

    /// Takes a copy of the plan's nodes, forgets what ran before, and puts
    /// the tasks of the roots into the queue, root after root.
    fn ready(&mut self, topology: &Topology) -> (result: Result<(), TaskError>)
        ensures
            result is Ok,
            final(self)@ == RunView::start(topology@.nodes),
            final(self)@.wf(),
            final(self)@.task_count == topology@.task_count,
            final(self)@.queue == tasks_of(topology@.nodes, topology@.roots),
    {
        let nodes = topology.group_nodes();
        let roots = topology.root_groups();
        let ghost plan = topology@.nodes;
        let mut queue: VecDeque<TaskNode> = VecDeque::new();
        proof {
            assert forall|i: int| 0 <= i < roots@.len() implies (#[trigger] roots@[i])
                < nodes@.len() by {
                lemma_roots_are_nodes(plan, i);
            }
        }
        enqueue_nodes(&mut queue, nodes, roots);
        assert(queue@ =~= tasks_of(plan, roots@));
        self.group_nodes = copy_nodes(nodes);
        self.queue = queue;
        self.task_count = topology.task_count();
        self.plan = Ghost(plan);
        self.history = Ghost(Seq::empty());
        proof {
            lemma_start_in_order(plan);
        }
        Ok(())
    }

    /// Runs every task: takes the task at the front of the queue, calls it
    /// unless it has been released, and passes its completion on, until the
    /// queue is empty.
    fn execute(&mut self) -> (result: Result<(), TaskError>)
        ensures
            result is Ok,
            final(self)@.wf(),
            final(self)@ == run_on(old(self)@, old(self)@.task_count as nat),
            final(self)@.plan == old(self)@.plan,
            old(self)@.history.is_prefix_of(final(self)@.history),
            complete_run(final(self)@.plan, final(self)@.history),
            final(self)@.queue.len() == 0,
            final(self)@.task_count == 0,
            forall|at: int|
                0 <= at < final(self)@.nodes.len() ==> (#[trigger] final(self)@.nodes[at]).remaining_tasks
                    == 0 && final(self)@.nodes[at].remaining_predecessors == 0,
    {
        self.drain(true);
        proof {
            let rank = choose|rank: Seq<nat>| is_ranking(self@.plan, rank);
            lemma_drained(self@, rank);
            lemma_finished(self@);
        }
        Ok(())
    }

    /// Returns at once: `execute` has run every task.
    fn wait_finish(&mut self)
        ensures
            final(self)@ == old(self)@,
    {
    }
}

/// The threads of a threading worker that have parked themselves, by their
/// numbers, in the order in which they parked; and whether more may park.
pub struct BlockedThreads {
    list: Vec<usize>,
    insertable: bool,
}

impl BlockedThreads {
    /// The numbers of the parked threads, the one that has waited longest
    /// first.
    pub closed spec fn parked(&self) -> Seq<usize> {
        self.list@
    }

    /// Whether a thread may still park.
    pub closed spec fn insertable(&self) -> bool {
        self.insertable
    }

    /// No thread is parked, and threads may park.
    pub fn new() -> (blocked: Self)
        ensures
            blocked.parked().len() == 0,
            blocked.insertable(),
    {
        BlockedThreads { list: Vec::new(), insertable: true }
    }

    /// Whether a thread may still park.
    pub fn is_insertable(&self) -> (insertable: bool)
        ensures
            insertable == self.insertable(),
    {
        self.insertable
    }

    /// Records that the thread `thread` parks.
    pub fn push(&mut self, thread: usize)
        requires
            old(self).insertable(),
        ensures
            final(self).parked() == old(self).parked().push(thread),
            final(self).insertable(),
    {
        self.list.push(thread);
    }

    /// Takes the `count` threads that have waited longest off the list, or
    /// all if there are fewer, and hands back their numbers: they are to be
    /// woken.
    pub fn try_unparks_of(&mut self, count: usize) -> (woken: Vec<usize>)
        ensures
            woken@ == old(self).parked().take(woken_count(old(self).parked(), count as nat)),
            final(self).parked() == old(self).parked().skip(
                woken_count(old(self).parked(), count as nat),
            ),
            final(self).insertable() == old(self).insertable(),
    {
        let taken = if count < self.list.len() {
            count
        } else {
            self.list.len()
        };
        let mut rest = self.list.split_off(taken);
        std::mem::swap(&mut self.list, &mut rest);
        rest
    }

    /// Takes every thread off the list and hands back their numbers: they
    /// are to be woken.
    pub fn unpark_all(&mut self) -> (woken: Vec<usize>)
        ensures
            woken@ == old(self).parked(),
            final(self).parked().len() == 0,
            final(self).insertable() == old(self).insertable(),
    {
        let mut woken: Vec<usize> = Vec::new();
        std::mem::swap(&mut self.list, &mut woken);
        woken
    }

    /// From now on no thread may park.
    pub fn close(&mut self)
        ensures
            final(self).parked() == old(self).parked(),
            !final(self).insertable(),
    {
        self.insertable = false;
    }
}

/// How many of the parked threads are woken when `count` are asked for.
pub open spec fn woken_count(parked: Seq<usize>, count: nat) -> int {
    if count < parked.len() {
        count as int
    } else {
        parked.len() as int
    }
}

/// `crossbeam_deque::Injector`, carried through as an opaque value.
#[verifier::external_type_specification]
#[verifier::external_body]
#[verifier::reject_recursive_types(T)]
pub struct ExInjector<T>(Injector<T>);

/// The items that wait in an injector queue, the next one to leave first.
pub uninterp spec fn injector_items(queue: Injector<(usize, usize)>) -> Seq<(usize, usize)>;

/// What one attempt to take an item from the injector queue brought.
pub enum Stolen {
    /// The queue was empty.
    Empty,
    /// The item that was taken.
    Success((usize, usize)),
    /// Nothing was taken; the attempt may be repeated.
    Retry,
}

/// Calls `Injector::new`: a queue without items.
#[verifier::external_body]
fn injector_new() -> (queue: Injector<(usize, usize)>)
    ensures
        injector_items(queue) == Seq::<(usize, usize)>::empty(),
{
    Injector::new()
}

/// Calls `Injector::push` on a queue that nobody else holds: the item joins
/// the end of the queue.
#[verifier::external_body]
fn injector_push(queue: &mut Injector<(usize, usize)>, item: (usize, usize))
    ensures
        injector_items(*final(queue)) == injector_items(*old(queue)).push(item),
{
    queue.push(item)
}

/// Calls `Injector::steal` on a queue that nobody else holds. `Success` hands
/// out the first item, which leaves the queue. `Empty` comes only from an
/// empty queue. `Retry` may come at any time; it leaves the queue as it is.
#[verifier::external_body]
fn injector_steal(queue: &mut Injector<(usize, usize)>) -> (stolen: Stolen)
    ensures
        match stolen {
            Stolen::Success(item) => injector_items(*old(queue)).len() > 0 && item
                == injector_items(*old(queue)).first() && injector_items(*final(queue))
                == injector_items(*old(queue)).drop_first(),
            Stolen::Empty => injector_items(*old(queue)).len() == 0 && injector_items(*final(queue))
                == injector_items(*old(queue)),
            Stolen::Retry => injector_items(*final(queue)) == injector_items(*old(queue)),
        },
{
    match queue.steal() {
        Steal::Empty => Stolen::Empty,
        Steal::Success(item) => Stolen::Success(item),
        Steal::Retry => Stolen::Retry,
    }
}

/// Where a task node stands: the place of its group node, and its place
/// among the tasks of that node.
pub open spec fn spot(task: TaskNode) -> (usize, usize) {
    (task.group_node, task.index)
}

/// Where the task nodes of a list stand.
pub open spec fn spots(tasks: Seq<TaskNode>) -> Seq<(usize, usize)> {
    tasks.map_values(|task: TaskNode| spot(task))
}

/// Whether a task node stands at `at`.
pub open spec fn is_spot(nodes: Seq<NodeView>, at: (usize, usize)) -> bool {
    at.0 < nodes.len() && at.1 < nodes[at.0 as int].tasks.len()
}

/// The task node that stands at `at`.
pub open spec fn task_at(nodes: Seq<NodeView>, at: (usize, usize)) -> TaskNode {
    nodes[at.0 as int].tasks[at.1 as int]
}

/// The task nodes that stand at `ats`.
pub open spec fn tasks_at(nodes: Seq<NodeView>, ats: Seq<(usize, usize)>) -> Seq<TaskNode> {
    ats.map_values(|at: (usize, usize)| task_at(nodes, at))
}

/// How many parked threads the worker asks to wake for the nodes at `ats`
/// that have become ready: for each as many as it has tasks, but no more
/// than the worker has threads.
pub open spec fn wake_total(nodes: Seq<NodeView>, ats: Seq<usize>, threads: usize) -> nat
    decreases ats.len(),
{
    if ats.len() == 0 {
        0
    } else {
        wake_total(nodes, ats.drop_last(), threads) + if nodes[ats.last() as int].remaining_tasks
            < threads {
            nodes[ats.last() as int].remaining_tasks as nat
        } else {
            threads as nat
        }
    }
}

/// What a worker thread does next.
pub enum WorkerAction {
    /// The worker has been terminated: the thread ends.
    Exit,
    /// The thread calls the task, unless it has been released, and reports
    /// its completion.
    Run(TaskNode),
    /// The thread has been recorded as parked: it parks, and asks again once
    /// it is woken.
    Park,
    /// The thread waits a moment and asks again.
    Spin,
}

/// What the threads of a threading worker share: the queue of tasks, the
/// counters of the plan that is run, the tasks that are running, the list of
/// parked threads, and the task counter. The threads themselves ask it what
/// to do, one at a time.
pub struct ThreadingWorker {
    global_fifo: Injector<(usize, usize)>,
    thread_count: usize,
    blocked_threads: BlockedThreads,
    is_worker_terminated: bool,
    task_count: usize,
    group_nodes: Vec<GroupNode>,
    running: Vec<(usize, usize)>,
    plan: Ghost<Seq<NodeView>>,
    history: Ghost<Seq<TaskNode>>,
}

/// What a threading worker is to the contracts of this crate.
pub ghost struct PoolView {
    /// The run of the plan that the worker holds.
    pub run: RunView,
    /// The numbers of the parked threads, the one that has waited longest
    /// first.
    pub parked: Seq<usize>,
    /// Whether a thread may still park.
    pub insertable: bool,
    /// Whether the worker has been terminated.
    pub terminated: bool,
    /// The number of threads.
    pub threads: usize,
}

impl PoolView {
    /// The worker is in order: it has a thread, and its run is in order.
    pub open spec fn wf(self) -> bool {
        self.threads >= 1 && self.run.wf()
    }
}

impl View for ThreadingWorker {
    type V = PoolView;

    closed spec fn view(&self) -> PoolView {
        PoolView {
            run: RunView {
                plan: self.plan@,
                nodes: node_views(self.group_nodes@),
                queue: tasks_at(node_views(self.group_nodes@), injector_items(self.global_fifo)),
                running: tasks_at(node_views(self.group_nodes@), self.running@),
                history: self.history@,
                task_count: self.task_count,
            },
            parked: self.blocked_threads.parked(),
            insertable: self.blocked_threads.insertable(),
            terminated: self.is_worker_terminated,
            threads: self.thread_count,
        }
    }
}

/// Puts where each task of `tasks` stands at the end of the queue.
fn inject_tasks(queue: &mut Injector<(usize, usize)>, tasks: &Vec<TaskNode>)
    ensures
        injector_items(*final(queue)) == injector_items(*old(queue)) + spots(tasks@),
{
    let mut k: usize = 0;
    assert(injector_items(*queue) =~= injector_items(*old(queue)) + spots(tasks@.take(0)));
    while k < tasks.len()
        invariant
            k <= tasks.len(),
            injector_items(*queue) == injector_items(*old(queue)) + spots(tasks@.take(k as int)),
        decreases tasks.len() - k,
    {
        injector_push(queue, (tasks[k].group_node, tasks[k].index));
        assert(injector_items(*queue) =~= injector_items(*old(queue)) + spots(
            tasks@.take(k + 1),
        ));
        k += 1;
    }
    assert(tasks@.take(k as int) =~= tasks@);
}

/// Puts where the tasks of the nodes at `ats` stand at the end of the queue,
/// node after node.
fn inject_nodes(queue: &mut Injector<(usize, usize)>, nodes: &Vec<GroupNode>, ats: &Vec<usize>)
    requires
        forall|i: int| 0 <= i < ats@.len() ==> (#[trigger] ats@[i]) < nodes@.len(),
    ensures
        injector_items(*final(queue)) == injector_items(*old(queue)) + spots(
            tasks_of(node_views(nodes@), ats@),
        ),
{
    let ghost plan = node_views(nodes@);
    let mut i: usize = 0;
    assert(ats@.take(0) =~= Seq::<usize>::empty());
    assert(injector_items(*queue) =~= injector_items(*old(queue)) + spots(
        tasks_of(plan, ats@.take(0)),
    ));
    while i < ats.len()
        invariant
            i <= ats.len(),
            plan == node_views(nodes@),
            forall|i: int| 0 <= i < ats@.len() ==> (#[trigger] ats@[i]) < nodes@.len(),
            injector_items(*queue) == injector_items(*old(queue)) + spots(
                tasks_of(plan, ats@.take(i as int)),
            ),
        decreases ats.len() - i,
    {
        proof {
            assert(ats@.take(i + 1).drop_last() =~= ats@.take(i as int));
            assert(plan[ats@[i as int] as int] == nodes@[ats@[i as int] as int]@);
        }
        inject_tasks(queue, nodes[ats[i]].task_nodes());
        proof {
            let head = tasks_of(plan, ats@.take(i as int));
            let tail = plan[ats@[i as int] as int].tasks;
            assert(spots(head + tail) =~= spots(head) + spots(tail));
            assert(injector_items(*queue) =~= injector_items(*old(queue)) + spots(
                tasks_of(plan, ats@.take(i + 1)),
            ));
        }
        i += 1;
    }
    assert(ats@.take(i as int) =~= ats@);
}

/// The tasks of a list of nodes are found where they say they stand.
proof fn lemma_spots_of_nodes(nodes: Seq<NodeView>, ats: Seq<usize>)
    requires
        forall|at: int| 0 <= at < nodes.len() ==> tasks_placed(nodes, at),
        ats.no_duplicates(),
        forall|k: int| 0 <= k < ats.len() ==> (#[trigger] ats[k]) < nodes.len(),
    ensures
        tasks_at(nodes, spots(tasks_of(nodes, ats))) == tasks_of(nodes, ats),
        forall|i: int|
            0 <= i < spots(tasks_of(nodes, ats)).len() ==> is_spot(
                nodes,
                #[trigger] spots(tasks_of(nodes, ats))[i],
            ),
{
    let tasks = tasks_of(nodes, ats);
    crate::schedule::lemma_tasks_of(nodes, ats);
    assert forall|i: int| 0 <= i < tasks.len() implies is_task_of(nodes, #[trigger] tasks[i]) by {
        assert(tasks.contains(tasks[i]));
    }
    assert(tasks_at(nodes, spots(tasks)) =~= tasks);
}

/// Nodes with the same tasks have the same tasks at the same places.
proof fn lemma_tasks_at_same(a: Seq<NodeView>, b: Seq<NodeView>, ats: Seq<(usize, usize)>)
    requires
        a.len() == b.len(),
        forall|k: int| 0 <= k < a.len() ==> (#[trigger] a[k]).tasks == b[k].tasks,
        forall|i: int| 0 <= i < ats.len() ==> is_spot(a, #[trigger] ats[i]),
    ensures
        tasks_at(a, ats) == tasks_at(b, ats),
{
    assert forall|i: int| 0 <= i < ats.len() implies #[trigger] tasks_at(a, ats)[i] == tasks_at(
        b,
        ats,
    )[i] by {
        assert(is_spot(a, ats[i]));
        assert(a[ats[i].0 as int].tasks == b[ats[i].0 as int].tasks);
    }
    assert(tasks_at(a, ats) =~= tasks_at(b, ats));
}

impl ThreadingWorker {
    /// Whether a task stands wherever the queue and the list of running
    /// tasks say.
    pub closed spec fn placed(&self) -> bool {
        &&& forall|i: int|
            0 <= i < injector_items(self.global_fifo).len() ==> is_spot(
                node_views(self.group_nodes@),
                #[trigger] injector_items(self.global_fifo)[i],
            )
        &&& forall|i: int|
            0 <= i < self.running@.len() ==> is_spot(
                node_views(self.group_nodes@),
                #[trigger] self.running@[i],
            )
    }

    /// The worker is in order.
    pub open spec fn wf(&self) -> bool {
        self@.wf() && self.placed()
    }

    /// The shared state of a worker with `hardware_concurrency` threads;
    /// `None` where that is zero. The worker holds no plan and owes no task;
    /// no thread is parked, and threads may park.
    pub fn try_new(hardware_concurrency: usize) -> (worker: Option<Self>)
        ensures
            worker is None <==> hardware_concurrency == 0,
            worker matches Some(w) ==> w.wf() && w@ == (PoolView {
                run: RunView::start(Seq::empty()),
                parked: Seq::empty(),
                insertable: true,
                terminated: false,
                threads: hardware_concurrency,
            }),
    {
        if hardware_concurrency == 0 {
            return None;
        }
        let worker = ThreadingWorker {
            global_fifo: injector_new(),
            thread_count: hardware_concurrency,
            blocked_threads: BlockedThreads::new(),
            is_worker_terminated: false,
            task_count: 0,
            group_nodes: Vec::new(),
            running: Vec::new(),
            plan: Ghost(Seq::empty()),
            history: Ghost(Seq::empty()),
        };
        proof {
            reveal(Seq::filter);
            let plan = Seq::<NodeView>::empty();
            assert(crate::topology::places(0) =~= Seq::<usize>::empty());
            assert(node_views(worker.group_nodes@) =~= plan);
            assert(worker@.run.queue =~= tasks_of(plan, root_places(plan)));
            assert(worker@.run.running =~= Seq::<TaskNode>::empty());
            assert(worker@.run =~= RunView::start(plan));
            assert(worker@.parked =~= Seq::empty());
            lemma_start_in_order(plan);
        }
        Some(worker)
    }

    /// The number of threads.
    pub fn thread_count(&self) -> (count: usize)
        ensures
            count == self@.threads,
    {
        self.thread_count
    }

    /// The number of tasks that the worker still owes.
    pub fn task_count(&self) -> (count: usize)
        ensures
            count == self@.run.task_count,
    {
        self.task_count
    }

    /// Whether the worker owes no task. A worker in order that owes no task
    /// has run its plan whole: every task has completed, once, and none
    /// before a task of a node that runs before its own.
    pub fn is_finished(&self) -> (finished: bool)
        ensures
            finished == (self@.run.task_count == 0),
            finished && self.wf() ==> complete_run(self@.run.plan, self@.run.history)
                && self@.run.queue.len() == 0 && self@.run.running.len() == 0,
    {
        proof {
            if self.task_count == 0 && self.wf() {
                lemma_finished(self@.run);
            }
        }
        self.task_count == 0
    }

    /// Whether the worker has been terminated.
    pub fn is_terminated(&self) -> (terminated: bool)
        ensures
            terminated == self@.terminated,
    {
        self.is_worker_terminated
    }

    /// How many nodes the plan has that the worker runs.
    pub fn node_count(&self) -> (count: usize)
        ensures
            count == self@.run.nodes.len(),
    {
        proof {
            assert(node_views(self.group_nodes@).len() == self.group_nodes@.len());
        }
        self.group_nodes.len()
    }

    /// Whether the task that stands where `task` says is running: it has
    /// been handed out to a thread, and its completion has not been
    /// reported.
    pub fn is_running(&self, task: &TaskNode) -> (running: bool)
        requires
            self.wf(),
        ensures
            running == (is_spot(self@.run.nodes, spot(*task)) && self@.run.running.contains(
                task_at(self@.run.nodes, spot(*task)),
            )),
    {
        let ghost nodes = node_views(self.group_nodes@);
        let ghost at = spot(*task);
        let mut k: usize = 0;
        while k < self.running.len()
            invariant
                k <= self.running.len(),
                self.wf(),
                nodes == node_views(self.group_nodes@),
                at == spot(*task),
                forall|i: int| 0 <= i < k ==> self.running@[i] != at,
            decreases self.running.len() - k,
        {
            if self.running[k].0 == task.group_node && self.running[k].1 == task.index {
                proof {
                    assert(self.running@[k as int] == at);
                    assert(is_spot(nodes, self.running@[k as int]));
                    assert(self@.run.running[k as int] == task_at(nodes, at));
                }
                return true;
            }
            k += 1;
        }
        proof {
            if is_spot(nodes, at) && self@.run.running.contains(task_at(nodes, at)) {
                let i = choose|i: int|
                    0 <= i < self@.run.running.len() && self@.run.running[i] == task_at(nodes, at);
                let other = self.running@[i];
                assert(is_spot(nodes, other));
                assert(node_wf(self@.run.plan, other.0 as int));
                assert(node_wf(self@.run.plan, at.0 as int));
                assert(nodes[other.0 as int].tasks == self@.run.plan[other.0 as int].tasks);
                assert(nodes[at.0 as int].tasks == self@.run.plan[at.0 as int].tasks);
                assert(task_at(nodes, other).group_node == other.0);
                assert(task_at(nodes, other).index == other.1);
                assert(task_at(nodes, at).group_node == at.0);
                assert(task_at(nodes, at).index == at.1);
            }
        }
        false
    }

    /// Takes a copy of the plan's nodes and sets the task counter, then puts
    /// the tasks of the roots into an empty queue, root after root. What ran
    /// before is forgotten.
    pub fn ready(&mut self, topology: &Topology)
        requires
            old(self).wf(),
        ensures
            final(self).wf(),
            final(self)@ == (PoolView { run: RunView::start(topology@.nodes), ..old(self)@ }),
            final(self)@.run.task_count == topology@.task_count,
            final(self)@.run.queue == tasks_of(topology@.nodes, topology@.roots),
    {
        let nodes = topology.group_nodes();
        let roots = topology.root_groups();
        let ghost plan = topology@.nodes;
        self.task_count = topology.task_count();
        self.group_nodes = copy_nodes(nodes);
        self.global_fifo = injector_new();
        self.running = Vec::new();
        self.plan = Ghost(plan);
        self.history = Ghost(Seq::empty());
        proof {
            assert forall|i: int| 0 <= i < roots@.len() implies (#[trigger] roots@[i])
                < nodes@.len() by {
                lemma_roots_are_nodes(plan, i);
            }
        }
        inject_nodes(&mut self.global_fifo, nodes, roots);
        proof {
            assert(injector_items(self.global_fifo) =~= spots(tasks_of(plan, roots@)));
            assert forall|at: int| 0 <= at < plan.len() implies tasks_placed(plan, at) by {
                assert(node_wf(plan, at));
            }
            let is_root = |at: usize| plan[at as int].remaining_predecessors == 0;
            crate::schedule::lemma_places(plan.len(), 0);
            crate::lists::lemma_filter_no_repeats(crate::topology::places(plan.len()), is_root);
            lemma_spots_of_nodes(plan, roots@);
            assert(self@.run.running =~= Seq::<TaskNode>::empty());
            assert(self@.run =~= RunView::start(plan));
            lemma_start_in_order(plan);
        }
    }

    /// Kicks the threads off: every parked thread leaves the list, and their
    /// numbers are handed back: they are to be woken.
    pub fn execute(&mut self) -> (woken: Vec<usize>)
        ensures
            woken@ == old(self)@.parked,
            final(self)@ == (PoolView { parked: Seq::empty(), ..old(self)@ }),
            old(self).wf() ==> final(self).wf(),
    {
        let woken = self.blocked_threads.unpark_all();
        assert(self@.parked =~= Seq::empty());
        woken
    }

    /// Marks the worker as terminated: from now on every thread that asks
    /// what to do is told to end.
    pub fn terminate(&mut self)
        ensures
            final(self)@ == (PoolView { terminated: true, ..old(self)@ }),
            old(self).wf() ==> final(self).wf(),
    {
        self.is_worker_terminated = true;
    }

    /// Closes the list of parked threads: no thread may park any more, every
    /// parked thread leaves the list, and their numbers are handed back: they
    /// are to be woken.
    pub fn close(&mut self) -> (woken: Vec<usize>)
        ensures
            woken@ == old(self)@.parked,
            final(self)@ == (PoolView { parked: Seq::empty(), insertable: false, ..old(self)@ }),
            old(self).wf() ==> final(self).wf(),
    {
        self.blocked_threads.close();
        let woken = self.blocked_threads.unpark_all();
        assert(self@.parked =~= Seq::empty());
        woken
    }

    /// What the thread `thread` does after an attempt to take a task from the
    /// queue has brought `stolen`: with a task it runs it; with an empty
    /// queue it parks, and is recorded as parked, if threads may still park;
    /// else it waits a moment.
    pub fn next_action(&mut self, thread: usize, stolen: Stolen) -> (action: WorkerAction)
        requires
            stolen matches Stolen::Success(at) ==> is_spot(old(self)@.run.nodes, at),
        ensures
            old(self).wf() ==> final(self).wf(),
            match stolen {
                Stolen::Success(at) => action == WorkerAction::Run(
                    task_at(old(self)@.run.nodes, at),
                ) && final(self)@ == old(self)@,
                Stolen::Empty => if old(self)@.insertable {
                    action == WorkerAction::Park && final(self)@ == (PoolView {
                        parked: old(self)@.parked.push(thread),
                        ..old(self)@
                    })
                } else {
                    action == WorkerAction::Spin && final(self)@ == old(self)@
                },
                Stolen::Retry => action == WorkerAction::Spin && final(self)@ == old(self)@,
            },
    {
        match stolen {
            Stolen::Success(at) => {
                assert(node_views(self.group_nodes@)[at.0 as int] == self.group_nodes@[at.0 as int]@);
                WorkerAction::Run(self.group_nodes[at.0].task_nodes()[at.1].duplicate())
            },
            Stolen::Empty => {
                if self.blocked_threads.is_insertable() {
                    self.blocked_threads.push(thread);
                    WorkerAction::Park
                } else {
                    WorkerAction::Spin
                }
            },
            Stolen::Retry => WorkerAction::Spin,
        }
    }

    /// What the thread `thread` does next. A terminated worker tells it to
    /// end. Else one attempt is made to take a task from the queue: a task
    /// that is handed out is the first of the queue, has left it, and is
    /// running; the thread is told to park only when the queue is empty and
    /// threads may park, and is then recorded as parked; told to wait a
    /// moment, it finds the worker as it was.
    pub fn fetch(&mut self, thread: usize) -> (action: WorkerAction)
        requires
            old(self).wf(),
        ensures
            final(self).wf(),
            old(self)@.terminated ==> action == WorkerAction::Exit && final(self)@ == old(self)@,
            !old(self)@.terminated ==> match action {
                WorkerAction::Exit => false,
                WorkerAction::Run(task) => old(self)@.run.queue.len() > 0
                    && task == old(self)@.run.queue.first() && final(self)@ == (PoolView {
                    run: old(self)@.run.taken(),
                    ..old(self)@
                }) && is_spot(final(self)@.run.nodes, spot(task)) && task_at(
                    final(self)@.run.nodes,
                    spot(task),
                ) == task && final(self)@.run.running.contains(task),
                WorkerAction::Park => old(self)@.run.queue.len() == 0 && old(self)@.insertable
                    && final(self)@ == (PoolView {
                    parked: old(self)@.parked.push(thread),
                    ..old(self)@
                }),
                WorkerAction::Spin => final(self)@ == old(self)@,
            },
    {
        if self.is_worker_terminated {
            return WorkerAction::Exit;
        }
        let ghost nodes = node_views(self.group_nodes@);
        let ghost items = injector_items(self.global_fifo);
        let stolen = injector_steal(&mut self.global_fifo);
        match stolen {
            Stolen::Success(at) => {
                self.running.push(at);
                proof {
                    assert(is_spot(nodes, items[0]));
                    assert(old(self)@.run.queue[0] == task_at(nodes, at));
                    assert(self@.run.queue =~= old(self)@.run.queue.drop_first());
                    assert(self@.run.running =~= old(self)@.run.running.push(task_at(nodes, at)));
                    assert(self@.run == old(self)@.run.taken());
                    lemma_taken_in_order(old(self)@.run);
                    assert(node_wf(self@.run.plan, at.0 as int));
                    assert(nodes[at.0 as int].tasks == self@.run.plan[at.0 as int].tasks);
                    assert(spot(task_at(nodes, at)) == at);
                    assert forall|i: int|
                        0 <= i < injector_items(self.global_fifo).len() implies is_spot(
                        nodes,
                        #[trigger] injector_items(self.global_fifo)[i],
                    ) by {
                        assert(injector_items(self.global_fifo)[i] == items[i + 1]);
                    }
                    assert forall|i: int| 0 <= i < self.running@.len() implies is_spot(
                        nodes,
                        #[trigger] self.running@[i],
                    ) by {
                        if i < old(self).running@.len() {
                            assert(self.running@[i] == old(self).running@[i]);
                        }
                    }
                }
            },
            _ => {
                proof {
                    if stolen is Empty {
                        assert(old(self)@.run.queue.len() == 0);
                    }
                }
            },
        }
        self.next_action(thread, stolen)
    }

    /// The completion protocol for the running task that stands where `task`
    /// says: it joins the history; the task counter goes down by one; the
    /// task's node counts one task less, and, if that was its last task,
    /// every successor counts one predecessor less. The tasks of each
    /// successor that has become ready join the queue, and for each as many
    /// parked threads as it has tasks, but no more than the worker has
    /// threads, leave the list of parked threads, those that have waited
    /// longest first. Their numbers are handed back: they are to be woken.
    pub fn complete(&mut self, task: &TaskNode) -> (woken: Vec<usize>)
        requires
            old(self).wf(),
            is_spot(old(self)@.run.nodes, spot(*task)),
            old(self)@.run.running.contains(task_at(old(self)@.run.nodes, spot(*task))),
        ensures
            final(self).wf(),
            final(self)@ == completed_pool(
                old(self)@,
                task_at(old(self)@.run.nodes, spot(*task)),
            ),
            woken@ == old(self)@.parked.take(
                woken_count(
                    old(self)@.parked,
                    wake_total(
                        completed_nodes(old(self)@.run.nodes, task.group_node as int),
                        freed_nodes(old(self)@.run.nodes, task.group_node as int),
                        old(self)@.threads,
                    ),
                ),
            ),
    {
        let ghost pool = self@;
        let ghost run = pool.run;
        let ghost at = task.group_node as int;
        let ghost done = task_at(run.nodes, spot(*task));
        let ghost after = completed_nodes(run.nodes, at);
        let ghost freed = freed_nodes(run.nodes, at);
        let ghost items = injector_items(self.global_fifo);
        let ghost held = self.running@;
        proof {
            lemma_running_task(run, done);
            lemma_completed_in_order(run, done);
            assert(node_wf(run.plan, at));
            assert(run.nodes[at].successors == run.plan[at].successors);
            assert(run.nodes[at].tasks == run.plan[at].tasks);
            assert(done.group_node == task.group_node);
            crate::schedule::lemma_freed_nodes(run.nodes, at);
        }
        // Take the task off the list of running tasks.
        let mut slot: usize = 0;
        while slot < self.running.len() && !(self.running[slot].0 == task.group_node
            && self.running[slot].1 == task.index)
            invariant
                slot <= self.running.len(),
                self.running@ == held,
                forall|i: int| 0 <= i < slot ==> held[i] != spot(*task),
            decreases self.running.len() - slot,
        {
            slot += 1;
        }
        proof {
            let i = choose|i: int| 0 <= i < run.running.len() && run.running[i] == done;
            assert(is_spot(run.nodes, held[i]));
            assert(node_wf(run.plan, held[i].0 as int));
            assert(run.nodes[held[i].0 as int].tasks == run.plan[held[i].0 as int].tasks);
            assert(task_at(run.nodes, held[i]).group_node == held[i].0);
            assert(task_at(run.nodes, held[i]).index == held[i].1);
            assert(held[i] == spot(*task));
            assert(slot < held.len());
            assert(run.running[slot as int] == done);
            crate::lists::lemma_remove_holds(run.running, slot as int, done);
        }
        self.running.remove(slot);
        self.task_count = self.task_count - 1;
        self.history = Ghost(run.history.push(done));
        let ready = complete_task(&mut self.group_nodes, task.group_node);
        let mut woken: Vec<usize> = Vec::new();
        let mut i: usize = 0;
        proof {
            assert(ready@.take(0) =~= Seq::<usize>::empty());
            assert(injector_items(self.global_fifo) =~= items + spots(
                tasks_of(after, ready@.take(0)),
            ));
            assert(woken@ =~= pool.parked.take(0));
            assert(self@.parked =~= pool.parked.skip(0));
        }
        while i < ready.len()
            invariant
                i <= ready.len(),
                ready@ == freed,
                after == node_views(self.group_nodes@),
                forall|k: int| 0 <= k < ready@.len() ==> (#[trigger] ready@[k]) < after.len(),
                injector_items(self.global_fifo) == items + spots(
                    tasks_of(after, ready@.take(i as int)),
                ),
                woken@ == pool.parked.take(
                    woken_count(
                        pool.parked,
                        wake_total(after, ready@.take(i as int), self.thread_count),
                    ),
                ),
                self@.parked == pool.parked.skip(
                    woken_count(
                        pool.parked,
                        wake_total(after, ready@.take(i as int), self.thread_count),
                    ),
                ),
                self@.insertable == pool.insertable,
                self@.terminated == pool.terminated,
                self@.threads == pool.threads,
                self.task_count == pool.run.task_count - 1,
                self.running@ == held.remove(slot as int),
                self.plan@ == run.plan,
                self.history@ == run.history.push(done),
            decreases ready.len() - i,
        {
            let to = ready[i];
            proof {
                assert(ready@.take(i + 1).drop_last() =~= ready@.take(i as int));
                assert(after[to as int] == self.group_nodes@[to as int]@);
            }
            let tasks = self.group_nodes[to].task_count();
            let wake = if (tasks as usize) < self.thread_count {
                tasks as usize
            } else {
                self.thread_count
            };
            let ghost still = self@.parked;
            inject_tasks(&mut self.global_fifo, self.group_nodes[to].task_nodes());
            let mut more = self.blocked_threads.try_unparks_of(wake);
            woken.append(&mut more);
            proof {
                let head = tasks_of(after, ready@.take(i as int));
                let tail = after[to as int].tasks;
                assert(spots(head + tail) =~= spots(head) + spots(tail));
                assert(injector_items(self.global_fifo) =~= items + spots(
                    tasks_of(after, ready@.take(i + 1)),
                ));
                let so_far = woken_count(
                    pool.parked,
                    wake_total(after, ready@.take(i as int), self.thread_count),
                );
                let next = woken_count(
                    pool.parked,
                    wake_total(after, ready@.take(i + 1), self.thread_count),
                );
                assert(next == so_far + woken_count(still, wake as nat));
                assert(woken@ =~= pool.parked.take(next));
                assert(self@.parked =~= pool.parked.skip(next));
            }
            i += 1;
        }
        proof {
            assert(ready@.take(i as int) =~= ready@);
            let goal = run.completed(done);
            crate::schedule::lemma_tasks_of_same(run.nodes, after, freed);
            assert forall|k: int| 0 <= k < after.len() implies tasks_placed(after, k) by {
                assert(node_wf(run.plan, k));
                assert(after[k].tasks == run.plan[k].tasks);
            }
            lemma_spots_of_nodes(after, freed);
            lemma_tasks_at_same(run.nodes, after, items);
            lemma_tasks_at_same(run.nodes, after, held);
            assert(tasks_at(after, items + spots(tasks_of(after, freed))) =~= tasks_at(after, items)
                + tasks_at(after, spots(tasks_of(after, freed))));
            assert(self@.run.queue =~= goal.queue);
            assert(tasks_at(after, held.remove(slot as int)) =~= tasks_at(after, held).remove(
                slot as int,
            ));
            assert(self@.run.running =~= goal.running);
            assert(self@.run == goal);
            assert forall|k: int|
                0 <= k < injector_items(self.global_fifo).len() implies is_spot(
                after,
                #[trigger] injector_items(self.global_fifo)[k],
            ) by {
                if k < items.len() {
                    assert(is_spot(run.nodes, items[k]));
                } else {
                    assert(injector_items(self.global_fifo)[k] == spots(
                        tasks_of(after, freed),
                    )[k - items.len()]);
                }
            }
            assert forall|k: int| 0 <= k < self.running@.len() implies is_spot(
                after,
                #[trigger] self.running@[k],
            ) by {
                let from = if k < slot {
                    k
                } else {
                    k + 1
                };
                assert(self.running@[k] == held[from]);
                assert(is_spot(run.nodes, held[from]));
            }
        }
        woken
    }
}

/// A threading worker after the completion of the running task `task` has
/// been reported.
pub open spec fn completed_pool(pool: PoolView, task: TaskNode) -> PoolView {
    let at = task.group_node as int;
    let wake = woken_count(
        pool.parked,
        wake_total(
            completed_nodes(pool.run.nodes, at),
            freed_nodes(pool.run.nodes, at),
            pool.threads,
        ),
    );
    PoolView { run: pool.run.completed(task), parked: pool.parked.skip(wake), ..pool }
}

/// A pool that owes no task has done what a sequential worker does with the
/// same plan, in whatever order its threads took and completed the tasks:
/// the same tasks have completed, each once; in both histories no task
/// stands before a task of a node that runs before its own; and the nodes of
/// both are left with the same counters, all at zero.
pub proof fn lemma_pool_matches_sequential(
    pool: PoolView,
    before: SequentialWorker,
    after: SequentialWorker,
)
    requires
        pool.wf(),
        pool.run.task_count == 0,
        before.executed(&after),
        after@.wf(),
        after@.plan == pool.run.plan,
    ensures
        forall|task: TaskNode|
            pool.run.history.contains(task) <==> #[trigger] after@.history.contains(task),
        pool.run.history.no_duplicates(),
        after@.history.no_duplicates(),
        crate::schedule::in_order(pool.run.plan, pool.run.history),
        crate::schedule::in_order(pool.run.plan, after@.history),
        pool.run.nodes == after@.nodes,
{
    lemma_finished(pool.run);
    assert forall|task: TaskNode|
        pool.run.history.contains(task) <==> #[trigger] after@.history.contains(task) by {
        assert(pool.run.history.contains(task) <==> is_task_of(pool.run.plan, task));
        assert(after@.history.contains(task) <==> is_task_of(pool.run.plan, task));
    }
    assert forall|at: int| 0 <= at < pool.run.nodes.len() implies #[trigger] pool.run.nodes[at]
        == after@.nodes[at] by {
        assert(pool.run.nodes[at].remaining_tasks == 0);
        assert(after@.nodes[at].remaining_tasks == 0);
    }
    assert(pool.run.nodes =~= after@.nodes);
}

} // verus!
