//! The executor: binds a plan and a worker and keeps the cycle of
//! `execute` and `wait_finish` in step.
use crate::error::TaskError;
use crate::schedule::complete_run;
use crate::topology::acyclic;
use crate::topology::PlanView;
use crate::topology::TaskNode;
use crate::topology::Topology;
use crate::worker::SequentialWorker;
use crate::worker::Worker;
use vstd::prelude::*;

verus! {

/// The type which can execute created topology using inserted worker.
///
/// It is idle or running. While it runs, neither the plan nor the worker can
/// be taken out or replaced.
pub struct Executor<W: Worker> {
    topology: Option<Topology>,
    worker: Option<W>,
    is_executed: bool,
}

impl<W: Worker> Executor<W> {
    /// The plan that the executor holds.
    pub closed spec fn topology(&self) -> Option<Topology> {
        self.topology
    }

    /// The worker that the executor holds.
    pub closed spec fn worker(&self) -> Option<W> {
        self.worker
    }

    /// Whether the executor is running.
    pub closed spec fn running(&self) -> bool {
        self.is_executed
    }

    /// While the executor is running, it has a worker, and the worker can be
    /// waited for.
    #[verifier::type_invariant]
    spec fn inv(&self) -> bool {
        self.is_executed ==> (self.worker matches Some(worker) && worker.finishing())
    }

    /// Create new executor: idle, without a plan and without a worker.
    pub fn new() -> (executor: Self)
        ensures
            executor.topology() is None,
            executor.worker() is None,
            !executor.running(),
    {
        Executor { topology: None, worker: None, is_executed: false }
    }

    /// Exchange `topology` with new moved `topology`.
    ///
    /// A running executor refuses with `AlreadyExecuted` and stays as it is.
    /// An idle one takes the plan and hands back the one it held.
    pub fn exchange_topology(&mut self, topology: Topology) -> (result: Result<
        Option<Topology>,
        TaskError,
    >)
        ensures
            final(self).worker() == old(self).worker(),
            final(self).running() == old(self).running(),
            old(self).running() ==> result == Err::<Option<Topology>, TaskError>(
                TaskError::AlreadyExecuted,
            ) && final(self).topology() == old(self).topology(),
            !old(self).running() ==> result == Ok::<Option<Topology>, TaskError>(
                old(self).topology(),
            ) && final(self).topology() == Some(topology),
    {
        if self.is_executed {
            Err(TaskError::AlreadyExecuted)
        } else {
            let mut held = Some(topology);
            std::mem::swap(&mut self.topology, &mut held);
            Ok(held)
        }
    }

    /// Detach `topology` and leave this executor empty state.
    ///
    /// A running executor refuses with `AlreadyExecuted` and stays as it is.
    /// An idle one hands back the plan it held.
    pub fn detach_topology(&mut self) -> (result: Result<Option<Topology>, TaskError>)
        ensures
            final(self).worker() == old(self).worker(),
            final(self).running() == old(self).running(),
            old(self).running() ==> result == Err::<Option<Topology>, TaskError>(
                TaskError::AlreadyExecuted,
            ) && final(self).topology() == old(self).topology(),
            !old(self).running() ==> result == Ok::<Option<Topology>, TaskError>(
                old(self).topology(),
            ) && final(self).topology() is None,
    {
        if self.is_executed {
            Err(TaskError::AlreadyExecuted)
        } else {
            let mut held = None;
            std::mem::swap(&mut self.topology, &mut held);
            Ok(held)
        }
    }

    /// Exchange `worker` with new moved `worker`.
    ///
    /// A running executor refuses with `AlreadyExecuted` and stays as it is.
    /// An idle one takes the worker and hands back the one it held.
    pub fn exchange_worker(&mut self, worker: W) -> (result: Result<Option<W>, TaskError>)
        ensures
            final(self).topology() == old(self).topology(),
            final(self).running() == old(self).running(),
            old(self).running() ==> result == Err::<Option<W>, TaskError>(
                TaskError::AlreadyExecuted,
            ) && final(self).worker() == old(self).worker(),
            !old(self).running() ==> result == Ok::<Option<W>, TaskError>(old(self).worker())
                && final(self).worker() == Some(worker),
    {
        if self.is_executed {
            Err(TaskError::AlreadyExecuted)
        } else {
            let mut held = Some(worker);
            std::mem::swap(&mut self.worker, &mut held);
            Ok(held)
        }
    }

    /// Detach 'worker' and leave this executor empty state.
    ///
    /// A running executor refuses with `AlreadyExecuted` and stays as it is.
    /// An idle one hands back the worker it held.
    pub fn detach_worker(&mut self) -> (result: Result<Option<W>, TaskError>)
        ensures
            final(self).topology() == old(self).topology(),
            final(self).running() == old(self).running(),
            old(self).running() ==> result == Err::<Option<W>, TaskError>(
                TaskError::AlreadyExecuted,
            ) && final(self).worker() == old(self).worker(),
            !old(self).running() ==> result == Ok::<Option<W>, TaskError>(old(self).worker())
                && final(self).worker() is None,
    {
        if self.is_executed {
            Err(TaskError::AlreadyExecuted)
        } else {
            let mut held = None;
            std::mem::swap(&mut self.worker, &mut held);
            Ok(held)
        }
    }

    /// Check executor is being executed.
    pub fn is_executed(&self) -> (running: bool)
        ensures
            running == self.running(),
    {
        self.is_executed
    }

    /// Execute topology with set worker.
    ///
    /// A running executor refuses with `AlreadyExecuted`, one without a plan
    /// with `InvalidGroupHandle`, one without a worker with `EmptyWorker`;
    /// the executor then stays as it is. Else the worker is readied with the
    /// plan and told to execute. If it does both, as a worker that never
    /// fails does, the executor is running. If `ready` fails, its error is
    /// handed on and `execute` is not called; if `execute` fails, its error
    /// is handed on. The executor then stays idle.
    ///
    /// The plan must have no cycle.
    pub fn execute(&mut self) -> (result: Result<(), TaskError>)
        requires
            old(self).topology() matches Some(plan) ==> acyclic(plan@.nodes),
        ensures
            final(self).topology() == old(self).topology(),
            final(self).worker() is Some == old(self).worker() is Some,
            execute_refusal(*old(self)) matches Some(e) ==> result == Err::<(), TaskError>(e),
            execute_refusal(*old(self)) is Some ==> final(self).worker() == old(self).worker()
                && final(self).running() == old(self).running(),
            execute_refusal(*old(self)) is None && old(self).worker()->0.reliable() ==> result is Ok,
            execute_refusal(*old(self)) is None ==> match result {
                Ok(_) => final(self).running() && final(self).worker()->0.finishing()
                    && exists|readied: W|
                    (#[trigger] old(self).worker()->0.readied(old(self).topology()->0@, &readied))
                        && readied.executed(&final(self).worker()->0),
                Err(error) => !final(self).running() && (old(self).worker()->0.ready_fails(
                    old(self).topology()->0@,
                    error,
                ) || exists|readied: W|
                    (#[trigger] old(self).worker()->0.readied(old(self).topology()->0@, &readied))
                        && readied.execute_fails(error)),
            },
    {
        if self.is_executed {
            return Err(TaskError::AlreadyExecuted);
        }
        let topology = match &self.topology {
            None => {
                return Err(TaskError::InvalidGroupHandle);
            },
            Some(topology) => topology,
        };
        // The worker is taken out while it works, and put back after.
        let mut held: Option<W> = None;
        std::mem::swap(&mut self.worker, &mut held);
        let result = match &mut held {
            None => Err(TaskError::EmptyWorker),
            Some(worker) => {
                match worker.ready(topology) {
                    Err(e) => Err(e),
                    Ok(_) => worker.execute(),
                }
            },
        };
        std::mem::swap(&mut self.worker, &mut held);
        match result {
            Ok(_) => {
                self.is_executed = true;
                Ok(())
            },
            Err(e) => Err(e),
        }
    }

    /// Wait until execution is finished.
    ///
    /// An idle executor refuses with `AlreadyIdle` and stays as it is. A
    /// running one has a worker: the call returns once the worker owes no
    /// task, and the executor is idle.
    pub fn wait_finish(&mut self) -> (result: Result<(), TaskError>)
        ensures
            final(self).topology() == old(self).topology(),
            !final(self).running(),
            !old(self).running() ==> result == Err::<(), TaskError>(TaskError::AlreadyIdle)
                && final(self).worker() == old(self).worker(),
            old(self).running() ==> result is Ok && final(self).worker() is Some,
            old(self).running() ==> final(self).worker()->0.pending() == 0,
            old(self).running() ==> old(self).worker()->0.waited(&final(self).worker()->0),
    {
        proof {
            use_type_invariant(&*self);
        }
        if !self.is_executed {
            return Err(TaskError::AlreadyIdle);
        }
        self.is_executed = false;
        // The worker is taken out while it is waited for, and put back after.
        let mut held: Option<W> = None;
        std::mem::swap(&mut self.worker, &mut held);
        let result = match &mut held {
            None => Err(TaskError::EmptyWorker),
            Some(worker) => {
                worker.wait_finish();
                Ok(())
            },
        };
        std::mem::swap(&mut self.worker, &mut held);
        result
    }
}

/// Why an executor refuses to execute, if it does: it is running, or it has
/// no plan, or it has no worker.
pub open spec fn execute_refusal<W: Worker>(executor: Executor<W>) -> Option<TaskError> {
    if executor.running() {
        Some(TaskError::AlreadyExecuted)
    } else if executor.topology() is None {
        Some(TaskError::InvalidGroupHandle)
    } else if executor.worker() is None {
        Some(TaskError::EmptyWorker)
    } else {
        None
    }
}

/// One cycle with a sequential worker runs the plan whole: once the worker
/// has been readied with a plan and has executed, every task node of the
/// plan has run, once, and no task has run before a task of a node that runs
/// before its own; the worker owes no task, and every counter of its nodes
/// is at zero.
pub proof fn lemma_sequential_cycle_runs_plan(
    before: SequentialWorker,
    readied: SequentialWorker,
    after: SequentialWorker,
    plan: PlanView,
)
    requires
        before.readied(plan, &readied),
        readied.executed(&after),
    ensures
        complete_run(plan.nodes, after@.history),
        after@.plan == plan.nodes,
        after@.task_count == 0,
        forall|at: int|
            0 <= at < after@.nodes.len() ==> (#[trigger] after@.nodes[at]).remaining_tasks == 0
                && after@.nodes[at].remaining_predecessors == 0,
{
    assert(forall|task: TaskNode| !readied@.history.contains(task));
}

/// In a cycle with a sequential worker the tasks of the roots run first, in
/// the order in which the plan holds them: root after root in the order of
/// the groups, and the tasks of a root in the order of its list.
pub proof fn lemma_roots_run_first(
    before: SequentialWorker,
    readied: SequentialWorker,
    after: SequentialWorker,
    plan: PlanView,
)
    requires
        before.readied(plan, &readied),
        readied.executed(&after),
    ensures
        crate::schedule::tasks_of(plan.nodes, crate::topology::root_places(plan.nodes)).is_prefix_of(
            after@.history,
        ),
{
    crate::schedule::lemma_issued_runs_first(readied@, readied@.task_count as nat);
    assert(readied@.history + readied@.queue =~= readied@.queue);
    assert(after@.history + after@.queue =~= after@.history);
}

/// After the wait that ends a cycle with a sequential worker, the run
/// stands as `execute` left it: the worker owes no task, every task node of
/// the plan has run once, and every counter of its nodes is at zero.
pub proof fn lemma_sequential_cycle_after_wait(
    before: SequentialWorker,
    readied: SequentialWorker,
    executed: SequentialWorker,
    after: SequentialWorker,
    plan: PlanView,
)
    requires
        before.readied(plan, &readied),
        readied.executed(&executed),
        executed.waited(&after),
    ensures
        complete_run(plan.nodes, after@.history),
        after@.task_count == 0,
        forall|at: int|
            0 <= at < after@.nodes.len() ==> (#[trigger] after@.nodes[at]).remaining_tasks == 0
                && after@.nodes[at].remaining_predecessors == 0,
{
    lemma_sequential_cycle_runs_plan(before, readied, executed, plan);
}

} // verus!
