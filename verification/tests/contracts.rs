use dy_tasksys::error::TaskError;
use dy_tasksys::executor::Executor;
use dy_tasksys::group::{GroupHandle, GroupManager};
use dy_tasksys::task::Task;
use dy_tasksys::topology::{GroupNode, Topology};
use dy_tasksys::worker::{
    complete_task, copy_nodes, BlockedThreads, SequentialWorker, Stolen, ThreadingWorker, Worker,
    WorkerAction,
};
use std::sync::atomic::{AtomicUsize, Ordering};
use std::sync::{Arc, Mutex};

fn counting(counter: &Arc<AtomicUsize>) -> impl Fn() + Send + Sync + 'static {
    let counter = Arc::clone(counter);
    move || {
        counter.fetch_add(1, Ordering::SeqCst);
    }
}

fn spot_of(action: WorkerAction) -> (usize, usize) {
    match action {
        WorkerAction::Run(task) => (task.group_node, task.index),
        _ => panic!("a task was expected"),
    }
}

#[test]
fn error_messages_are_worded_as_documented() {
    assert_eq!(TaskError::InvalidChaining.message(), "Chaining group itself is forbidden.");
    assert_eq!(TaskError::InvalidGroupHandle.message(), "Invalidated group handle.");
    assert_eq!(TaskError::InvalidItemName.message(), "Item name is invalid.");
    assert_eq!(
        TaskError::NoValidatedGroups.message(),
        "Validated group which can execute task is not exist."
    );
    assert_eq!(TaskError::EmptyWorker.message(), "Worker is not set in executor.");
    assert_eq!(TaskError::AlreadyExecuted.message(), "Executor is already being executed.");
    assert_eq!(TaskError::AlreadyIdle.message(), "Executor is idle.");
}

#[test]
fn empty_names_are_refused() {
    let mut manager = GroupManager::new();
    assert!(matches!(manager.create_group(""), Err(TaskError::InvalidItemName)));
    assert_eq!(manager.groups().len(), 0);
    let group = manager.create_group("g").unwrap();
    assert!(matches!(group.create_task(&mut manager, "", || {}), Err(TaskError::InvalidItemName)));
    assert!(matches!(
        group.create_task_method(&mut manager, "", Arc::new(1u8), |_: &u8| {}),
        Err(TaskError::InvalidItemName)
    ));
    assert!(matches!(
        group.create_task_method_mut(&mut manager, "", Arc::new(Mutex::new(1u8)), |_: &mut u8| {}),
        Err(TaskError::InvalidItemName)
    ));
    assert_eq!(manager.groups()[0].tasks().len(), 0);
}

#[test]
fn groups_get_rising_ids_and_keep_their_names() {
    let mut manager = GroupManager::new();
    let a = manager.create_group("first").unwrap();
    let b = manager.create_group("first").unwrap();
    assert_eq!(a.handle().id(), 0);
    assert_eq!(b.handle().id(), 1);
    assert_eq!(a.name(), "first");
    assert_eq!(a.handle(), GroupHandle { id: 0 });
    assert_ne!(a.handle(), b.handle());
    assert_eq!(manager.groups()[1].name(), "first");
    assert_eq!(manager.groups()[1].id(), 1);
    assert!(!manager.groups()[1].is_released());
}

#[test]
fn tasks_keep_their_names_and_hand_out_live_handles() {
    let mut manager = GroupManager::new();
    let group = manager.create_group("g").unwrap();
    let first = group.create_task(&mut manager, "first", || {}).unwrap();
    let second = group.create_task(&mut manager, "second", || {}).unwrap();
    assert_eq!(first.name(), "first");
    assert_eq!(second.name(), "second");
    assert_eq!(first.id(), 1);
    assert_eq!(second.id(), 2);
    let handle = second.handle();
    assert!(!handle.is_released(&manager));
    assert_eq!(handle.id(), 2);
    assert_eq!(handle.value_as_ref(&manager).unwrap().get().name(), "second");
    assert_eq!(handle.duplicate().id(), 2);
    let listed = manager.groups()[0].tasks();
    assert_eq!(listed.len(), 2);
    assert_eq!(listed[0].id(), 1);
    assert_eq!(listed[1].id(), 2);
}

#[test]
fn a_task_calls_its_closure() {
    let counter = Arc::new(AtomicUsize::new(0));
    let mut manager = GroupManager::new();
    let group = manager.create_group("g").unwrap();
    let task: Task = group.create_task(&mut manager, "count", counting(&counter)).unwrap();
    task.handle().value_as_ref(&manager).unwrap().get().call();
    task.handle().value_as_ref(&manager).unwrap().call();
    assert_eq!(counter.load(Ordering::SeqCst), 2);
}

#[test]
fn method_tasks_reach_their_object() {
    let seen = Arc::new(AtomicUsize::new(0));
    let target = Arc::new(Mutex::new(40usize));
    let mut manager = GroupManager::new();
    let group = manager.create_group("g").unwrap();
    let reader = group
        .create_task_method(&mut manager, "read", Arc::clone(&seen), |seen: &AtomicUsize| {
            seen.store(7, Ordering::SeqCst)
        })
        .unwrap();
    let writer = group
        .create_task_method_mut(&mut manager, "write", Arc::clone(&target), |value: &mut usize| {
            *value += 2
        })
        .unwrap();
    reader.handle().value_as_ref(&manager).unwrap().get().call();
    writer.handle().value_as_ref(&manager).unwrap().get().call();
    assert_eq!(seen.load(Ordering::SeqCst), 7);
    assert_eq!(*target.lock().unwrap(), 42);
    assert_eq!(manager.groups()[0].tasks().len(), 2);
}

#[test]
fn a_group_is_not_chained_with_itself() {
    let mut manager = GroupManager::new();
    let group = manager.create_group("g").unwrap();
    assert_eq!(group.precede(&mut manager, group.handle()), Err(TaskError::InvalidChaining));
    assert_eq!(group.succeed(&mut manager, group.handle()), Err(TaskError::InvalidChaining));
    assert!(manager.groups()[0].successors().is_empty());
    assert!(manager.groups()[0].predecessors().is_empty());
}

#[test]
fn a_second_chaining_is_refused_in_both_directions() {
    let mut manager = GroupManager::new();
    let a = manager.create_group("a").unwrap();
    let b = manager.create_group("b").unwrap();
    assert_eq!(a.precede(&mut manager, b.handle()), Ok(()));
    assert_eq!(a.precede(&mut manager, b.handle()), Err(TaskError::InvalidChaining));
    assert_eq!(a.succeed(&mut manager, b.handle()), Err(TaskError::InvalidChaining));
    assert_eq!(b.precede(&mut manager, a.handle()), Err(TaskError::InvalidChaining));
    assert_eq!(b.succeed(&mut manager, a.handle()), Err(TaskError::InvalidChaining));
    assert_eq!(manager.groups()[0].successors(), &vec![b.handle()]);
    assert_eq!(manager.groups()[1].predecessors(), &vec![a.handle()]);
    assert!(manager.groups()[0].predecessors().is_empty());
    assert!(manager.groups()[1].successors().is_empty());
}

#[test]
fn succeed_writes_the_edge_the_other_way() {
    let mut manager = GroupManager::new();
    let a = manager.create_group("a").unwrap();
    let b = manager.create_group("b").unwrap();
    let c = manager.create_group("c").unwrap();
    assert_eq!(a.succeed(&mut manager, b.handle()), Ok(()));
    assert_eq!(a.succeed(&mut manager, c.handle()), Ok(()));
    assert_eq!(manager.groups()[0].predecessors(), &vec![b.handle(), c.handle()]);
    assert_eq!(manager.groups()[1].successors(), &vec![a.handle()]);
    assert_eq!(manager.groups()[2].successors(), &vec![a.handle()]);
}

#[test]
fn has_successors_and_has_predecessors_tell_of_empty_lists() {
    let mut manager = GroupManager::new();
    let a = manager.create_group("a").unwrap();
    let b = manager.create_group("b").unwrap();
    assert!(manager.groups()[0].has_successors());
    assert!(manager.groups()[0].has_predecessors());
    a.precede(&mut manager, b.handle()).unwrap();
    assert!(!manager.groups()[0].has_successors());
    assert!(manager.groups()[0].has_predecessors());
    assert!(manager.groups()[1].has_successors());
    assert!(!manager.groups()[1].has_predecessors());
}

#[test]
fn a_released_group_cannot_be_chained() {
    let mut manager = GroupManager::new();
    let a = manager.create_group("a").unwrap();
    let b = manager.create_group("b").unwrap();
    let c = manager.create_group("c").unwrap();
    let gone = b.handle();
    a.precede(&mut manager, gone).unwrap();
    manager.release_group(b);
    assert!(gone.is_released(&manager));
    assert!(gone.value_as_ref(&manager).is_none());
    assert!(!a.handle().is_released(&manager));
    assert_eq!(a.handle().value_as_ref(&manager).unwrap().get().id(), 0);
    assert_eq!(c.precede(&mut manager, gone), Err(TaskError::InvalidGroupHandle));
    assert_eq!(c.succeed(&mut manager, gone), Err(TaskError::InvalidGroupHandle));
    // The edge that is already there is found before the release is.
    assert_eq!(a.precede(&mut manager, gone), Err(TaskError::InvalidChaining));
    assert_eq!(c.precede(&mut manager, GroupHandle { id: 99 }), Err(TaskError::InvalidGroupHandle));
    assert!(GroupHandle { id: 99 }.is_released(&manager));
}

#[test]
fn a_stranger_group_is_refused() {
    let mut home = GroupManager::new();
    let mut other = GroupManager::new();
    let _first = other.create_group("first").unwrap();
    let stranger = other.create_group("stranger").unwrap();
    let native = home.create_group("native").unwrap();
    assert!(matches!(
        stranger.create_task(&mut home, "t", || {}),
        Err(TaskError::InvalidGroupHandle)
    ));
    assert_eq!(stranger.precede(&mut home, native.handle()), Err(TaskError::InvalidGroupHandle));
    assert_eq!(home.groups()[0].tasks().len(), 0);
}

#[test]
fn rearranging_tasks_drops_the_released_ones() {
    let counter = Arc::new(AtomicUsize::new(0));
    let mut manager = GroupManager::new();
    let group = manager.create_group("g").unwrap();
    let first = group.create_task(&mut manager, "first", counting(&counter)).unwrap();
    let second = group.create_task(&mut manager, "second", counting(&counter)).unwrap();
    let third = group.create_task(&mut manager, "third", counting(&counter)).unwrap();
    manager.release_task(second);
    assert_eq!(manager.groups()[0].tasks().len(), 3);
    assert!(manager.groups()[0].tasks()[1].is_released(&manager));
    assert!(manager.groups()[0].tasks()[1].value_as_ref(&manager).is_none());
    assert!(!manager.groups()[0].tasks()[0].is_released(&manager));
    let before = Topology::new_from(manager.groups()).unwrap();
    assert_eq!(before.task_count(), 2);
    manager.rearrange_tasks();
    let kept: Vec<usize> = manager.groups()[0].tasks().iter().map(|h| h.id()).collect();
    assert_eq!(kept, vec![first.id(), third.id()]);
    manager.rearrange_tasks();
    assert_eq!(manager.groups()[0].tasks().len(), 2);
    let after = Topology::new_from(manager.groups()).unwrap();
    assert_eq!(after.task_count(), 2);
    let mut worker = SequentialWorker::new();
    worker.ready(&after).unwrap();
    worker.execute().unwrap();
    assert_eq!(counter.load(Ordering::SeqCst), 2);
}

#[test]
fn rearranging_groups_twice_changes_nothing_more() {
    let mut manager = GroupManager::new();
    let a = manager.create_group("a").unwrap();
    let b = manager.create_group("b").unwrap();
    let c = manager.create_group("c").unwrap();
    let d = manager.create_group("d").unwrap();
    a.precede(&mut manager, b.handle()).unwrap();
    b.precede(&mut manager, c.handle()).unwrap();
    d.succeed(&mut manager, b.handle()).unwrap();
    d.succeed(&mut manager, a.handle()).unwrap();
    let (b_handle, d_handle) = (b.handle(), d.handle());
    manager.release_group(b);
    let frozen_before = Topology::new_from(manager.groups()).unwrap();
    manager.rearrange_groups();
    let once: Vec<(usize, Vec<GroupHandle>, Vec<GroupHandle>)> = manager
        .groups()
        .iter()
        .map(|g| (g.id(), g.predecessors().clone(), g.successors().clone()))
        .collect();
    assert_eq!(
        once,
        vec![
            (0, vec![], vec![d_handle]),
            (2, vec![], vec![]),
            (3, vec![a.handle()], vec![]),
        ]
    );
    manager.rearrange_groups();
    let twice: Vec<(usize, Vec<GroupHandle>, Vec<GroupHandle>)> = manager
        .groups()
        .iter()
        .map(|g| (g.id(), g.predecessors().clone(), g.successors().clone()))
        .collect();
    assert_eq!(once, twice);
    let frozen_after = Topology::new_from(manager.groups()).unwrap();
    assert_eq!(frozen_before.task_count(), frozen_after.task_count());
    assert_eq!(frozen_before.root_groups(), frozen_after.root_groups());
    assert_eq!(frozen_after.root_groups(), &vec![0usize, 1usize]);
    assert_eq!(frozen_after.group_nodes()[0].successor_nodes(), &vec![2usize]);
    assert_eq!(frozen_before.group_nodes()[0].successor_nodes(), &vec![2usize]);
    assert!(b_handle.is_released(&manager));
    assert_eq!(c.handle().id(), 2);
}

#[test]
fn a_list_without_a_live_group_gives_no_plan() {
    let mut manager = GroupManager::new();
    assert!(matches!(Topology::new_from(manager.groups()), Err(TaskError::NoValidatedGroups)));
    let a = manager.create_group("a").unwrap();
    let b = manager.create_group("b").unwrap();
    let mut topology = Topology::new_from(manager.groups()).unwrap();
    assert_eq!(topology.task_count(), 2);
    manager.release_group(a);
    manager.release_group(b);
    assert!(matches!(Topology::new_from(manager.groups()), Err(TaskError::NoValidatedGroups)));
    assert_eq!(topology.rearrange_from(manager.groups()), Err(TaskError::NoValidatedGroups));
    assert_eq!(topology.task_count(), 2);
    assert_eq!(topology.group_nodes().len(), 2);
    manager.rearrange_groups();
    assert_eq!(manager.groups().len(), 0);
    assert!(!manager.is_cyclic());
}

#[test]
fn the_plan_counts_tasks_predecessors_and_roots() {
    let mut manager = GroupManager::new();
    let a = manager.create_group("a").unwrap();
    let b = manager.create_group("b").unwrap();
    let c = manager.create_group("c").unwrap();
    let d = manager.create_group("d").unwrap();
    let _tasks = vec![
        a.create_task(&mut manager, "a1", || {}).unwrap(),
        a.create_task(&mut manager, "a2", || {}).unwrap(),
        b.create_task(&mut manager, "b1", || {}).unwrap(),
        d.create_task(&mut manager, "d1", || {}).unwrap(),
        d.create_task(&mut manager, "d2", || {}).unwrap(),
        d.create_task(&mut manager, "d3", || {}).unwrap(),
    ];
    a.precede(&mut manager, c.handle()).unwrap();
    b.precede(&mut manager, c.handle()).unwrap();
    d.precede(&mut manager, a.handle()).unwrap();
    assert!(Topology::fits(manager.groups()));
    let topology = Topology::new_from(manager.groups()).unwrap();
    assert_eq!(topology.task_count(), 2 + 1 + 1 + 3);
    assert_eq!(topology.root_groups(), &vec![1usize, 3usize]);
    let nodes = topology.group_nodes();
    let counts: Vec<u32> = nodes.iter().map(|n| n.task_count()).collect();
    assert_eq!(counts, vec![2, 1, 1, 3]);
    let ready: Vec<bool> = nodes.iter().map(|n| n.is_ready()).collect();
    assert_eq!(ready, vec![false, true, false, true]);
    assert_eq!(nodes[0].successor_nodes(), &vec![2usize]);
    assert_eq!(nodes[1].successor_nodes(), &vec![2usize]);
    assert!(nodes[2].successor_nodes().is_empty());
    assert_eq!(nodes[3].successor_nodes(), &vec![0usize]);
    assert_eq!(nodes[3].handle(), d.handle());
    for (at, node) in nodes.iter().enumerate() {
        for (index, task) in node.task_nodes().iter().enumerate() {
            assert_eq!(task.group_node, at);
            assert_eq!(task.index, index);
        }
    }
    assert_eq!(nodes[0].task_nodes()[1].handle.value_as_ref(&manager).unwrap().get().name(), "a2");
    assert!(!topology.is_cyclic());
    assert!(!manager.is_cyclic());
}

#[test]
fn a_cycle_of_three_groups_is_found() {
    let mut manager = GroupManager::new();
    let a = manager.create_group("a").unwrap();
    let b = manager.create_group("b").unwrap();
    let c = manager.create_group("c").unwrap();
    let d = manager.create_group("d").unwrap();
    a.precede(&mut manager, b.handle()).unwrap();
    b.precede(&mut manager, c.handle()).unwrap();
    assert!(!manager.is_cyclic());
    c.precede(&mut manager, a.handle()).unwrap();
    c.precede(&mut manager, d.handle()).unwrap();
    assert!(manager.is_cyclic());
    let topology = Topology::new_from(manager.groups()).unwrap();
    assert!(topology.is_cyclic());
    assert!(topology.root_groups().is_empty());
    manager.release_group(b);
    assert!(!manager.is_cyclic());
}

#[test]
fn node_counters_go_down_and_wrap_below_zero() {
    let mut node = GroupNode::new(GroupHandle { id: 5 });
    assert_eq!(node.handle(), GroupHandle { id: 5 });
    assert!(node.is_ready());
    assert_eq!(node.task_count(), 0);
    assert_eq!(node.increase_predecessor_count(), 0);
    assert_eq!(node.increase_predecessor_count(), 1);
    assert!(!node.is_ready());
    assert_eq!(node.decrease_predecessor_count(), 2);
    assert_eq!(node.decrease_predecessor_count(), 1);
    assert!(node.is_ready());
    assert_eq!(node.decrease_predecessor_count(), 0);
    assert_eq!(node.decrease_predecessor_count(), u32::MAX);
    assert_eq!(node.decrease_task_count(), 0);
    assert_eq!(node.task_count(), u32::MAX);
    assert_eq!(node.decrease_task_count(), u32::MAX);
    assert_eq!(node.task_count(), u32::MAX - 1);
}

#[test]
fn the_completion_of_the_last_task_frees_the_waiting_successors() {
    let mut manager = GroupManager::new();
    let a = manager.create_group("a").unwrap();
    let b = manager.create_group("b").unwrap();
    let c = manager.create_group("c").unwrap();
    let d = manager.create_group("d").unwrap();
    let _t1 = a.create_task(&mut manager, "a1", || {}).unwrap();
    let _t2 = a.create_task(&mut manager, "a2", || {}).unwrap();
    a.precede(&mut manager, b.handle()).unwrap();
    a.precede(&mut manager, d.handle()).unwrap();
    a.precede(&mut manager, c.handle()).unwrap();
    b.precede(&mut manager, c.handle()).unwrap();
    let topology = Topology::new_from(manager.groups()).unwrap();
    let mut nodes = copy_nodes(topology.group_nodes());
    assert_eq!(complete_task(&mut nodes, 0), Vec::<usize>::new());
    assert_eq!(nodes[0].task_count(), 1);
    assert!(!nodes[1].is_ready());
    // The successors stand in the order in which a names them: b, d, c. Of
    // them c still waits for b.
    assert_eq!(complete_task(&mut nodes, 0), vec![1usize, 3usize]);
    assert_eq!(nodes[0].task_count(), 0);
    assert!(nodes[1].is_ready());
    assert!(!nodes[2].is_ready());
    assert!(nodes[3].is_ready());
    assert_eq!(complete_task(&mut nodes, 1), vec![2usize]);
    assert!(nodes[2].is_ready());
    assert_eq!(topology.group_nodes()[0].task_count(), 2);
    assert!(!topology.group_nodes()[2].is_ready());
}

#[test]
fn the_sequential_worker_owes_the_tasks_of_the_plan_until_it_executes() {
    let counter = Arc::new(AtomicUsize::new(0));
    let mut manager = GroupManager::new();
    let a = manager.create_group("a").unwrap();
    let _t1 = a.create_task(&mut manager, "a1", counting(&counter)).unwrap();
    let _t2 = a.create_task(&mut manager, "a2", counting(&counter)).unwrap();
    let topology = Topology::new_from(manager.groups()).unwrap();
    let mut worker = SequentialWorker::new();
    assert_eq!(worker.task_count(), 0);
    assert_eq!(worker.execute(), Ok(()));
    assert_eq!(worker.ready(&topology), Ok(()));
    assert_eq!(worker.task_count(), 2);
    assert_eq!(counter.load(Ordering::SeqCst), 0);
    assert_eq!(worker.execute(), Ok(()));
    assert_eq!(worker.task_count(), 0);
    assert_eq!(counter.load(Ordering::SeqCst), 2);
    worker.wait_finish();
    assert_eq!(worker.execute(), Ok(()));
    assert_eq!(counter.load(Ordering::SeqCst), 2);
    // The plan is not worn by a run: the worker can be readied with it again.
    assert_eq!(worker.ready(&topology), Ok(()));
    assert_eq!(worker.execute(), Ok(()));
    assert_eq!(counter.load(Ordering::SeqCst), 4);
}

#[test]
fn the_executor_keeps_its_cycle() {
    let mut manager = GroupManager::new();
    let a = manager.create_group("a").unwrap();
    let _t = a.create_task(&mut manager, "a1", || {}).unwrap();
    let mut executor: Executor<SequentialWorker> = Executor::new();
    assert!(!executor.is_executed());
    assert_eq!(executor.wait_finish(), Err(TaskError::AlreadyIdle));
    assert_eq!(executor.execute(), Err(TaskError::InvalidGroupHandle));
    assert!(executor.detach_topology().unwrap().is_none());
    assert!(executor.detach_worker().unwrap().is_none());
    let first = Topology::new_from(manager.groups()).unwrap();
    assert!(executor.exchange_topology(first).unwrap().is_none());
    assert_eq!(executor.execute(), Err(TaskError::EmptyWorker));
    assert!(!executor.is_executed());
    assert!(executor.exchange_worker(SequentialWorker::new()).unwrap().is_none());
    assert!(executor.exchange_worker(SequentialWorker::new()).unwrap().is_some());
    let second = Topology::new_from(manager.groups()).unwrap();
    assert_eq!(executor.exchange_topology(second).unwrap().unwrap().task_count(), 1);
    assert_eq!(executor.execute(), Ok(()));
    assert!(executor.is_executed());
    assert_eq!(executor.execute(), Err(TaskError::AlreadyExecuted));
    let third = Topology::new_from(manager.groups()).unwrap();
    assert!(matches!(executor.exchange_topology(third), Err(TaskError::AlreadyExecuted)));
    assert!(matches!(executor.detach_topology(), Err(TaskError::AlreadyExecuted)));
    assert!(matches!(
        executor.exchange_worker(SequentialWorker::new()),
        Err(TaskError::AlreadyExecuted)
    ));
    assert!(matches!(executor.detach_worker(), Err(TaskError::AlreadyExecuted)));
    assert!(executor.is_executed());
    assert_eq!(executor.wait_finish(), Ok(()));
    assert!(!executor.is_executed());
    assert_eq!(executor.wait_finish(), Err(TaskError::AlreadyIdle));
    assert_eq!(executor.detach_worker().unwrap().unwrap().task_count(), 0);
    assert_eq!(executor.detach_topology().unwrap().unwrap().task_count(), 1);
    assert_eq!(executor.execute(), Err(TaskError::InvalidGroupHandle));
}

#[test]
fn parked_threads_are_woken_in_the_order_in_which_they_parked() {
    let mut blocked = BlockedThreads::new();
    assert!(blocked.is_insertable());
    assert_eq!(blocked.try_unparks_of(3), Vec::<usize>::new());
    for thread in [4usize, 2, 7, 1, 9] {
        blocked.push(thread);
    }
    assert_eq!(blocked.try_unparks_of(0), Vec::<usize>::new());
    assert_eq!(blocked.try_unparks_of(2), vec![4usize, 2]);
    assert_eq!(blocked.try_unparks_of(1), vec![7usize]);
    assert_eq!(blocked.try_unparks_of(5), vec![1usize, 9]);
    assert_eq!(blocked.try_unparks_of(1), Vec::<usize>::new());
    blocked.push(3);
    blocked.push(8);
    blocked.close();
    assert!(!blocked.is_insertable());
    assert_eq!(blocked.unpark_all(), vec![3usize, 8]);
    assert_eq!(blocked.unpark_all(), Vec::<usize>::new());
}

#[test]
fn a_pool_needs_a_thread() {
    assert!(ThreadingWorker::try_new(0).is_none());
    let worker = ThreadingWorker::try_new(3).unwrap();
    assert_eq!(worker.thread_count(), 3);
    assert_eq!(worker.task_count(), 0);
    assert_eq!(worker.node_count(), 0);
    assert!(worker.is_finished());
    assert!(!worker.is_terminated());
}

#[test]
fn the_pool_hands_out_the_root_tasks_in_the_order_of_the_plan() {
    let mut manager = GroupManager::new();
    let a = manager.create_group("a").unwrap();
    let b = manager.create_group("b").unwrap();
    let c = manager.create_group("c").unwrap();
    let _tasks = vec![
        a.create_task(&mut manager, "a1", || {}).unwrap(),
        a.create_task(&mut manager, "a2", || {}).unwrap(),
        c.create_task(&mut manager, "c1", || {}).unwrap(),
        c.create_task(&mut manager, "c2", || {}).unwrap(),
        c.create_task(&mut manager, "c3", || {}).unwrap(),
    ];
    a.precede(&mut manager, b.handle()).unwrap();
    let topology = Topology::new_from(manager.groups()).unwrap();
    let mut worker = ThreadingWorker::try_new(2).unwrap();
    worker.ready(&topology);
    assert_eq!(worker.task_count(), 6);
    assert_eq!(worker.node_count(), 3);
    let mut spots = Vec::new();
    for _ in 0..5 {
        loop {
            match worker.fetch(0) {
                WorkerAction::Spin => continue,
                action => {
                    spots.push(spot_of(action));
                    break;
                }
            }
        }
    }
    assert_eq!(spots, vec![(0, 0), (0, 1), (2, 0), (2, 1), (2, 2)]);
    // The queue is empty now: the thread parks, once.
    let mut parked = false;
    for _ in 0..1000 {
        match worker.fetch(1) {
            WorkerAction::Spin => continue,
            WorkerAction::Park => {
                parked = true;
                break;
            }
            _ => panic!("the queue holds no task"),
        }
    }
    assert!(parked);
    assert_eq!(worker.execute(), vec![1usize]);
    assert_eq!(worker.execute(), Vec::<usize>::new());
    // Readying anew empties the queue first.
    worker.ready(&topology);
    assert_eq!(spot_of(worker.next_action(0, Stolen::Success((2, 1)))), (2, 1));
    loop {
        match worker.fetch(0) {
            WorkerAction::Spin => continue,
            action => {
                assert_eq!(spot_of(action), (0, 0));
                break;
            }
        }
    }
}

#[test]
fn a_thread_parks_only_while_parking_is_allowed() {
    let mut worker = ThreadingWorker::try_new(2).unwrap();
    assert!(matches!(worker.next_action(1, Stolen::Retry), WorkerAction::Spin));
    assert!(matches!(worker.next_action(1, Stolen::Empty), WorkerAction::Park));
    assert!(matches!(worker.next_action(0, Stolen::Empty), WorkerAction::Park));
    assert_eq!(worker.close(), vec![1usize, 0]);
    assert!(matches!(worker.next_action(1, Stolen::Empty), WorkerAction::Spin));
    assert_eq!(worker.close(), Vec::<usize>::new());
    assert!(matches!(worker.fetch(1), WorkerAction::Spin));
    worker.terminate();
    assert!(worker.is_terminated());
    assert!(matches!(worker.fetch(1), WorkerAction::Exit));
}

#[test]
fn a_completion_wakes_as_many_threads_as_there_is_new_work() {
    let mut manager = GroupManager::new();
    let root = manager.create_group("root").unwrap();
    let small = manager.create_group("small").unwrap();
    let large = manager.create_group("large").unwrap();
    let mut tasks = vec![root.create_task(&mut manager, "r", || {}).unwrap()];
    tasks.push(small.create_task(&mut manager, "s", || {}).unwrap());
    for _ in 0..5 {
        tasks.push(large.create_task(&mut manager, "l", || {}).unwrap());
    }
    root.precede(&mut manager, small.handle()).unwrap();
    root.precede(&mut manager, large.handle()).unwrap();
    let topology = Topology::new_from(manager.groups()).unwrap();
    let mut worker = ThreadingWorker::try_new(3).unwrap();
    worker.ready(&topology);
    assert_eq!(worker.task_count(), 7);
    let first = loop {
        match worker.fetch(0) {
            WorkerAction::Run(task) => break task,
            WorkerAction::Spin => continue,
            _ => panic!("the root task waits in the queue"),
        }
    };
    for thread in [2usize, 1, 5, 4, 3, 6] {
        loop {
            match worker.fetch(thread) {
                WorkerAction::Park => break,
                WorkerAction::Spin => continue,
                _ => panic!("the queue holds no task"),
            }
        }
    }
    // One thread for the one task of `small`, then three, the number of the
    // worker's threads, for the five tasks of `large`.
    assert!(worker.is_running(&first));
    assert_eq!(worker.complete(&first), vec![2usize, 1, 5, 4]);
    assert!(!worker.is_running(&first));
    assert_eq!(worker.task_count(), 6);
    let mut spots = Vec::new();
    while spots.len() < 6 {
        match worker.fetch(0) {
            WorkerAction::Spin => continue,
            action => spots.push(spot_of(action)),
        }
    }
    assert_eq!(spots, vec![(1, 0), (2, 0), (2, 1), (2, 2), (2, 3), (2, 4)]);
    assert_eq!(worker.execute(), vec![3usize, 6]);
}

#[test]
fn the_sequential_worker_runs_wave_after_wave() {
    let log = Arc::new(Mutex::new(Vec::new()));
    let note = |word: &'static str| {
        let log = Arc::clone(&log);
        move || log.lock().unwrap().push(word)
    };
    let mut manager = GroupManager::new();
    let a = manager.create_group("a").unwrap();
    let b = manager.create_group("b").unwrap();
    let c = manager.create_group("c").unwrap();
    let d = manager.create_group("d").unwrap();
    let _tasks = vec![
        a.create_task(&mut manager, "a1", note("a1")).unwrap(),
        a.create_task(&mut manager, "a2", note("a2")).unwrap(),
        b.create_task(&mut manager, "b1", note("b1")).unwrap(),
        c.create_task(&mut manager, "c1", note("c1")).unwrap(),
        c.create_task(&mut manager, "c2", note("c2")).unwrap(),
        d.create_task(&mut manager, "d1", note("d1")).unwrap(),
    ];
    // c and d are the roots; a follows d, b follows a and c.
    d.precede(&mut manager, a.handle()).unwrap();
    a.precede(&mut manager, b.handle()).unwrap();
    c.precede(&mut manager, b.handle()).unwrap();
    let topology = Topology::new_from(manager.groups()).unwrap();
    assert_eq!(topology.root_groups(), &vec![2usize, 3usize]);
    let mut worker = SequentialWorker::new();
    worker.ready(&topology).unwrap();
    worker.execute().unwrap();
    assert_eq!(*log.lock().unwrap(), vec!["c1", "c2", "d1", "a1", "a2", "b1"]);
}

#[test]
fn a_task_released_after_the_freeze_is_counted_and_not_called() {
    let counter = Arc::new(AtomicUsize::new(0));
    let mut manager = GroupManager::new();
    let first = manager.create_group("first").unwrap();
    let second = manager.create_group("second").unwrap();
    let kept = first.create_task(&mut manager, "kept", counting(&counter)).unwrap();
    let dropped = first.create_task(&mut manager, "dropped", counting(&counter)).unwrap();
    let _last = second.create_task(&mut manager, "last", counting(&counter)).unwrap();
    first.precede(&mut manager, second.handle()).unwrap();
    let topology = Topology::new_from(manager.groups()).unwrap();
    let watched = dropped.handle();
    assert!(!watched.is_gone());
    assert!(!watched.is_released(&manager));
    manager.release_task(dropped);
    assert!(watched.is_gone());
    assert!(watched.is_released(&manager));
    assert!(watched.value_as_ref(&manager).is_none());
    assert!(!kept.handle().is_gone());
    assert!(!kept.handle().is_released(&manager));
    assert_eq!(topology.task_count(), 3);
    let mut worker = SequentialWorker::new();
    worker.ready(&topology).unwrap();
    assert_eq!(worker.task_count(), 3);
    worker.execute().unwrap();
    assert_eq!(worker.task_count(), 0);
    assert_eq!(counter.load(Ordering::SeqCst), 2);
    let mut pool = ThreadingWorker::try_new(2).unwrap();
    pool.ready(&topology);
    let mut ran = 0;
    while !pool.is_finished() {
        if let WorkerAction::Run(task) = pool.fetch(0) {
            task.invoke();
            pool.complete(&task);
            ran += 1;
        }
    }
    assert_eq!(ran, 3);
    assert_eq!(counter.load(Ordering::SeqCst), 4);
}

#[test]
fn a_node_names_its_successors_in_the_order_of_its_group() {
    let mut manager = GroupManager::new();
    let a = manager.create_group("A").unwrap();
    let b = manager.create_group("B").unwrap();
    let c = manager.create_group("C").unwrap();
    let _tasks = vec![
        a.create_task(&mut manager, "a", || {}).unwrap(),
        b.create_task(&mut manager, "b", || {}).unwrap(),
        c.create_task(&mut manager, "c", || {}).unwrap(),
    ];
    assert_eq!(a.precede(&mut manager, c.handle()), Ok(()));
    assert_eq!(a.precede(&mut manager, b.handle()), Ok(()));
    assert_eq!(manager.groups()[0].successors(), &vec![c.handle(), b.handle()]);
    let topology = Topology::new_from(manager.groups()).unwrap();
    assert_eq!(topology.task_count(), 3);
    let nodes = topology.group_nodes();
    assert_eq!(nodes[0].successor_nodes(), &vec![2usize, 1usize]);
    assert!(nodes[0].is_ready());
    assert!(!nodes[1].is_ready());
    assert!(!nodes[2].is_ready());
    assert_eq!(topology.root_groups(), &vec![0usize]);
    let mut run = copy_nodes(nodes);
    assert_eq!(complete_task(&mut run, 0), vec![2usize, 1usize]);
    assert!(run[1].is_ready());
    assert!(run[2].is_ready());
    // The tasks of C are enqueued before those of B, and run before them.
    let mut pool = ThreadingWorker::try_new(1).unwrap();
    pool.ready(&topology);
    let mut spots = Vec::new();
    while !pool.is_finished() {
        if let WorkerAction::Run(task) = pool.fetch(0) {
            spots.push((task.group_node, task.index));
            pool.complete(&task);
        }
    }
    assert_eq!(spots, vec![(0, 0), (2, 0), (1, 0)]);
}

#[test]
fn an_edge_to_a_released_group_leaves_no_successor() {
    let mut manager = GroupManager::new();
    let a = manager.create_group("A").unwrap();
    let b = manager.create_group("B").unwrap();
    let c = manager.create_group("C").unwrap();
    let d = manager.create_group("D").unwrap();
    a.precede(&mut manager, d.handle()).unwrap();
    a.precede(&mut manager, b.handle()).unwrap();
    a.precede(&mut manager, c.handle()).unwrap();
    manager.release_group(b);
    let topology = Topology::new_from(manager.groups()).unwrap();
    // The nodes stand for A, C and D; A names D and then C.
    assert_eq!(topology.group_nodes().len(), 3);
    assert_eq!(topology.group_nodes()[0].successor_nodes(), &vec![2usize, 1usize]);
    manager.rearrange_groups();
    let again = Topology::new_from(manager.groups()).unwrap();
    assert_eq!(again.group_nodes()[0].successor_nodes(), &vec![2usize, 1usize]);
    assert_eq!(again.root_groups(), topology.root_groups());
}

#[test]
fn every_handle_learns_that_its_task_is_released() {
    let mut manager = GroupManager::new();
    let group = manager.create_group("g").unwrap();
    let task = group.create_task(&mut manager, "T", || {}).unwrap();
    let other = group.create_task(&mut manager, "U", || {}).unwrap();
    let early = task.handle();
    let copy = early.duplicate();
    assert!(!early.is_released(&manager));
    assert!(early.value_as_ref(&manager).is_some());
    assert!(!manager.groups()[0].tasks()[0].is_released(&manager));
    manager.release_task(task);
    assert!(early.is_released(&manager));
    assert!(copy.is_released(&manager));
    assert!(early.value_as_ref(&manager).is_none());
    assert!(copy.value_as_ref(&manager).is_none());
    assert!(manager.groups()[0].tasks()[0].is_released(&manager));
    assert!(manager.groups()[0].tasks()[0].value_as_ref(&manager).is_none());
    assert!(!other.handle().is_released(&manager));
    manager.rearrange_tasks();
    assert!(early.is_released(&manager));
    assert_eq!(manager.groups()[0].tasks().len(), 1);
    // A task outlives its group: it is released only when it is given up.
    manager.release_group(group);
    manager.rearrange_groups();
    assert_eq!(manager.groups().len(), 0);
    assert!(!other.handle().is_released(&manager));
    assert_eq!(other.handle().value_as_ref(&manager).unwrap().name(), "U");
    manager.release_task(other);
    assert!(manager.groups().is_empty());
}

#[test]
fn a_method_task_never_waits_for_the_lock_of_its_object() {
    let target = Arc::new(Mutex::new(1usize));
    let mut manager = GroupManager::new();
    let group = manager.create_group("g").unwrap();
    let task = group
        .create_task_method_mut(&mut manager, "double", Arc::clone(&target), |value: &mut usize| {
            *value *= 2
        })
        .unwrap();
    task.call();
    assert_eq!(*target.lock().unwrap(), 2);
    let topology = Topology::new_from(manager.groups()).unwrap();
    let mut worker = SequentialWorker::new();
    {
        // The lock is held on this very thread: the calls return, and the
        // method has not run.
        let held = target.lock().unwrap();
        task.call();
        worker.ready(&topology).unwrap();
        worker.execute().unwrap();
        assert_eq!(worker.task_count(), 0);
        assert_eq!(*held, 2);
    }
    worker.ready(&topology).unwrap();
    worker.execute().unwrap();
    assert_eq!(*target.lock().unwrap(), 4);
}
