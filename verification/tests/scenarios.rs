use dy_tasksys::error::TaskError;
use dy_tasksys::executor::Executor;
use dy_tasksys::group::{Group, GroupManager};
use dy_tasksys::task::Task;
use dy_tasksys::topology::Topology;
use dy_tasksys::worker::{SequentialWorker, ThreadingWorker, Worker, WorkerAction};
use std::sync::{Arc, Mutex};

type Log = Arc<Mutex<Vec<String>>>;

fn logger(log: &Log, word: &str) -> impl Fn() + Send + Sync + 'static {
    let log = Arc::clone(log);
    let word = word.to_string();
    move || log.lock().unwrap().push(word.clone())
}

fn words(log: &Log) -> Vec<String> {
    log.lock().unwrap().clone()
}

fn place(log: &[String], word: &str) -> usize {
    log.iter().position(|w| w == word).unwrap()
}

fn run(manager: &GroupManager) -> SequentialWorker {
    assert!(Topology::fits(manager.groups()));
    let topology = Topology::new_from(manager.groups()).unwrap();
    assert!(!topology.is_cyclic());
    let mut executor = Executor::new();
    executor.exchange_worker(SequentialWorker::new()).unwrap();
    executor.exchange_topology(topology).unwrap();
    assert_eq!(executor.execute(), Ok(()));
    assert_eq!(executor.wait_finish(), Ok(()));
    assert!(!executor.is_executed());
    executor.detach_worker().unwrap().unwrap()
}

/// Plays the threads of a threading worker, one after the other, until the
/// worker owes no task. Returns how often a thread was told to park.
fn play(worker: &mut ThreadingWorker) -> usize {
    let threads = worker.thread_count();
    let mut parked = vec![false; threads];
    let mut parks = 0;
    for number in worker.execute() {
        parked[number] = false;
    }
    let mut rounds = 0;
    while !worker.is_finished() {
        rounds += 1;
        assert!(rounds < 1_000_000);
        for number in 0..threads {
            if parked[number] {
                continue;
            }
            match worker.fetch(number) {
                WorkerAction::Exit => panic!("the worker is not terminated"),
                WorkerAction::Run(task) => {
                    task.invoke();
                    assert!(worker.is_running(&task));
                    for woken in worker.complete(&task) {
                        assert!(parked[woken]);
                        parked[woken] = false;
                    }
                }
                WorkerAction::Park => {
                    parked[number] = true;
                    parks += 1;
                }
                WorkerAction::Spin => {}
            }
        }
        assert!(parked.iter().any(|p| !p) || worker.is_finished());
    }
    parks
}

struct Diamond {
    manager: GroupManager,
    _groups: Vec<Group>,
    _tasks: Vec<Task>,
}

fn diamond(log: &Log) -> Diamond {
    let mut manager = GroupManager::new();
    let a = manager.create_group("A").unwrap();
    let b = manager.create_group("B").unwrap();
    let c = manager.create_group("C").unwrap();
    let d = manager.create_group("D").unwrap();
    let tasks = vec![
        a.create_task(&mut manager, "A", logger(log, "A")).unwrap(),
        b.create_task(&mut manager, "B", logger(log, "B")).unwrap(),
        c.create_task(&mut manager, "C", logger(log, "C")).unwrap(),
        d.create_task(&mut manager, "D", logger(log, "D")).unwrap(),
    ];
    a.precede(&mut manager, b.handle()).unwrap();
    a.precede(&mut manager, c.handle()).unwrap();
    b.precede(&mut manager, d.handle()).unwrap();
    c.precede(&mut manager, d.handle()).unwrap();
    Diamond { manager, _groups: vec![a, b, c, d], _tasks: tasks }
}

#[test]
fn two_groups_run_in_chained_order() {
    let log = Log::default();
    let mut manager = GroupManager::new();
    let g1 = manager.create_group("G1").unwrap();
    let _t1 = g1.create_task(&mut manager, "T1", logger(&log, "a")).unwrap();
    let g2 = manager.create_group("G2").unwrap();
    let _t2 = g2.create_task(&mut manager, "T2", logger(&log, "b")).unwrap();
    assert_eq!(g2.precede(&mut manager, g1.handle()), Ok(()));
    let worker = run(&manager);
    assert_eq!(words(&log), vec!["b".to_string(), "a".to_string()]);
    assert_eq!(worker.task_count(), 0);
}

#[test]
fn three_groups_add_up_in_order() {
    let value = Arc::new(Mutex::new(0i32));
    let steps = Arc::new(Mutex::new(Vec::new()));
    let mut manager = GroupManager::new();
    let g1 = manager.create_group("G1").unwrap();
    let g2 = manager.create_group("G2").unwrap();
    let g3 = manager.create_group("G3").unwrap();
    let adder = |amount: i32| {
        let value = Arc::clone(&value);
        let steps = Arc::clone(&steps);
        move || {
            *value.lock().unwrap() += amount;
            steps.lock().unwrap().push(amount);
        }
    };
    let _t3 = g3.create_task(&mut manager, "one", adder(1)).unwrap();
    let _t2 = g2.create_task(&mut manager, "two", adder(2)).unwrap();
    let _t1 = g1.create_task(&mut manager, "three", adder(3)).unwrap();
    g3.precede(&mut manager, g2.handle()).unwrap();
    g2.precede(&mut manager, g1.handle()).unwrap();
    run(&manager);
    assert_eq!(*value.lock().unwrap(), 6);
    assert_eq!(*steps.lock().unwrap(), vec![1, 2, 3]);
}

#[test]
fn diamond_starts_with_root_and_ends_with_sink() {
    let log = Log::default();
    let graph = diamond(&log);
    run(&graph.manager);
    let log = words(&log);
    assert_eq!(log.len(), 4);
    assert_eq!(log[0], "A");
    assert_eq!(log[3], "D");
    let mut middle = vec![log[1].clone(), log[2].clone()];
    middle.sort();
    assert_eq!(middle, vec!["B".to_string(), "C".to_string()]);
}

#[test]
fn diamond_branches_run_after_root_and_before_sink() {
    let log = Log::default();
    let mut manager = GroupManager::new();
    let a = manager.create_group("A").unwrap();
    let b = manager.create_group("B").unwrap();
    let c = manager.create_group("C").unwrap();
    let d = manager.create_group("D").unwrap();
    let mut tasks = Vec::new();
    for (group, name) in [(&a, "A"), (&b, "B"), (&c, "C"), (&d, "D")] {
        for number in 0..3 {
            let word = format!("{}{}", name, number);
            tasks.push(group.create_task(&mut manager, &word, logger(&log, &word)).unwrap());
        }
    }
    a.precede(&mut manager, b.handle()).unwrap();
    a.precede(&mut manager, c.handle()).unwrap();
    d.succeed(&mut manager, b.handle()).unwrap();
    d.succeed(&mut manager, c.handle()).unwrap();
    run(&manager);
    let log = words(&log);
    assert_eq!(log.len(), 12);
    let last_of = |name: &str| (0..3).map(|n| place(&log, &format!("{}{}", name, n))).max().unwrap();
    let first_of = |name: &str| (0..3).map(|n| place(&log, &format!("{}{}", name, n))).min().unwrap();
    assert!(last_of("A") < first_of("B"));
    assert!(last_of("A") < first_of("C"));
    assert!(last_of("B") < first_of("D"));
    assert!(last_of("C") < first_of("D"));
}

#[test]
fn empty_group_passes_completion_on() {
    let log = Log::default();
    let mut manager = GroupManager::new();
    let first = manager.create_group("first").unwrap();
    let empty = manager.create_group("empty").unwrap();
    let last = manager.create_group("last").unwrap();
    let _t1 = first.create_task(&mut manager, "first", logger(&log, "first")).unwrap();
    let _t2 = last.create_task(&mut manager, "last", logger(&log, "last")).unwrap();
    first.precede(&mut manager, empty.handle()).unwrap();
    empty.precede(&mut manager, last.handle()).unwrap();
    let topology = Topology::new_from(manager.groups()).unwrap();
    assert_eq!(topology.task_count(), 3);
    assert_eq!(topology.group_nodes()[1].task_nodes().len(), 1);
    assert_eq!(topology.group_nodes()[1].task_count(), 1);
    let sentinel = &topology.group_nodes()[1].task_nodes()[0].handle;
    assert!(!sentinel.is_released(&manager));
    assert_eq!(sentinel.value_as_ref(&manager).unwrap().get().name(), "_");
    assert_eq!(topology.group_nodes()[2].is_ready(), false);
    let worker = run(&manager);
    assert_eq!(words(&log), vec!["first".to_string(), "last".to_string()]);
    assert_eq!(worker.task_count(), 0);
}

#[test]
fn fan_out_of_a_thousand_tasks_feeds_one_sink() {
    let log = Log::default();
    let mut manager = GroupManager::new();
    let root = manager.create_group("root").unwrap();
    let sink = manager.create_group("sink").unwrap();
    let mut tasks = Vec::new();
    for number in 0..1000 {
        let word = format!("r{}", number);
        tasks.push(root.create_task(&mut manager, &word, logger(&log, &word)).unwrap());
    }
    tasks.push(sink.create_task(&mut manager, "sink", logger(&log, "sink")).unwrap());
    root.precede(&mut manager, sink.handle()).unwrap();
    let topology = Topology::new_from(manager.groups()).unwrap();
    assert_eq!(topology.task_count(), 1001);
    assert_eq!(topology.root_groups(), &vec![0usize]);
    let worker = run(&manager);
    let log = words(&log);
    assert_eq!(log.len(), 1001);
    assert_eq!(log[1000], "sink");
    for number in 0..1000 {
        assert_eq!(log[number], format!("r{}", number));
    }
    assert_eq!(worker.task_count(), 0);
}

#[test]
fn released_group_is_absent_after_rearrange() {
    let mut manager = GroupManager::new();
    let a = manager.create_group("a").unwrap();
    let b = manager.create_group("b").unwrap();
    let c = manager.create_group("c").unwrap();
    a.precede(&mut manager, b.handle()).unwrap();
    b.precede(&mut manager, c.handle()).unwrap();
    let gone = b.handle();
    manager.release_group(b);
    assert!(gone.is_released(&manager));
    assert_eq!(manager.groups().len(), 3);
    manager.rearrange_groups();
    assert_eq!(manager.groups().len(), 2);
    for group in manager.groups() {
        assert_ne!(group.id(), gone.id());
        assert!(!group.predecessors().contains(&gone));
        assert!(!group.successors().contains(&gone));
    }
    let topology = Topology::new_from(manager.groups()).unwrap();
    assert_eq!(topology.group_nodes().len(), 2);
    assert_eq!(topology.task_count(), 2);
    assert_eq!(topology.root_groups(), &vec![0usize, 1usize]);
    for node in topology.group_nodes() {
        assert_ne!(node.handle(), gone);
        assert!(node.successor_nodes().is_empty());
    }
    assert_eq!(a.handle().id(), 0);
    assert_eq!(c.handle().id(), 2);
}

#[test]
fn execute_twice_is_refused() {
    let mut manager = GroupManager::new();
    let g1 = manager.create_group("G1").unwrap();
    let _t1 = g1.create_task(&mut manager, "T1", || {}).unwrap();
    let topology = Topology::new_from(manager.groups()).unwrap();
    let mut executor = Executor::new();
    executor.exchange_worker(SequentialWorker::new()).unwrap();
    executor.exchange_topology(topology).unwrap();
    assert_eq!(executor.execute(), Ok(()));
    assert_eq!(executor.execute(), Err(TaskError::AlreadyExecuted));
    assert!(executor.is_executed());
}

#[test]
fn pool_of_four_repeats_the_diamond_a_hundred_times() {
    let log = Log::default();
    let mut graph = diamond(&log);
    let mut worker = ThreadingWorker::try_new(4).unwrap();
    let mut topology = Topology::new();
    let mut first: Option<Vec<String>> = None;
    for _ in 0..100 {
        graph.manager.rearrange_groups();
        graph.manager.rearrange_tasks();
        assert_eq!(topology.rearrange_from(graph.manager.groups()), Ok(()));
        assert!(!topology.is_cyclic());
        worker.ready(&topology);
        assert_eq!(worker.task_count(), 4);
        play(&mut worker);
        assert_eq!(worker.task_count(), 0);
        let seen = std::mem::take(&mut *log.lock().unwrap());
        assert_eq!(seen.len(), 4);
        assert_eq!(seen[0], "A");
        assert_eq!(seen[3], "D");
        match &first {
            None => first = Some(seen),
            Some(first) => assert_eq!(&seen, first),
        }
    }
    worker.terminate();
    assert!(worker.is_finished());
    assert!(worker.close().len() <= 4);
    for number in 0..4 {
        assert!(matches!(worker.fetch(number), WorkerAction::Exit));
    }
}

#[test]
fn pool_and_sequential_worker_agree() {
    let log = Log::default();
    let mut manager = GroupManager::new();
    let a = manager.create_group("A").unwrap();
    let b = manager.create_group("B").unwrap();
    let c = manager.create_group("C").unwrap();
    let d = manager.create_group("D").unwrap();
    let e = manager.create_group("E").unwrap();
    let mut tasks = Vec::new();
    for (group, name, count) in [(&a, "A", 2), (&b, "B", 5), (&c, "C", 1), (&d, "D", 3)] {
        for number in 0..count {
            let word = format!("{}{}", name, number);
            tasks.push(group.create_task(&mut manager, &word, logger(&log, &word)).unwrap());
        }
    }
    a.precede(&mut manager, b.handle()).unwrap();
    a.precede(&mut manager, c.handle()).unwrap();
    b.precede(&mut manager, e.handle()).unwrap();
    c.precede(&mut manager, e.handle()).unwrap();
    e.precede(&mut manager, d.handle()).unwrap();
    let topology = Topology::new_from(manager.groups()).unwrap();
    assert!(!topology.is_cyclic());
    assert_eq!(topology.task_count(), 2 + 5 + 1 + 3 + 1);

    let mut sequential = SequentialWorker::new();
    sequential.ready(&topology).unwrap();
    sequential.execute().unwrap();
    let in_sequence = std::mem::take(&mut *log.lock().unwrap());

    let mut outcomes = vec![in_sequence.clone()];
    for threads in [1usize, 2, 3, 7] {
        let mut pool = ThreadingWorker::try_new(threads).unwrap();
        pool.ready(&topology);
        play(&mut pool);
        assert_eq!(pool.task_count(), sequential.task_count());
        outcomes.push(std::mem::take(&mut *log.lock().unwrap()));
    }
    for outcome in &outcomes {
        let mut sorted = outcome.clone();
        sorted.sort();
        let mut expected = in_sequence.clone();
        expected.sort();
        assert_eq!(sorted, expected);
        assert_eq!(outcome.len(), 11);
        let last = |name: &str| outcome.iter().rposition(|w| w.starts_with(name)).unwrap();
        let first = |name: &str| outcome.iter().position(|w| w.starts_with(name)).unwrap();
        assert!(last("A") < first("B"));
        assert!(last("A") < first("C"));
        assert!(last("B") < first("D"));
        assert!(last("C") < first("D"));
    }
}

struct TestStruct {
    phrase: String,
}

impl TestStruct {
    fn print_mutable(&mut self) {
        self.phrase += "!";
    }

    fn print_something(&self) {
        println!("{}", self.phrase);
    }
}

#[test]
fn integration() {
    let mut manager = GroupManager::new();
    let mut executor = Executor::new();
    executor.exchange_worker(SequentialWorker::new()).unwrap();
    let mut pool = ThreadingWorker::try_new(4).unwrap();
    let mut topology = Topology::new();

    let group = manager.create_group("Group name").unwrap();
    let _task = group.create_task(&mut manager, "Task1", || {
        println!("Hello world! from Task1 of group1.");
    });

    let from_outside = Arc::new(Mutex::new(0i32));
    let group2 = manager.create_group("Group Name2").unwrap();

    let _task21 = {
        let cloned = Arc::clone(&from_outside);
        group2.create_task(&mut manager, "Task21", move || {
            println!("Hello world! from Task21 of group2.");
            *cloned.lock().unwrap() += 180;
        })
    };

    let _task22 = {
        let cloned = Arc::clone(&from_outside);
        group2.create_task(&mut manager, "Task22", move || {
            println!("From Task22 of group2, value is {}", *cloned.lock().unwrap());
        })
    };

    // Group2 should be called before Group.
    group2.precede(&mut manager, group.handle()).unwrap();

    let group3 = manager.create_group("Group Name3").unwrap();
    let _task31 = {
        let cloned = Arc::clone(&from_outside);
        group3.create_task(&mut manager, "Task31", move || {
            println!("Call closure of Task31 of group3.");
            *cloned.lock().unwrap() -= 45;
        })
    };
    // Group3 should be called before Group2, so Group3 => Group2 => Group0.
    group3.precede(&mut manager, group2.handle()).unwrap();

    let test_item = Arc::new(Mutex::new(TestStruct { phrase: "Hello from struct".to_string() }));
    let reader = Arc::new(TestStruct { phrase: "Hello from struct".to_string() });
    let _t32 = group3.create_task_method(&mut manager, "Task1", Arc::clone(&reader), TestStruct::print_something);
    let _t33 = group3.create_task_method_mut(&mut manager, "Task1", Arc::clone(&test_item), TestStruct::print_mutable);

    for i in 0..100 {
        println!("Trial 1 {}", i);
        // Rearrange secion
        manager.rearrange_groups();
        manager.rearrange_tasks();
        topology.rearrange_from(manager.groups()).unwrap();
        assert!(!topology.is_cyclic());

        // The same plan on the threads of a pool.
        pool.ready(&topology);
        play(&mut pool);
        assert!(pool.is_finished());

        // Execution section
        executor.exchange_topology(topology).unwrap();
        executor.execute().unwrap();
        executor.wait_finish().unwrap();

        topology = executor.detach_topology().unwrap().unwrap();
        println!("\n");
    }
    assert_eq!(*from_outside.lock().unwrap(), 200 * (180 - 45));
    assert_eq!(test_item.lock().unwrap().phrase.len(), "Hello from struct".len() + 200);
}
