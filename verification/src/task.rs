//! Tasks: named callables, the owner object of each, and the handles that
//! groups and plans keep to them.
use crate::group::GroupManager;
use crate::group::task_is_live;
use std::sync::Arc;
use std::sync::atomic::AtomicBool;
use std::sync::atomic::Ordering;
use std::sync::Mutex;
use std::sync::MutexGuard;
use vstd::prelude::*;

verus! {

/// `std::sync::Mutex`, carried through as an opaque value.
#[verifier::external_type_specification]
#[verifier::external_body]
#[verifier::reject_recursive_types(T)]
pub struct ExMutex<T: ?Sized>(Mutex<T>);

/// `std::sync::MutexGuard`, carried through as an opaque value.
#[verifier::external_type_specification]
#[verifier::external_body]
#[verifier::reject_recursive_types(T)]
pub struct ExMutexGuard<'a, T: ?Sized + 'a>(MutexGuard<'a, T>);

/// Calls `Mutex::try_lock`, which returns at once: the guard, if the lock
/// was free; nothing, if another holder has it or an earlier holder
/// panicked. Which of the two comes back depends on what the other holders
/// do; nothing is claimed of the value behind the guard either.
#[verifier::external_body]
fn try_lock_target<'a, T>(target: &'a Mutex<T>) -> (guard: Option<MutexGuard<'a, T>>) {
    match target.try_lock() {
        Ok(guard) => Some(guard),
        Err(_) => None,
    }
}

/// Calls `DerefMut::deref_mut` on a `MutexGuard`: the exclusive reference to
/// the value that the guard protects. Nothing is claimed of that value.
#[verifier::external_body]
fn guarded<'a, 'b, T>(guard: &'b mut MutexGuard<'a, T>) -> (target: &'b mut T) {
    &mut **guard
}

/// What a task runs.
trait Functor: Send + Sync {
    /// Runs the bound callable.
    fn call(&self);
}

/// A task body that is a closure without arguments.
struct TaskClosure<F: Fn() + Sync + Send> {
    f: F,
}

impl<F: Fn() + Sync + Send> TaskClosure<F> {
    #[verifier::type_invariant]
    spec fn callable(&self) -> bool {
        self.f.requires(())
    }
}

impl<F: Fn() + Sync + Send> Functor for TaskClosure<F> {
    fn call(&self) {
        proof {
            use_type_invariant(self);
        }
        (self.f)()
    }
}

/// A task body that is a method on a shared object.
struct TaskMethod<T: Sync + Send, F: Fn(&T) + Sync + Send> {
    t: Arc<T>,
    f: F,
}

impl<T: Sync + Send, F: Fn(&T) + Sync + Send> TaskMethod<T, F> {
    #[verifier::type_invariant]
    spec fn callable(&self) -> bool {
        self.f.requires((&*self.t,))
    }
}

impl<T: Sync + Send, F: Fn(&T) + Sync + Send> Functor for TaskMethod<T, F> {
    fn call(&self) {
        proof {
            use_type_invariant(self);
        }
        (self.f)(&*self.t)
    }
}

/// A task body that is a mutating method on a shared, locked object. The
/// method runs under the object's lock; where the lock cannot be had at
/// once, the call passes without running the method.
#[verifier::reject_recursive_types(T)]
struct TaskMethodMut<T: Send, F: Fn(&mut T) + Sync + Send> {
    t: Arc<Mutex<T>>,
    f: F,
}

impl<T: Send, F: Fn(&mut T) + Sync + Send> TaskMethodMut<T, F> {
    #[verifier::type_invariant]
    spec fn callable(&self) -> bool {
        forall|target: &mut T| self.f.requires((target,))
    }
}

impl<T: Send, F: Fn(&mut T) + Sync + Send> Functor for TaskMethodMut<T, F> {
    fn call(&self) {
        proof {
            use_type_invariant(self);
        }
        match try_lock_target(&*self.t) {
            Some(guard) => {
                let mut guard = guard;
                (self.f)(guarded(&mut guard))
            },
            None => {},
        }
    }
}

/// The data of a task: its name and what it runs.
pub struct TaskRaw {
    name: String,
    func: Option<Box<dyn Functor>>,
}

impl TaskRaw {
    /// The task's name.
    pub closed spec fn name_text(&self) -> Seq<char> {
        self.name@
    }

    /// Whether the task has a body. Only the placeholder task has none.
    pub closed spec fn has_body(&self) -> bool {
        self.func is Some
    }

    /// Runs the task's body; the placeholder task does nothing.
    pub fn call(&self) {
        if let Some(func) = &self.func {
            func.call();
        }
    }

    /// The task's name.
    pub fn name(&self) -> (name: &String)
        ensures
            name@ == self.name_text(),
    {
        &self.name
    }

    /// The placeholder task: it is named `_` and runs nothing.
    pub(crate) fn empty_task() -> (raw: Self)
        ensures
            raw.name_text() == "_"@,
            !raw.has_body(),
    {
        TaskRaw { name: "_".to_string(), func: None }
    }

    /// A task that runs the closure `f`.
    pub(crate) fn from_closure<F>(name: &str, f: F) -> (raw: Self) where
        F: Fn() + Sync + Send + 'static,

        requires
            name@.len() > 0,
            f.requires(()),
        ensures
            raw.name_text() == name@,
            raw.has_body(),
    {
        TaskRaw { name: name.to_string(), func: Some(Box::new(TaskClosure { f })) }
    }

    /// A task that runs `f` on the shared object `t`.
    pub(crate) fn from_method<T, F>(name: &str, t: Arc<T>, f: F) -> (raw: Self) where
        T: Sync + Send + 'static,
        F: Fn(&T) + Sync + Send + 'static,

        requires
            name@.len() > 0,
            f.requires((&*t,)),
        ensures
            raw.name_text() == name@,
            raw.has_body(),
    {
        TaskRaw { name: name.to_string(), func: Some(Box::new(TaskMethod { t, f })) }
    }

    /// A task that locks the shared object `t` and runs `f` on it.
    pub(crate) fn from_method_mut<T, F>(name: &str, t: Arc<Mutex<T>>, f: F) -> (raw: Self) where
        T: Send + 'static,
        F: Fn(&mut T) + Sync + Send + 'static,

        requires
            name@.len() > 0,
            forall|target: &mut T| f.requires((target,)),
        ensures
            raw.name_text() == name@,
            raw.has_body(),
    {
        TaskRaw { name: name.to_string(), func: Some(Box::new(TaskMethodMut { t, f })) }
    }
}

/// A task, as its creator holds it.
pub struct Task {
    raw: Arc<TaskRaw>,
    id: usize,
    gone: Arc<AtomicBool>,
}

impl Task {
    /// The number by which the manager knows the task.
    pub closed spec fn ident(&self) -> usize {
        self.id
    }

    /// The task's data.
    pub closed spec fn raw(&self) -> TaskRaw {
        *self.raw
    }

    /// Get the name of the task.
    pub fn name(&self) -> (name: String)
        ensures
            name@ == self.raw().name_text(),
    {
        self.raw.name().clone()
    }

    /// The handle that a live task gives out.
    pub closed spec fn live_handle(&self) -> TaskHandle {
        TaskHandle { value: self.raw, id: self.id, released: false, gone: self.gone }
    }

    /// What the handle of a live task holds.
    pub broadcast proof fn live_handle_holds(&self)
        ensures
            (#[trigger] self.live_handle()).ident() == self.ident(),
            self.live_handle().raw() == self.raw(),
            !self.live_handle().released(),
    {
    }

    /// Get a new handle of the task. The handle is live.
    pub fn handle(&self) -> (handle: TaskHandle)
        ensures
            handle == self.live_handle(),
            handle.ident() == self.ident(),
            handle.raw() == self.raw(),
    {
        TaskHandle {
            value: self.raw.clone(),
            id: self.id,
            released: false,
            gone: self.gone.clone(),
        }
    }

    /// The number by which the manager knows the task.
    pub fn id(&self) -> (id: usize)
        ensures
            id == self.ident(),
    {
        self.id
    }

    /// The placeholder task of a group.
    pub(crate) fn empty_task() -> (task: Self)
        ensures
            task.ident() == 0,
            task.raw().name_text() == "_"@,
            !task.raw().has_body(),
    {
        Task {
            raw: Arc::new(TaskRaw::empty_task()),
            id: 0,
            gone: Arc::new(AtomicBool::new(false)),
        }
    }

    /// A task that runs the closure `f`.
    pub(crate) fn from_closure<F>(name: &str, id: usize, f: F) -> (task: Self) where
        F: Fn() + Sync + Send + 'static,

        requires
            name@.len() > 0,
            f.requires(()),
        ensures
            task.ident() == id,
            task.raw().name_text() == name@,
            task.raw().has_body(),
    {
        Task {
            raw: Arc::new(TaskRaw::from_closure(name, f)),
            id,
            gone: Arc::new(AtomicBool::new(false)),
        }
    }

    /// A task that runs `f` on the shared object `t`.
    pub(crate) fn from_method<T, F>(name: &str, id: usize, t: Arc<T>, f: F) -> (task: Self) where
        T: Sync + Send + 'static,
        F: Fn(&T) + Sync + Send + 'static,

        requires
            name@.len() > 0,
            f.requires((&*t,)),
        ensures
            task.ident() == id,
            task.raw().name_text() == name@,
            task.raw().has_body(),
    {
        Task {
            raw: Arc::new(TaskRaw::from_method(name, t, f)),
            id,
            gone: Arc::new(AtomicBool::new(false)),
        }
    }

    /// A task that locks the shared object `t` and runs `f` on it.
    pub(crate) fn from_method_mut<T, F>(name: &str, id: usize, t: Arc<Mutex<T>>, f: F) -> (task:
        Self) where T: Send + 'static, F: Fn(&mut T) + Sync + Send + 'static
        requires
            name@.len() > 0,
            forall|target: &mut T| f.requires((target,)),
        ensures
            task.ident() == id,
            task.raw().name_text() == name@,
            task.raw().has_body(),
    {
        Task {
            raw: Arc::new(TaskRaw::from_method_mut(name, t, f)),
            id,
            gone: Arc::new(AtomicBool::new(false)),
        }
    }

    /// Call task's function.
    pub fn call(&self) {
        self.raw.call();
    }

    /// Tells every handle to the task, wherever it is kept, that the task
    /// has been released.
    pub(crate) fn mark_gone(&self) {
        self.gone.store(true, Ordering::Release);
    }
}

/// What a group or a plan keeps of a task: a reference to its data, its
/// number, a mark that the list of a group sets on its handles when the task
/// is released, and a flag, shared by all handles to the task, that is
/// raised when the task is released. Whether the task is released is asked
/// of the manager, which knows the tasks that are not.
pub struct TaskHandle {
    value: Arc<TaskRaw>,
    id: usize,
    released: bool,
    gone: Arc<AtomicBool>,
}

impl TaskHandle {
    /// The number of the task that the handle stands for.
    pub closed spec fn ident(&self) -> usize {
        self.id
    }

    /// The data of the task that the handle stands for.
    pub closed spec fn raw(&self) -> TaskRaw {
        *self.value
    }

    /// Whether the handle bears the mark of a released task. The handles that
    /// the groups of a manager hold bear it just when their task is released.
    pub closed spec fn released(&self) -> bool {
        self.released
    }

    /// The handle with its task marked as released.
    pub closed spec fn retired(self) -> TaskHandle {
        TaskHandle { value: self.value, id: self.id, released: true, gone: self.gone }
    }

    /// What is left of a handle once its task is marked as released.
    pub broadcast proof fn retired_holds(self)
        ensures
            (#[trigger] self.retired()).released(),
            self.retired().ident() == self.ident(),
            self.retired().raw() == self.raw(),
    {
    }

    /// Access the task behind the handle: `None` when it has been released,
    /// that is when `manager` does not hold it among its tasks. The
    /// placeholder task of a group is never released.
    pub fn value_as_ref<'a>(&'a self, manager: &GroupManager) -> (accessor: Option<
        TaskAccessor<'a>,
    >)
        ensures
            accessor is None <==> !task_is_live(manager.live_task_ids(), self.ident()),
            accessor matches Some(a) ==> *a.task() == self.raw(),
    {
        if manager.holds_task(self.id) {
            Some(TaskAccessor { task_guard: &*self.value })
        } else {
            None
        }
    }

    /// Check task is released or not: whether `manager` does not hold it
    /// among its tasks. The placeholder task of a group is never released.
    pub fn is_released(&self, manager: &GroupManager) -> (released: bool)
        ensures
            released == !task_is_live(manager.live_task_ids(), self.ident()),
    {
        !manager.holds_task(self.id)
    }

    /// Whether the handle bears the mark of a released task.
    pub(crate) fn is_marked(&self) -> (marked: bool)
        ensures
            marked == self.released(),
    {
        self.released
    }

    /// The data of the task that the handle stands for.
    pub(crate) fn data(&self) -> (data: &TaskRaw)
        ensures
            *data == self.raw(),
    {
        &*self.value
    }

    /// The number of the task that the handle stands for.
    pub fn id(&self) -> (id: usize)
        ensures
            id == self.ident(),
    {
        self.id
    }

    /// A second handle to the same task, in the same state.
    pub fn duplicate(&self) -> (copy: TaskHandle)
        ensures
            copy == *self,
    {
        TaskHandle {
            value: self.value.clone(),
            id: self.id,
            released: self.released,
            gone: self.gone.clone(),
        }
    }

    /// Whether the task has been released by now, be it after this handle
    /// was written. Whoever holds the task may release it at any time: what
    /// the call finds is not foretold.
    pub fn is_gone(&self) -> (gone: bool) {
        self.gone.load(Ordering::Acquire)
    }

    /// Marks the task as released.
    pub(crate) fn retire(&mut self)
        ensures
            *final(self) == old(self).retired(),
    {
        self.released = true;
    }
}

/// Read access to the data of a live task.
pub struct TaskAccessor<'a> {
    task_guard: &'a TaskRaw,
}

impl<'a> std::ops::Deref for TaskAccessor<'a> {
    type Target = TaskRaw;

    fn deref(&self) -> (task: &TaskRaw)
        ensures
            task == self.task(),
    {
        self.task_guard
    }
}

impl<'a> TaskAccessor<'a> {
    /// The task that is accessed.
    pub closed spec fn task(&self) -> &TaskRaw {
        self.task_guard
    }

    /// The task that is accessed.
    pub fn get(&self) -> (task: &TaskRaw)
        ensures
            task == self.task(),
    {
        self.task_guard
    }
}

} // verus!
