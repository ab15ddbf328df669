//! Task-capability glue: the pluggable execution contract that node
//! payloads satisfy, and two ready-made adapters around it.

use vstd::prelude::*;

use core::marker::PhantomData;

verus! {

/// The task capability: the execution contract a node's payload must
/// satisfy.  `exec` begins or advances execution and returns a result
/// value or a typed failure; `started` and `resolved` report whether
/// execution has been invoked and whether it has completed.
pub trait Resolveable<T, E> {
    /// Whether execution has been invoked, as abstract state.
    spec fn spec_started(&self) -> bool;

    /// Whether execution has completed, as abstract state.
    spec fn spec_resolved(&self) -> bool;

    /// Whether the last execution completed successfully, as abstract
    /// state.  The scheduler's contract ties its error map to this.
    spec fn spec_succeeded(&self) -> bool;

    /// Begins or advances execution, returning a result or a typed
    /// failure.  The scheduler awaits completion, so when the call
    /// returns the task has been started and has resolved, and its
    /// abstract success state records whether the result was `Ok`.
    fn exec(&mut self) -> (result: Result<T, E>)
        ensures
            final(self).spec_started(),
            final(self).spec_resolved(),
            final(self).spec_succeeded() <==> result is Ok,
    ;

    /// Whether execution has completed.
    fn resolved(&self) -> (r: bool)
        ensures
            r == self.spec_resolved(),
    ;

    /// Whether execution has been invoked.
    fn started(&self) -> (r: bool)
        ensures
            r == self.spec_started(),
    ;
}

/// A ready-made capability around a callable task body.  Invoking it
/// runs the body once and records that the task was started and
/// completed.
#[derive(PartialEq, Eq, Hash)]
#[verifier::reject_recursive_types(T)]
#[verifier::reject_recursive_types(E)]
pub struct DefaultResolveable<T, E, F> where F: Fn() -> Result<T, E> {
    task: F,
    started: bool,
    complete: bool,
    succeeded: bool,
    marker: PhantomData<(T, E)>,
}

impl<T, E, F> DefaultResolveable<T, E, F> where F: Fn() -> Result<T, E> {
    /// The invariant behind every constructed value: the task body can
    /// be invoked.
    #[verifier::type_invariant]
    spec fn task_callable(self) -> bool {
        call_requires(self.task, ())
    }

    /// The stored task body, as abstract state: what a later `exec`
    /// invokes.
    pub closed spec fn spec_task(&self) -> F {
        self.task
    }

    /// Wraps a task body that is ready to be invoked.  The fresh task
    /// is neither started nor resolved.
    pub fn new(task: F) -> (r: DefaultResolveable<T, E, F>)
        requires
            call_requires(task, ()),
        ensures
            r.spec_task() == task,
            !r.spec_started(),
            !r.spec_resolved(),
            !r.spec_succeeded(),
    {
        DefaultResolveable {
            task,
            started: false,
            complete: false,
            succeeded: false,
            marker: PhantomData,
        }
    }
}

impl<T, E, F> Resolveable<T, E> for DefaultResolveable<T, E, F> where F: Fn() -> Result<T, E> {
    closed spec fn spec_started(&self) -> bool {
        self.started
    }

    closed spec fn spec_resolved(&self) -> bool {
        self.complete
    }

    closed spec fn spec_succeeded(&self) -> bool {
        self.succeeded
    }

    fn exec(&mut self) -> (result: Result<T, E>)
        ensures
            call_ensures(old(self).spec_task(), (), result),
            final(self).spec_task() == old(self).spec_task(),
    {
        proof {
            use_type_invariant(&*self);
        }
        self.started = true;
        let result = (self.task)();
        self.complete = true;
        self.succeeded = result.is_ok();
        result
    }

    fn resolved(&self) -> (r: bool) {
        self.complete
    }

    fn started(&self) -> (r: bool) {
        self.started
    }
}

/// A single-owner cell around a task payload.  The scheduler owns its
/// graph end to end and reaches each task through `&mut`, so the cell
/// is a plain owned value: it forwards the task capability and the
/// comparisons of its contents.
#[derive(PartialEq, Eq, Hash, Debug)]
pub struct RefCellWrapper<T> {
    /// The wrapped payload.
    pub c: T,
}

impl<T> RefCellWrapper<T> {
    /// Wraps a payload.
    pub fn new(t: T) -> (r: RefCellWrapper<T>)
        ensures
            r.c == t,
    {
        RefCellWrapper { c: t }
    }
}

impl<T, U, E> Resolveable<U, E> for RefCellWrapper<T> where T: Resolveable<U, E> {
    open spec fn spec_started(&self) -> bool {
        self.c.spec_started()
    }

    open spec fn spec_resolved(&self) -> bool {
        self.c.spec_resolved()
    }

    open spec fn spec_succeeded(&self) -> bool {
        self.c.spec_succeeded()
    }

    fn exec(&mut self) -> (result: Result<U, E>) {
        self.c.exec()
    }

    fn resolved(&self) -> (r: bool) {
        self.c.resolved()
    }

    fn started(&self) -> (r: bool) {
        self.c.started()
    }
}

} // verus!
