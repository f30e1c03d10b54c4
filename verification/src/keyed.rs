//! A graph behind a mutex that only the holder of its key can lock.
//!
//! A graph can be sent to another thread but not shared, since its nodes need not be; behind a
//! mutex it can. The key is a value of its own, so whoever has it knows that nobody else is inside,
//! and in which state the graph was left.

use crate::graph::{Graph, GraphView};
use std::sync::{Mutex, MutexGuard};
use vstd::prelude::*;

verus! {

/// `std::sync::Mutex`.
#[verifier::external_type_specification]
#[verifier::external_body]
#[verifier::reject_recursive_types(T)]
pub struct ExMutex<T: ?Sized>(std::sync::Mutex<T>);

/// `std::sync::MutexGuard`.
#[verifier::external_type_specification]
#[verifier::external_body]
#[verifier::reject_recursive_types(T)]
pub struct ExMutexGuard<'a, T: ?Sized + 'a>(std::sync::MutexGuard<'a, T>);

/// The mutex that `guard` keeps locked.
pub uninterp spec fn mutex_under(guard: MutexGuard<Graph>) -> Mutex<Graph>;

/// The graph behind the mutex that `guard` keeps locked.
pub uninterp spec fn graph_under(guard: MutexGuard<Graph>) -> GraphView;

/// The key of a mutex. There is never more than one: it is made together with the mutex, it is used
/// up by locking and given back by unlocking, and it cannot be copied.
pub struct Key {
    mutex: Ghost<Mutex<Graph>>,
    left: Ghost<GraphView>,
}

impl Key {
    /// The mutex that the key is for.
    pub closed spec fn mutex(&self) -> Mutex<Graph> {
        self.mutex@
    }

    /// The graph behind that mutex, as it was left.
    pub closed spec fn left(&self) -> GraphView {
        self.left@
    }
}

/// Calls `std::sync::Mutex::new`, which puts `graph` behind a new mutex, and hands out its key.
#[verifier::external_body]
pub(crate) fn enclose(graph: Graph) -> (r: (Mutex<Graph>, Key))
    ensures
        r.1.mutex() == r.0,
        r.1.left() == graph@,
{
    let left = Ghost(graph@);
    let mutex = Mutex::new(graph);
    let key = Key { mutex: Ghost(mutex), left };
    (mutex, key)
}

/// Calls `std::sync::Mutex::lock`, which gives access to the graph behind the mutex. The key shows
/// that the mutex is not locked, so the call neither waits nor locks it twice, and that the graph
/// is as it was left. A guard that a panic drops takes its key with it, so a poisoned mutex is
/// never locked again.
#[verifier::external_body]
pub(crate) fn lock<'a>(mutex: &'a Mutex<Graph>, key: Key) -> (r: MutexGuard<'a, Graph>)
    requires
        key.mutex() == *mutex,
    ensures
        mutex_under(r) == *mutex,
        graph_under(r) == key.left(),
{
    match mutex.lock() {
        Ok(guard) => guard,
        Err(poisoned) => poisoned.into_inner(),
    }
}

/// Calls `std::ops::DerefMut::deref_mut` on the guard, which borrows the graph behind the mutex: the
/// graph is then as it is left through the borrow.
#[verifier::external_body]
pub(crate) fn inside<'a>(guard: &'a mut MutexGuard<Graph>) -> (r: &'a mut Graph)
    ensures
        r@ == graph_under(*old(guard)),
        final(r)@ == graph_under(*final(guard)),
        mutex_under(*final(guard)) == mutex_under(*old(guard)),
{
    &mut *guard
}

/// Calls `std::mem::drop` on the guard, which unlocks the mutex and leaves the graph behind it as it
/// is, and gives the key back.
#[verifier::external_body]
pub(crate) fn unlock(guard: MutexGuard<Graph>) -> (r: Key)
    ensures
        r.mutex() == mutex_under(guard),
        r.left() == graph_under(guard),
{
    let key = Key { mutex: Ghost(mutex_under(guard)), left: Ghost(graph_under(guard)) };
    std::mem::drop(guard);
    key
}

} // verus!
