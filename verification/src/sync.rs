//! The synchronisation system calls of a process: creating mutexes,
//! semaphores and condition variables, and the bookkeeping around locking and
//! unlocking them, with optional deadlock detection.
//!
//! Blocking on a primitive is the scheduler's work and stays with the caller:
//! `sys_mutex_lock` and `sys_semaphore_down` decide whether the request may go
//! ahead; once the caller has blocked on the primitive and obtained it, it
//! records that with `mutex_lock_acquired` or `semaphore_down_acquired`.
use vstd::prelude::*;
use crate::deadlock::{is_safe_sequence, lemma_safe_iff_safe_sequence};
use crate::resources::{bump, bump_at, put, ResourceTable};

verus! {

/// What a lock or down request returns when granting it could deadlock.
pub const DEADLOCK: isize = -0xDEAD;

/// The synchronisation state of one process: its mutexes, semaphores and
/// condition variables by id, the banker's tables of the first two, and
/// whether deadlock detection is on.
pub struct ProcessSyncState<M, S, C> {
    mutexes: ResourceTable<M>,
    semaphores: ResourceTable<S>,
    condvar_list: Vec<Option<C>>,
    enable_deadlock_detect: bool,
}

impl<M, S, C> ProcessSyncState<M, S, C> {
    /// The process's mutexes and their tables.
    pub closed spec fn mutexes(&self) -> ResourceTable<M> {
        self.mutexes
    }

    /// The process's semaphores and their tables.
    pub closed spec fn semaphores(&self) -> ResourceTable<S> {
        self.semaphores
    }

    /// The process's condition variables by id.
    pub closed spec fn condvars(&self) -> Seq<Option<C>> {
        self.condvar_list@
    }

    /// Whether lock and down requests are checked for deadlock.
    pub closed spec fn deadlock_detect(&self) -> bool {
        self.enable_deadlock_detect
    }

    /// Number of threads the process has.
    pub open spec fn threads(&self) -> nat {
        self.mutexes().threads()
    }

    /// Both tables are well formed and have one row per thread.
    pub open spec fn wf(&self) -> bool {
        &&& self.mutexes().wf()
        &&& self.semaphores().wf()
        &&& self.mutexes().threads() == self.semaphores().threads()
    }

    /// A process with no thread, no primitive, and deadlock detection off.
    pub fn new() -> (st: Self)
        ensures
            st.wf(),
            st.threads() == 0,
            st.mutexes().slots() == Seq::<Option<M>>::empty(),
            st.semaphores().slots() == Seq::<Option<S>>::empty(),
            st.condvars() == Seq::<Option<C>>::empty(),
            !st.deadlock_detect(),
    {
        ProcessSyncState {
            mutexes: ResourceTable::new(),
            semaphores: ResourceTable::new(),
            condvar_list: Vec::new(),
            enable_deadlock_detect: false,
        }
    }

    /// Gives a new thread empty rows in the mutex and semaphore tables;
    /// returns its thread id.
    pub fn add_thread(&mut self) -> (tid: usize)
        requires
            old(self).wf(),
            old(self).threads() < usize::MAX,
        ensures
            final(self).wf(),
            tid == old(self).threads(),
            final(self).threads() == old(self).threads() + 1,
            final(self).mutexes().slots() == old(self).mutexes().slots(),
            final(self).mutexes().available() == old(self).mutexes().available(),
            final(self).mutexes().allocation() == old(self).mutexes().allocation().push(
                crate::resources::zeros(old(self).mutexes().available().len()),
            ),
            final(self).mutexes().need() == old(self).mutexes().need().push(
                crate::resources::zeros(old(self).mutexes().available().len()),
            ),
            final(self).semaphores().slots() == old(self).semaphores().slots(),
            final(self).semaphores().available() == old(self).semaphores().available(),
            final(self).semaphores().allocation() == old(self).semaphores().allocation().push(
                crate::resources::zeros(old(self).semaphores().available().len()),
            ),
            final(self).semaphores().need() == old(self).semaphores().need().push(
                crate::resources::zeros(old(self).semaphores().available().len()),
            ),
            final(self).condvars() == old(self).condvars(),
            final(self).deadlock_detect() == old(self).deadlock_detect(),
    {
        let tid = self.mutexes.add_thread();
        self.semaphores.add_thread();
        tid
    }

    /// The mutexes and their tables.
    pub fn mutex_table(&self) -> (t: &ResourceTable<M>)
        ensures
            *t == self.mutexes(),
    {
        &self.mutexes
    }

    /// The semaphores and their tables.
    pub fn semaphore_table(&self) -> (t: &ResourceTable<S>)
        ensures
            *t == self.semaphores(),
    {
        &self.semaphores
    }

    /// Whether condition variable `id` exists.
    pub fn has_condvar(&self, id: usize) -> (b: bool)
        ensures
            b == (id < self.condvars().len() && self.condvars()[id as int] is Some),
    {
        id < self.condvar_list.len() && self.condvar_list[id].is_some()
    }

    /// Number of condition variable slots.
    pub fn condvar_count(&self) -> (n: usize)
        ensures
            n == self.condvars().len(),
    {
        self.condvar_list.len()
    }

    /// Whether deadlock detection is on.
    pub fn deadlock_detect_enabled(&self) -> (b: bool)
        ensures
            b == self.deadlock_detect(),
    {
        self.enable_deadlock_detect
    }

    /// The mutex with id `mutex_id`.
    pub fn mutex(&self, mutex_id: usize) -> (m: &M)
        requires
            mutex_id < self.mutexes().slots().len(),
            self.mutexes().slots()[mutex_id as int] is Some,
        ensures
            self.mutexes().slots()[mutex_id as int] == Some(*m),
    {
        self.mutexes.get(mutex_id)
    }

    /// The semaphore with id `sem_id`.
    pub fn semaphore(&self, sem_id: usize) -> (s: &S)
        requires
            sem_id < self.semaphores().slots().len(),
            self.semaphores().slots()[sem_id as int] is Some,
        ensures
            self.semaphores().slots()[sem_id as int] == Some(*s),
    {
        self.semaphores.get(sem_id)
    }

    /// Stores a new mutex in the lowest free id, or a new id at the end,
    /// with its one unit free; returns the id.
    pub fn sys_mutex_create(&mut self, mutex: M) -> (ret: isize)
        requires
            old(self).wf(),
            old(self).mutexes().slots().len() < isize::MAX,
        ensures
            final(self).wf(),
            0 <= ret <= old(self).mutexes().slots().len(),
            forall|k: int| 0 <= k < ret ==> old(self).mutexes().slots()[k] is Some,
            ret < old(self).mutexes().slots().len() ==> old(self).mutexes().slots()[ret as int] is None,
            final(self).mutexes().slots() == put(old(self).mutexes().slots(), ret as int, Some(mutex)),
            final(self).mutexes().available() == put(old(self).mutexes().available(), ret as int, 1),
            final(self).mutexes().allocation().len() == old(self).mutexes().allocation().len(),
            final(self).mutexes().need().len() == old(self).mutexes().need().len(),
            forall|i: int|
                0 <= i < old(self).threads() ==> (#[trigger] final(self).mutexes().allocation()[i])
                    == put(old(self).mutexes().allocation()[i], ret as int, 0),
            forall|i: int|
                0 <= i < old(self).threads() ==> (#[trigger] final(self).mutexes().need()[i]) == put(
                    old(self).mutexes().need()[i],
                    ret as int,
                    0,
                ),
            final(self).semaphores() == old(self).semaphores(),
            final(self).condvars() == old(self).condvars(),
            final(self).deadlock_detect() == old(self).deadlock_detect(),
    {
        let id = self.mutexes.create(mutex, 1);
        id as isize
    }

    /// Thread `tid` asks for mutex `mutex_id`: it now waits for it, and when
    /// detection is on the request is refused with `DEADLOCK` if the
    /// resulting state is unsafe (the wait stays recorded). Returns 0 when the
    /// caller may go on to block on the mutex.
    pub fn sys_mutex_lock(&mut self, tid: usize, mutex_id: usize) -> (ret: isize)
        requires
            old(self).wf(),
            tid < old(self).threads(),
            mutex_id < old(self).mutexes().slots().len(),
            old(self).mutexes().slots()[mutex_id as int] is Some,
            old(self).mutexes().need()[tid as int][mutex_id as int] < usize::MAX,
        ensures
            final(self).wf(),
            final(self).mutexes().slots() == old(self).mutexes().slots(),
            final(self).mutexes().available() == old(self).mutexes().available(),
            final(self).mutexes().allocation() == old(self).mutexes().allocation(),
            final(self).mutexes().need() == bump(old(self).mutexes().need(), tid as int, mutex_id as int, 1),
            ret == (if old(self).deadlock_detect() && final(self).mutexes().unsafe_state() {
                DEADLOCK
            } else {
                0
            }),
            final(self).semaphores() == old(self).semaphores(),
            final(self).condvars() == old(self).condvars(),
            final(self).deadlock_detect() == old(self).deadlock_detect(),
    {
        let deadlock = self.mutexes.request(tid, mutex_id, self.enable_deadlock_detect);
        if deadlock {
            DEADLOCK
        } else {
            0
        }
    }

    /// Thread `tid` obtained mutex `mutex_id` it waited for.
    pub fn mutex_lock_acquired(&mut self, tid: usize, mutex_id: usize)
        requires
            old(self).wf(),
            tid < old(self).threads(),
            mutex_id < old(self).mutexes().slots().len(),
            old(self).mutexes().available()[mutex_id as int] >= 1,
            old(self).mutexes().need()[tid as int][mutex_id as int] >= 1,
        ensures
            final(self).wf(),
            forall|j: int|
                0 <= j < old(self).mutexes().slots().len() ==> #[trigger] final(self).mutexes().total_units(j)
                    == old(self).mutexes().total_units(j),
            final(self).mutexes().slots() == old(self).mutexes().slots(),
            final(self).mutexes().available() == bump_at(old(self).mutexes().available(), mutex_id as int, -1),
            final(self).mutexes().need() == bump(old(self).mutexes().need(), tid as int, mutex_id as int, -1),
            final(self).mutexes().allocation() == bump(old(self).mutexes().allocation(), tid as int, mutex_id as int, 1),
            final(self).semaphores() == old(self).semaphores(),
            final(self).condvars() == old(self).condvars(),
            final(self).deadlock_detect() == old(self).deadlock_detect(),
    {
        self.mutexes.acquired(tid, mutex_id);
    }

    /// Thread `tid` gives mutex `mutex_id` back; returns 0.
    pub fn sys_mutex_unlock(&mut self, tid: usize, mutex_id: usize) -> (ret: isize)
        requires
            old(self).wf(),
            tid < old(self).threads(),
            mutex_id < old(self).mutexes().slots().len(),
            old(self).mutexes().slots()[mutex_id as int] is Some,
            old(self).mutexes().allocation()[tid as int][mutex_id as int] >= 1,
        ensures
            final(self).wf(),
            forall|j: int|
                0 <= j < old(self).mutexes().slots().len() ==> #[trigger] final(self).mutexes().total_units(j)
                    == old(self).mutexes().total_units(j),
            ret == 0,
            final(self).mutexes().slots() == old(self).mutexes().slots(),
            final(self).mutexes().need() == old(self).mutexes().need(),
            final(self).mutexes().available() == bump_at(old(self).mutexes().available(), mutex_id as int, 1),
            final(self).mutexes().allocation() == bump(old(self).mutexes().allocation(), tid as int, mutex_id as int, -1),
            final(self).semaphores() == old(self).semaphores(),
            final(self).condvars() == old(self).condvars(),
            final(self).deadlock_detect() == old(self).deadlock_detect(),
    {
        self.mutexes.release(tid, mutex_id);
        0
    }

    /// Stores a new semaphore in the lowest free id, or a new id at the end,
    /// with `res_count` units free; returns the id.
    pub fn sys_semaphore_create(&mut self, res_count: usize, semaphore: S) -> (ret: isize)
        requires
            old(self).wf(),
            old(self).semaphores().slots().len() < isize::MAX,
        ensures
            final(self).wf(),
            0 <= ret <= old(self).semaphores().slots().len(),
            forall|k: int| 0 <= k < ret ==> old(self).semaphores().slots()[k] is Some,
            ret < old(self).semaphores().slots().len() ==> old(self).semaphores().slots()[ret as int] is None,
            final(self).semaphores().slots() == put(old(self).semaphores().slots(), ret as int, Some(semaphore)),
            final(self).semaphores().available() == put(old(self).semaphores().available(), ret as int, res_count),
            final(self).semaphores().allocation().len() == old(self).semaphores().allocation().len(),
            final(self).semaphores().need().len() == old(self).semaphores().need().len(),
            forall|i: int|
                0 <= i < old(self).threads() ==> (#[trigger] final(self).semaphores().allocation()[i])
                    == put(old(self).semaphores().allocation()[i], ret as int, 0),
            forall|i: int|
                0 <= i < old(self).threads() ==> (#[trigger] final(self).semaphores().need()[i]) == put(
                    old(self).semaphores().need()[i],
                    ret as int,
                    0,
                ),
            final(self).mutexes() == old(self).mutexes(),
            final(self).condvars() == old(self).condvars(),
            final(self).deadlock_detect() == old(self).deadlock_detect(),
    {
        let id = self.semaphores.create(semaphore, res_count);
        id as isize
    }

    /// Thread `tid` gives one unit of semaphore `sem_id` back; returns 0.
    pub fn sys_semaphore_up(&mut self, tid: usize, sem_id: usize) -> (ret: isize)
        requires
            old(self).wf(),
            tid < old(self).threads(),
            sem_id < old(self).semaphores().slots().len(),
            old(self).semaphores().slots()[sem_id as int] is Some,
            old(self).semaphores().allocation()[tid as int][sem_id as int] >= 1,
        ensures
            final(self).wf(),
            forall|j: int|
                0 <= j < old(self).semaphores().slots().len() ==> #[trigger] final(self).semaphores().total_units(j)
                    == old(self).semaphores().total_units(j),
            ret == 0,
            final(self).semaphores().slots() == old(self).semaphores().slots(),
            final(self).semaphores().need() == old(self).semaphores().need(),
            final(self).semaphores().available() == bump_at(old(self).semaphores().available(), sem_id as int, 1),
            final(self).semaphores().allocation() == bump(old(self).semaphores().allocation(), tid as int, sem_id as int, -1),
            final(self).mutexes() == old(self).mutexes(),
            final(self).condvars() == old(self).condvars(),
            final(self).deadlock_detect() == old(self).deadlock_detect(),
    {
        self.semaphores.release(tid, sem_id);
        0
    }

    /// Thread `tid` asks for one unit of semaphore `sem_id`: it now waits for
    /// it, and when detection is on the request is refused with `DEADLOCK` if
    /// the resulting state is unsafe (the wait stays recorded). Returns 0 when
    /// the caller may go on to block on the semaphore.
    pub fn sys_semaphore_down(&mut self, tid: usize, sem_id: usize) -> (ret: isize)
        requires
            old(self).wf(),
            tid < old(self).threads(),
            sem_id < old(self).semaphores().slots().len(),
            old(self).semaphores().slots()[sem_id as int] is Some,
            old(self).semaphores().need()[tid as int][sem_id as int] < usize::MAX,
        ensures
            final(self).wf(),
            final(self).semaphores().slots() == old(self).semaphores().slots(),
            final(self).semaphores().available() == old(self).semaphores().available(),
            final(self).semaphores().allocation() == old(self).semaphores().allocation(),
            final(self).semaphores().need() == bump(old(self).semaphores().need(), tid as int, sem_id as int, 1),
            ret == (if old(self).deadlock_detect() && final(self).semaphores().unsafe_state() {
                DEADLOCK
            } else {
                0
            }),
            final(self).mutexes() == old(self).mutexes(),
            final(self).condvars() == old(self).condvars(),
            final(self).deadlock_detect() == old(self).deadlock_detect(),
    {
        let deadlock = self.semaphores.request(tid, sem_id, self.enable_deadlock_detect);
        if deadlock {
            DEADLOCK
        } else {
            0
        }
    }

    /// Thread `tid` obtained the unit of semaphore `sem_id` it waited for.
    pub fn semaphore_down_acquired(&mut self, tid: usize, sem_id: usize)
        requires
            old(self).wf(),
            tid < old(self).threads(),
            sem_id < old(self).semaphores().slots().len(),
            old(self).semaphores().available()[sem_id as int] >= 1,
            old(self).semaphores().need()[tid as int][sem_id as int] >= 1,
        ensures
            final(self).wf(),
            forall|j: int|
                0 <= j < old(self).semaphores().slots().len() ==> #[trigger] final(self).semaphores().total_units(j)
                    == old(self).semaphores().total_units(j),
            final(self).semaphores().slots() == old(self).semaphores().slots(),
            final(self).semaphores().available() == bump_at(old(self).semaphores().available(), sem_id as int, -1),
            final(self).semaphores().need() == bump(old(self).semaphores().need(), tid as int, sem_id as int, -1),
            final(self).semaphores().allocation() == bump(old(self).semaphores().allocation(), tid as int, sem_id as int, 1),
            final(self).mutexes() == old(self).mutexes(),
            final(self).condvars() == old(self).condvars(),
            final(self).deadlock_detect() == old(self).deadlock_detect(),
    {
        self.semaphores.acquired(tid, sem_id);
    }

    /// Stores a new condition variable in the lowest free id, or a new id at
    /// the end; returns the id.
    pub fn sys_condvar_create(&mut self, condvar: C) -> (ret: isize)
        requires
            old(self).condvars().len() < isize::MAX,
        ensures
            0 <= ret <= old(self).condvars().len(),
            forall|k: int| 0 <= k < ret ==> old(self).condvars()[k] is Some,
            ret < old(self).condvars().len() ==> old(self).condvars()[ret as int] is None,
            final(self).condvars() == put(old(self).condvars(), ret as int, Some(condvar)),
            final(self).mutexes() == old(self).mutexes(),
            final(self).semaphores() == old(self).semaphores(),
            final(self).deadlock_detect() == old(self).deadlock_detect(),
    {
        let len = self.condvar_list.len();
        let mut id: usize = 0;
        while id < len
            invariant
                id <= len,
                len == self.condvar_list@.len(),
                forall|k: int| 0 <= k < id ==> self.condvar_list@[k] is Some,
            ensures
                id <= len,
                forall|k: int| 0 <= k < id ==> self.condvar_list@[k] is Some,
                id < len ==> self.condvar_list@[id as int] is None,
            decreases len - id,
        {
            if self.condvar_list[id].is_none() {
                break;
            }
            id = id + 1;
        }
        if id < len {
            self.condvar_list.set(id, Some(condvar));
        } else {
            self.condvar_list.push(Some(condvar));
        }
        id as isize
    }

    /// The condition variable to signal.
    pub fn sys_condvar_signal(&self, condvar_id: usize) -> (c: &C)
        requires
            condvar_id < self.condvars().len(),
            self.condvars()[condvar_id as int] is Some,
        ensures
            self.condvars()[condvar_id as int] == Some(*c),
    {
        self.condvar_list[condvar_id].as_ref().unwrap()
    }

    /// The condition variable to wait on and the mutex to release meanwhile.
    pub fn sys_condvar_wait(&self, condvar_id: usize, mutex_id: usize) -> (r: (&C, &M))
        requires
            condvar_id < self.condvars().len(),
            self.condvars()[condvar_id as int] is Some,
            mutex_id < self.mutexes().slots().len(),
            self.mutexes().slots()[mutex_id as int] is Some,
        ensures
            self.condvars()[condvar_id as int] == Some(*r.0),
            self.mutexes().slots()[mutex_id as int] == Some(*r.1),
    {
        let c = self.condvar_list[condvar_id].as_ref().unwrap();
        let m = self.mutexes.get(mutex_id);
        (c, m)
    }

    /// Turns deadlock detection on (1) or off (0); any other value is refused
    /// with -1 and changes nothing.
    pub fn sys_enable_deadlock_detect(&mut self, enabled: usize) -> (ret: isize)
        ensures
            ret == (if enabled <= 1 {
                0isize
            } else {
                -1isize
            }),
            final(self).deadlock_detect() == (if enabled == 1 {
                true
            } else if enabled == 0 {
                false
            } else {
                old(self).deadlock_detect()
            }),
            final(self).mutexes() == old(self).mutexes(),
            final(self).semaphores() == old(self).semaphores(),
            final(self).condvars() == old(self).condvars(),
    {
        match enabled {
            1 => {
                self.enable_deadlock_detect = true;
            },
            0 => {
                self.enable_deadlock_detect = false;
            },
            _ => return -1,
        }
        0
    }
}

/// A request is refused exactly when, with its wait recorded, the threads
/// cannot be put in a safe sequence.
pub proof fn lemma_refused_iff_no_safe_sequence<T>(t: ResourceTable<T>)
    requires
        t.wf(),
    ensures
        t.unsafe_state() <==> !exists|order: Seq<int>|
            #[trigger] is_safe_sequence(t.available(), t.allocation(), t.need(), order),
{
    lemma_safe_iff_safe_sequence(t.available(), t.allocation(), t.need());
}

/// A lock (or down) that is granted, obtained, and then given back by the same
/// thread leaves the free count, the holdings and the waits as they were.
pub proof fn lemma_acquire_release_restores(
    available: Seq<usize>,
    allocation: Seq<Seq<usize>>,
    need: Seq<Seq<usize>>,
    tid: int,
    id: int,
)
    requires
        0 <= tid < need.len(),
        need.len() == allocation.len(),
        0 <= id < available.len(),
        need[tid].len() == available.len(),
        allocation[tid].len() == available.len(),
        need[tid][id] < usize::MAX,
        available[id] >= 1,
        allocation[tid][id] < usize::MAX,
    ensures
        bump(bump(need, tid, id, 1), tid, id, -1) == need,
        bump_at(bump_at(available, id, -1), id, 1) == available,
        bump(bump(allocation, tid, id, 1), tid, id, -1) == allocation,
{
    assert(bump(bump(need, tid, id, 1), tid, id, -1) =~= need) by {
        assert(bump_at(bump_at(need[tid], id, 1), id, -1) =~= need[tid]);
    }
    assert(bump_at(bump_at(available, id, -1), id, 1) =~= available);
    assert(bump(bump(allocation, tid, id, 1), tid, id, -1) =~= allocation) by {
        assert(bump_at(bump_at(allocation[tid], id, 1), id, -1) =~= allocation[tid]);
    }
}

} // verus!
