//! The bookkeeping a process keeps for one kind of shared resource (its
//! mutexes, or its semaphores): the primitives themselves by id, and the
//! banker's tables that deadlock detection reads.
use vstd::prelude::*;
use crate::deadlock::{
    all_threads, deadlock_possible, rows, detect_deadlock, lemma_held_by_cell, lemma_held_by_congruent,
    lemma_held_by_ge_entry, lemma_held_by_zero_column, totals_fit, well_shaped, work_after,
};

verus! {

/// Writes `v` at index `id`, or appends it when `id` is one past the end.
pub open spec fn put<A>(s: Seq<A>, id: int, v: A) -> Seq<A> {
    if id < s.len() {
        s.update(id, v)
    } else {
        s.push(v)
    }
}

/// `s` with the entry at `j` moved by `delta`.
pub open spec fn bump_at(s: Seq<usize>, j: int, delta: int) -> Seq<usize> {
    s.update(j, (s[j] + delta) as usize)
}

/// Table `t` with the entry at row `i`, column `j` moved by `delta`.
pub open spec fn bump(t: Seq<Seq<usize>>, i: int, j: int, delta: int) -> Seq<Seq<usize>> {
    t.update(i, bump_at(t[i], j, delta))
}

/// A row of `m` zeros.
pub open spec fn zeros(m: nat) -> Seq<usize> {
    Seq::new(m, |j: int| 0usize)
}

/// Writes `v` at row `i`, column `j` of a table.
fn set_cell(table: &mut Vec<Vec<usize>>, i: usize, j: usize, v: usize)
    requires
        i < old(table)@.len(),
        j < old(table)@[i as int]@.len(),
    ensures
        rows(final(table)@) == rows(old(table)@).update(i as int, rows(old(table)@)[i as int].update(j as int, v)),
{
    let ghost before = rows(table@);
    table[i].set(j, v);
    proof {
        assert(rows(table@) =~= before.update(i as int, before[i as int].update(j as int, v)));
    }
}

/// Primitives of one kind, by id, with how many units of each are free, held
/// by each thread, and waited for by each thread.
pub struct ResourceTable<T> {
    list: Vec<Option<T>>,
    available: Vec<usize>,
    allocation: Vec<Vec<usize>>,
    need: Vec<Vec<usize>>,
}

impl<T> ResourceTable<T> {
    /// The primitive in each slot; `None` for a free slot.
    pub closed spec fn slots(&self) -> Seq<Option<T>> {
        self.list@
    }

    /// Free units of each primitive.
    pub closed spec fn available(&self) -> Seq<usize> {
        self.available@
    }

    /// `allocation()[tid][id]`: units of primitive `id` thread `tid` holds.
    pub closed spec fn allocation(&self) -> Seq<Seq<usize>> {
        rows(self.allocation@)
    }

    /// `need()[tid][id]`: units of primitive `id` thread `tid` waits for.
    pub closed spec fn need(&self) -> Seq<Seq<usize>> {
        rows(self.need@)
    }

    /// Number of threads the tables have a row for.
    pub open spec fn threads(&self) -> nat {
        self.need().len()
    }

    /// One column per slot, one row per thread, and every column's total fits a word.
    pub open spec fn wf(&self) -> bool {
        &&& self.slots().len() == self.available().len()
        &&& well_shaped(self.available(), self.allocation(), self.need())
        &&& totals_fit(self.available(), self.allocation())
    }

    /// Units of primitive `j` in existence: those free plus those held.
    pub open spec fn total_units(&self, j: int) -> int {
        work_after(self.available(), self.allocation(), all_threads(self.allocation().len()), j)
    }

    /// Whether the current tables describe a state from which some threads can never proceed.
    pub open spec fn unsafe_state(&self) -> bool {
        deadlock_possible(self.available(), self.allocation(), self.need())
    }

    /// A table with no primitive and no thread.
    pub fn new() -> (t: Self)
        ensures
            t.wf(),
            t.slots() == Seq::<Option<T>>::empty(),
            t.available() == Seq::<usize>::empty(),
            t.allocation() == Seq::<Seq<usize>>::empty(),
            t.need() == Seq::<Seq<usize>>::empty(),
    {
        let t = ResourceTable { list: Vec::new(), available: Vec::new(), allocation: Vec::new(), need: Vec::new() };
        proof {
            assert(rows(t.allocation@) =~= Seq::<Seq<usize>>::empty());
            assert(rows(t.need@) =~= Seq::<Seq<usize>>::empty());
        }
        t
    }

    /// Gives a new thread a row of zeros in both tables; returns its index.
    pub fn add_thread(&mut self) -> (tid: usize)
        requires
            old(self).wf(),
            old(self).threads() < usize::MAX,
        ensures
            final(self).wf(),
            tid == old(self).threads(),
            final(self).slots() == old(self).slots(),
            final(self).available() == old(self).available(),
            final(self).allocation() == old(self).allocation().push(zeros(old(self).available().len())),
            final(self).need() == old(self).need().push(zeros(old(self).available().len())),
    {
        let ghost old_alloc = rows(self.allocation@);
        let ghost old_need = rows(self.need@);
        let m = self.available.len();
        let mut row_a: Vec<usize> = Vec::new();
        let mut row_n: Vec<usize> = Vec::new();
        let mut j: usize = 0;
        while j < m
            invariant
                j <= m,
                row_a@ == zeros(j as nat),
                row_n@ == zeros(j as nat),
            decreases m - j,
        {
            row_a.push(0);
            row_n.push(0);
            proof {
                assert(row_a@ =~= zeros((j + 1) as nat));
                assert(row_n@ =~= zeros((j + 1) as nat));
            }
            j = j + 1;
        }
        let tid = self.need.len();
        self.allocation.push(row_a);
        self.need.push(row_n);
        proof {
            assert(rows(self.allocation@) =~= old_alloc.push(zeros(m as nat)));
            assert(rows(self.need@) =~= old_need.push(zeros(m as nat)));
            let n = old_alloc.len();
            let na = rows(self.allocation@);
            assert forall|c: int| 0 <= c < self.available@.len() implies #[trigger] work_after(
                self.available@,
                na,
                all_threads(na.len()),
                c,
            ) <= usize::MAX by {
                assert(work_after(self.available@, old_alloc, all_threads(n), c) <= usize::MAX);
                lemma_held_by_congruent(na, all_threads(na.len()), old_alloc, all_threads(n), c, n as int);
            }
        }
        tid
    }

    /// Number of slots.
    pub fn slot_count(&self) -> (n: usize)
        ensures
            n == self.slots().len(),
    {
        self.list.len()
    }

    /// Number of threads with a row.
    pub fn thread_count(&self) -> (n: usize)
        requires
            self.wf(),
        ensures
            n == self.threads(),
    {
        self.need.len()
    }

    /// Whether slot `id` exists and holds a primitive.
    pub fn is_occupied(&self, id: usize) -> (b: bool)
        ensures
            b == (id < self.slots().len() && self.slots()[id as int] is Some),
    {
        id < self.list.len() && self.list[id].is_some()
    }

    /// Free units of primitive `id`.
    pub fn available_of(&self, id: usize) -> (n: usize)
        requires
            id < self.available().len(),
        ensures
            n == self.available()[id as int],
    {
        self.available[id]
    }

    /// Units of primitive `id` thread `tid` holds.
    pub fn allocation_of(&self, tid: usize, id: usize) -> (n: usize)
        requires
            self.wf(),
            tid < self.threads(),
            id < self.available().len(),
        ensures
            n == self.allocation()[tid as int][id as int],
    {
        assert(rows(self.allocation@)[tid as int] == self.allocation@[tid as int]@);
        self.allocation[tid][id]
    }

    /// Units of primitive `id` thread `tid` waits for.
    pub fn need_of(&self, tid: usize, id: usize) -> (n: usize)
        requires
            self.wf(),
            tid < self.threads(),
            id < self.available().len(),
        ensures
            n == self.need()[tid as int][id as int],
    {
        assert(rows(self.need@)[tid as int] == self.need@[tid as int]@);
        self.need[tid][id]
    }

    /// The primitive in slot `id`.
    pub fn get(&self, id: usize) -> (item: &T)
        requires
            id < self.slots().len(),
            self.slots()[id as int] is Some,
        ensures
            self.slots()[id as int] == Some(*item),
    {
        self.list[id].as_ref().unwrap()
    }

    /// Stores `item` in the lowest free slot, or in a new slot at the end when
    /// none is free, with `count` units free and none held or waited for.
    pub fn create(&mut self, item: T, count: usize) -> (id: usize)
        requires
            old(self).wf(),
            old(self).slots().len() < usize::MAX,
        ensures
            final(self).wf(),
            id <= old(self).slots().len(),
            forall|k: int| 0 <= k < id ==> old(self).slots()[k] is Some,
            id < old(self).slots().len() ==> old(self).slots()[id as int] is None,
            final(self).slots() == put(old(self).slots(), id as int, Some(item)),
            final(self).available() == put(old(self).available(), id as int, count),
            final(self).allocation().len() == old(self).allocation().len(),
            final(self).need().len() == old(self).need().len(),
            forall|i: int|
                0 <= i < old(self).threads() ==> (#[trigger] final(self).allocation()[i]) == put(
                    old(self).allocation()[i],
                    id as int,
                    0,
                ),
            forall|i: int|
                0 <= i < old(self).threads() ==> (#[trigger] final(self).need()[i]) == put(
                    old(self).need()[i],
                    id as int,
                    0,
                ),
    {
        let ghost old_alloc = rows(self.allocation@);
        let ghost old_need = rows(self.need@);
        let ghost old_avail = self.available@;
        let ghost old_list = self.list@;
        let len = self.list.len();
        let mut id: usize = 0;
        while id < len
            invariant
                id <= len,
                len == self.list@.len(),
                forall|k: int| 0 <= k < id ==> self.list@[k] is Some,
            ensures
                id <= len,
                forall|k: int| 0 <= k < id ==> self.list@[k] is Some,
                id < len ==> self.list@[id as int] is None,
            decreases len - id,
        {
            if self.list[id].is_none() {
                break;
            }
            id = id + 1;
        }
        let ghost m = old_avail.len();
        let n = self.need.len();
        if id < len {
            self.list.set(id, Some(item));
            self.available.set(id, count);
        } else {
            self.list.push(Some(item));
            self.available.push(count);
        }
        let mut i: usize = 0;
        while i < n
            invariant
                n == self.need@.len(),
                n == self.allocation@.len(),
                n == old_need.len(),
                n == old_alloc.len(),
                i <= n,
                id <= m,
                m == len,
                m == old_avail.len(),
                len < usize::MAX,
                well_shaped(old_avail, old_alloc, old_need),
                self.available@ == put(old_avail, id as int, count),
                self.list@ == put(old_list, id as int, Some(item)),
                forall|k: int| 0 <= k < i ==> self.allocation@[k]@ == put(old_alloc[k], id as int, 0),
                forall|k: int| 0 <= k < i ==> self.need@[k]@ == put(old_need[k], id as int, 0),
                forall|k: int| i <= k < n ==> self.allocation@[k]@ == old_alloc[k],
                forall|k: int| i <= k < n ==> self.need@[k]@ == old_need[k],
            decreases n - i,
        {
            assert(self.allocation@[i as int]@ == old_alloc[i as int]);
            assert(old_alloc[i as int].len() == m);
            assert(old_need[i as int].len() == m);
            if id < len {
                self.allocation[i].set(id, 0);
                self.need[i].set(id, 0);
            } else {
                self.allocation[i].push(0);
                self.need[i].push(0);
            }
            i = i + 1;
        }
        proof {
            let na = rows(self.allocation@);
            let nn = rows(self.need@);
            assert forall|k: int| 0 <= k < n implies #[trigger] na[k] == put(old_alloc[k], id as int, 0) by {
                assert(na[k] == self.allocation@[k]@);
            }
            assert forall|k: int| 0 <= k < n implies #[trigger] nn[k] == put(old_need[k], id as int, 0) by {
                assert(nn[k] == self.need@[k]@);
            }
            let nav = self.available@;
            assert(nav == put(old_avail, id as int, count));
            assert forall|k: int| 0 <= k < na.len() implies (#[trigger] na[k]).len() == nav.len() by {}
            assert forall|k: int| 0 <= k < nn.len() implies (#[trigger] nn[k]).len() == nav.len() by {}
            assert forall|c: int| 0 <= c < nav.len() implies #[trigger] work_after(
                nav,
                na,
                all_threads(na.len()),
                c,
            ) <= usize::MAX by {
                if c == id {
                    lemma_held_by_zero_column(na, all_threads(na.len()), c, n as int);
                } else {
                    assert(work_after(old_avail, old_alloc, all_threads(old_alloc.len()), c) <= usize::MAX);
                    lemma_held_by_congruent(na, all_threads(na.len()), old_alloc, all_threads(old_alloc.len()), c, n as int);
                }
            }
        }
        id
    }

    /// Records that thread `tid` now waits for one more unit of primitive `id`.
    /// When `detect` is set, then runs the safety check on the resulting tables
    /// and returns whether they are unsafe; otherwise returns `false`.
    pub fn request(&mut self, tid: usize, id: usize, detect: bool) -> (deadlock: bool)
        requires
            old(self).wf(),
            tid < old(self).threads(),
            id < old(self).slots().len(),
            old(self).need()[tid as int][id as int] < usize::MAX,
        ensures
            final(self).wf(),
            final(self).slots() == old(self).slots(),
            final(self).available() == old(self).available(),
            final(self).allocation() == old(self).allocation(),
            final(self).need() == bump(old(self).need(), tid as int, id as int, 1),
            deadlock == (detect && final(self).unsafe_state()),
    {
        let v = self.need[tid][id] + 1;
        set_cell(&mut self.need, tid, id, v);
        if detect {
            detect_deadlock(&self.available, &self.allocation, &self.need)
        } else {
            false
        }
    }

    /// Records that thread `tid` obtained the unit of primitive `id` it waited for.
    pub fn acquired(&mut self, tid: usize, id: usize)
        requires
            old(self).wf(),
            tid < old(self).threads(),
            id < old(self).slots().len(),
            old(self).available()[id as int] >= 1,
            old(self).need()[tid as int][id as int] >= 1,
        ensures
            final(self).wf(),
            forall|j: int| 0 <= j < old(self).slots().len() ==> #[trigger] final(self).total_units(j) == old(self).total_units(j),
            final(self).slots() == old(self).slots(),
            final(self).available() == bump_at(old(self).available(), id as int, -1),
            final(self).need() == bump(old(self).need(), tid as int, id as int, -1),
            final(self).allocation() == bump(old(self).allocation(), tid as int, id as int, 1),
    {
        let ghost old_need = rows(self.need@);
        let ghost old_alloc = rows(self.allocation@);
        let ghost old_avail = self.available@;
        let n = self.need.len();
        assert(self.need@[tid as int]@ == old_need[tid as int]);
        assert(self.allocation@[tid as int]@ == old_alloc[tid as int]);
        proof {
            assert(old_alloc[tid as int].len() == old_avail.len());
            lemma_held_by_ge_entry(old_alloc, all_threads(n as nat), id as int, tid as int, n as int);
            assert(work_after(old_avail, old_alloc, all_threads(old_alloc.len()), id as int) <= usize::MAX);
        }
        let a = self.available[id] - 1;
        self.available.set(id, a);
        let w = self.need[tid][id] - 1;
        set_cell(&mut self.need, tid, id, w);
        let h = self.allocation[tid][id] + 1;
        set_cell(&mut self.allocation, tid, id, h);
        proof {
            let na = rows(self.allocation@);
            assert forall|c: int| 0 <= c < self.available@.len() implies #[trigger] work_after(
                self.available@,
                na,
                all_threads(na.len()),
                c,
            ) == work_after(old_avail, old_alloc, all_threads(old_alloc.len()), c) by {
                lemma_held_by_cell(old_alloc, tid as int, id as int, h, all_threads(n as nat), c, n as int);
            }
            assert forall|c: int| 0 <= c < self.available@.len() implies #[trigger] work_after(
                self.available@,
                na,
                all_threads(na.len()),
                c,
            ) <= usize::MAX by {
                assert(work_after(old_avail, old_alloc, all_threads(old_alloc.len()), c) <= usize::MAX);
            }
        }
    }

    /// Records that thread `tid` gave back one unit of primitive `id`.
    pub fn release(&mut self, tid: usize, id: usize)
        requires
            old(self).wf(),
            tid < old(self).threads(),
            id < old(self).slots().len(),
            old(self).allocation()[tid as int][id as int] >= 1,
        ensures
            final(self).wf(),
            forall|j: int| 0 <= j < old(self).slots().len() ==> #[trigger] final(self).total_units(j) == old(self).total_units(j),
            final(self).slots() == old(self).slots(),
            final(self).need() == old(self).need(),
            final(self).available() == bump_at(old(self).available(), id as int, 1),
            final(self).allocation() == bump(old(self).allocation(), tid as int, id as int, -1),
    {
        let ghost old_alloc = rows(self.allocation@);
        let ghost old_avail = self.available@;
        let n = self.need.len();
        assert(self.allocation@[tid as int]@ == old_alloc[tid as int]);
        proof {
            assert(old_alloc[tid as int].len() == old_avail.len());
            lemma_held_by_ge_entry(old_alloc, all_threads(n as nat), id as int, tid as int, n as int);
            assert(work_after(old_avail, old_alloc, all_threads(old_alloc.len()), id as int) <= usize::MAX);
        }
        let a = self.available[id] + 1;
        self.available.set(id, a);
        let h = self.allocation[tid][id] - 1;
        set_cell(&mut self.allocation, tid, id, h);
        proof {
            let na = rows(self.allocation@);
            assert forall|c: int| 0 <= c < self.available@.len() implies #[trigger] work_after(
                self.available@,
                na,
                all_threads(na.len()),
                c,
            ) == work_after(old_avail, old_alloc, all_threads(old_alloc.len()), c) by {
                lemma_held_by_cell(old_alloc, tid as int, id as int, h, all_threads(n as nat), c, n as int);
            }
            assert forall|c: int| 0 <= c < self.available@.len() implies #[trigger] work_after(
                self.available@,
                na,
                all_threads(na.len()),
                c,
            ) <= usize::MAX by {
                assert(work_after(old_avail, old_alloc, all_threads(old_alloc.len()), c) <= usize::MAX);
            }
        }
    }
}

} // verus!
