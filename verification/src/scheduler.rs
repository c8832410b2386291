//! The ready queue of the scheduler: first-in first-out, or stride scheduling,
//! where the ready task with the smallest stride runs next.
use vstd::prelude::*;

verus! {

/// A task waiting to run, with the stride it had when it became ready.
/// A task's stride only changes when the scheduler picks it, so it is the
/// same while the task waits here.
pub struct ReadyTask<T> {
    pub task: T,
    pub stride: usize,
}

/// Whether `i` is the index stride scheduling picks from `q`: the first
/// task whose stride is the smallest, which must be below `usize::MAX`.
pub open spec fn is_stride_pick<T>(q: Seq<ReadyTask<T>>, i: int) -> bool {
    &&& 0 <= i < q.len()
    &&& q[i].stride < usize::MAX
    &&& forall|k: int| 0 <= k < i ==> q[k].stride > q[i].stride
    &&& forall|k: int| 0 <= k < q.len() ==> q[k].stride >= q[i].stride
}

/// No two ready strides differ by more than `bound`.
pub open spec fn strides_within<T>(q: Seq<ReadyTask<T>>, bound: int) -> bool {
    forall|a: int, b: int| 0 <= a < q.len() && 0 <= b < q.len() ==> q[a].stride - q[b].stride <= bound
}

/// Stride scheduling keeps the strides close: when they differ by at most
/// `bound`, and the picked task comes back with its stride advanced by a pass
/// of at most `bound` (without overflowing), they still differ by at most `bound`.
pub proof fn lemma_stride_spread_stays_bounded<T>(q: Seq<ReadyTask<T>>, i: int, pass: int, bound: int)
    requires
        is_stride_pick(q, i),
        strides_within(q, bound),
        0 <= pass <= bound,
        q[i].stride + pass <= usize::MAX,
    ensures
        strides_within(
            q.remove(i).push(ReadyTask { task: q[i].task, stride: (q[i].stride + pass) as usize }),
            bound,
        ),
{
    let r = q.remove(i).push(ReadyTask { task: q[i].task, stride: (q[i].stride + pass) as usize });
    assert forall|a: int, b: int| 0 <= a < r.len() && 0 <= b < r.len() implies r[a].stride - r[b].stride
        <= bound by {
        // Every stride in `r` is at least the picked one and at most the picked one plus `bound`.
        assert forall|c: int| 0 <= c < r.len() implies q[i].stride <= #[trigger] r[c].stride <= q[i].stride
            + bound by {
            if c < q.len() - 1 {
                let k = if c < i { c } else { c + 1 };
                assert(r[c] == q[k]);
            }
        }
        assert(q[i].stride <= r[a].stride <= q[i].stride + bound);
        assert(q[i].stride <= r[b].stride <= q[i].stride + bound);
    }
}

/// The ready queue.
pub struct TaskManager<T> {
    ready_queue: std::collections::VecDeque<ReadyTask<T>>,
}

impl<T> TaskManager<T> {
    /// The ready tasks, oldest first.
    pub closed spec fn queue(&self) -> Seq<ReadyTask<T>> {
        self.ready_queue@
    }

    /// An empty ready queue.
    pub fn new() -> (tm: Self)
        ensures
            tm.queue() == Seq::<ReadyTask<T>>::empty(),
    {
        TaskManager { ready_queue: std::collections::VecDeque::new() }
    }

    /// Puts `task`, whose stride is `stride`, at the back of the queue.
    pub fn add(&mut self, task: T, stride: usize)
        ensures
            final(self).queue() == old(self).queue().push(ReadyTask { task, stride }),
    {
        self.ready_queue.push_back(ReadyTask { task, stride });
    }

    /// Takes the oldest ready task out of the queue.
    pub fn fetch(&mut self) -> (t: Option<T>)
        ensures
            old(self).queue().len() == 0 ==> t is None && final(self).queue() == old(self).queue(),
            old(self).queue().len() > 0 ==> t == Some(old(self).queue()[0].task) && final(self).queue()
                == old(self).queue().subrange(1, old(self).queue().len() as int),
    {
        match self.ready_queue.pop_front() {
            Some(r) => Some(r.task),
            None => None,
        }
    }

    /// Takes out the ready task with the smallest stride (the first such one),
    /// with that stride; `None`, leaving the queue as it is, when no task has
    /// a stride below `usize::MAX`. The caller then advances the task's stride.
    pub fn fetch_with_stride(&mut self) -> (t: Option<ReadyTask<T>>)
        ensures
            t is None <==> forall|k: int| 0 <= k < old(self).queue().len() ==> old(self).queue()[k].stride == usize::MAX,
            t is None ==> final(self).queue() == old(self).queue(),
            t is Some ==> exists|i: int|
                #[trigger] is_stride_pick(old(self).queue(), i) && t == Some(old(self).queue()[i])
                    && final(self).queue() == old(self).queue().remove(i),
    {
        let ghost q = self.ready_queue@;
        let mut min_stride: usize = usize::MAX;
        let mut min_index: Option<usize> = None;
        let len = self.ready_queue.len();
        let mut i: usize = 0;
        while i < len
            invariant
                len == q.len(),
                q == self.ready_queue@,
                i <= len,
                min_index is None ==> min_stride == usize::MAX && forall|k: int| 0 <= k < i ==> q[k].stride == usize::MAX,
                min_index matches Some(m) ==> {
                    &&& m < i
                    &&& q[m as int].stride == min_stride
                    &&& min_stride < usize::MAX
                    &&& forall|k: int| 0 <= k < m ==> q[k].stride > min_stride
                    &&& forall|k: int| 0 <= k < i ==> q[k].stride >= min_stride
                },
            decreases len - i,
        {
            let stride = self.ready_queue[i].stride;
            if stride < min_stride {
                min_stride = stride;
                min_index = Some(i);
            }
            i = i + 1;
        }
        match min_index {
            Some(m) => {
                let r = self.ready_queue.remove(m);
                proof {
                    assert(is_stride_pick(q, m as int));
                    assert(r == Some(q[m as int]));
                    assert(!(forall|k: int| 0 <= k < q.len() ==> q[k].stride == usize::MAX)) by {
                        assert(q[m as int].stride < usize::MAX);
                    }
                    assert(self.ready_queue@ == q.remove(m as int));
                    assert(q == old(self).queue());
                    assert(self.queue() == q.remove(m as int));
                }
                r
            },
            None => None,
        }
    }
}

} // verus!
