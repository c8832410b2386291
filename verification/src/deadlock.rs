//! Deadlock detection for the resources a process shares between its threads.
//!
//! The state is the classic banker's triple: how many units of each resource
//! are still available, how many each thread holds, and how many each thread
//! still waits for. The detector repeatedly lets any thread whose outstanding
//! need can be met "finish" and give back what it holds; the state is unsafe
//! exactly when some threads can never be let through.
use vstd::prelude::*;

verus! {

/// The contents of a table of rows.
pub open spec fn rows(t: Seq<Vec<usize>>) -> Seq<Seq<usize>> {
    Seq::new(t.len(), |i: int| t[i]@)
}

/// Units of resource `j` held by the threads `k < upto` that `mask` selects.
pub open spec fn held_by(alloc: Seq<Seq<usize>>, mask: Seq<bool>, j: int, upto: int) -> int
    decreases upto,
{
    if upto <= 0 {
        0
    } else {
        held_by(alloc, mask, j, upto - 1) + (if mask[upto - 1] {
            alloc[upto - 1][j] as int
        } else {
            0int
        })
    }
}

/// Units of resource `j` there are once every thread that `mask` selects has
/// finished and given back what it holds.
pub open spec fn work_after(avail: Seq<usize>, alloc: Seq<Seq<usize>>, mask: Seq<bool>, j: int) -> int {
    avail[j] + held_by(alloc, mask, j, alloc.len() as int)
}

/// Whether every outstanding request in `need_row` can be granted once the
/// threads that `mask` selects have finished.
pub open spec fn fits(
    need_row: Seq<usize>,
    avail: Seq<usize>,
    alloc: Seq<Seq<usize>>,
    mask: Seq<bool>,
) -> bool {
    forall|j: int| 0 <= j < need_row.len() ==> need_row[j] <= #[trigger] work_after(avail, alloc, mask, j)
}

/// The mask that selects every one of `n` threads.
pub open spec fn all_threads(n: nat) -> Seq<bool> {
    Seq::new(n, |i: int| true)
}

/// The three tables have one row per thread and one column per resource.
pub open spec fn well_shaped(avail: Seq<usize>, alloc: Seq<Seq<usize>>, need: Seq<Seq<usize>>) -> bool {
    &&& alloc.len() == need.len()
    &&& forall|i: int| 0 <= i < alloc.len() ==> (#[trigger] alloc[i]).len() == avail.len()
    &&& forall|i: int| 0 <= i < need.len() ==> (#[trigger] need[i]).len() == avail.len()
}

/// What is available plus everything held fits in a machine word, per resource.
pub open spec fn totals_fit(avail: Seq<usize>, alloc: Seq<Seq<usize>>) -> bool {
    forall|j: int|
        0 <= j < avail.len() ==> #[trigger] work_after(avail, alloc, all_threads(alloc.len()), j)
            <= usize::MAX
}

/// `s` selects a set of threads that does not hold every thread, and no thread
/// outside it can have its need met even after every thread in it finished:
/// the threads outside `s` wait for one another forever.
pub open spec fn is_stuck_set(
    avail: Seq<usize>,
    alloc: Seq<Seq<usize>>,
    need: Seq<Seq<usize>>,
    s: Seq<bool>,
) -> bool {
    &&& s.len() == need.len()
    &&& exists|i: int| 0 <= i < s.len() && !s[i]
    &&& forall|i: int| 0 <= i < s.len() && !s[i] ==> !fits(need[i], avail, alloc, s)
}

/// The state is unsafe: some set of threads can never all obtain what they wait for.
pub open spec fn deadlock_possible(avail: Seq<usize>, alloc: Seq<Seq<usize>>, need: Seq<Seq<usize>>) -> bool {
    exists|s: Seq<bool>| #[trigger] is_stuck_set(avail, alloc, need, s)
}

/// Every thread that `a` selects is selected by `b`.
pub open spec fn mask_le(a: Seq<bool>, b: Seq<bool>) -> bool {
    &&& a.len() == b.len()
    &&& forall|i: int| 0 <= i < a.len() && #[trigger] a[i] ==> b[i]
}

/// Number of selected threads among the first `upto`.
pub open spec fn count_true(s: Seq<bool>, upto: int) -> int
    decreases upto,
{
    if upto <= 0 {
        0
    } else {
        count_true(s, upto - 1) + (if s[upto - 1] {
            1int
        } else {
            0int
        })
    }
}

proof fn lemma_count_true_bounds(s: Seq<bool>, upto: int)
    requires
        0 <= upto,
    ensures
        0 <= count_true(s, upto) <= upto,
    decreases upto,
{
    if upto > 0 {
        lemma_count_true_bounds(s, upto - 1);
    }
}

proof fn lemma_count_true_set(s: Seq<bool>, i: int, upto: int)
    requires
        0 <= i < s.len(),
        !s[i],
        0 <= upto <= s.len(),
    ensures
        count_true(s.update(i, true), upto) == count_true(s, upto) + (if i < upto {
            1int
        } else {
            0int
        }),
    decreases upto,
{
    if upto > 0 {
        lemma_count_true_set(s, i, upto - 1);
    }
}

proof fn lemma_held_by_set(alloc: Seq<Seq<usize>>, s: Seq<bool>, i: int, j: int, upto: int)
    requires
        0 <= i < s.len(),
        !s[i],
        0 <= upto <= s.len(),
    ensures
        held_by(alloc, s.update(i, true), j, upto) == held_by(alloc, s, j, upto) + (if i < upto {
            alloc[i][j] as int
        } else {
            0int
        }),
    decreases upto,
{
    if upto > 0 {
        lemma_held_by_set(alloc, s, i, j, upto - 1);
    }
}

proof fn lemma_held_by_mono(alloc: Seq<Seq<usize>>, a: Seq<bool>, b: Seq<bool>, j: int, upto: int)
    requires
        mask_le(a, b),
        0 <= upto <= a.len(),
    ensures
        held_by(alloc, a, j, upto) <= held_by(alloc, b, j, upto),
    decreases upto,
{
    if upto > 0 {
        lemma_held_by_mono(alloc, a, b, j, upto - 1);
    }
}

pub proof fn lemma_held_by_nonneg(alloc: Seq<Seq<usize>>, a: Seq<bool>, j: int, upto: int)
    ensures
        0 <= held_by(alloc, a, j, upto),
    decreases upto,
{
    if upto > 0 {
        lemma_held_by_nonneg(alloc, a, j, upto - 1);
    }
}

/// Releasing more threads never makes a request harder to grant.
proof fn lemma_fits_mono(
    row: Seq<usize>,
    avail: Seq<usize>,
    alloc: Seq<Seq<usize>>,
    a: Seq<bool>,
    b: Seq<bool>,
)
    requires
        mask_le(a, b),
        a.len() == alloc.len(),
        fits(row, avail, alloc, a),
    ensures
        fits(row, avail, alloc, b),
{
    assert forall|j: int| 0 <= j < row.len() implies row[j] <= #[trigger] work_after(
        avail,
        alloc,
        b,
        j,
    ) by {
        assert(row[j] <= work_after(avail, alloc, a, j));
        lemma_held_by_mono(alloc, a, b, j, alloc.len() as int);
    }
}

/// Whether each entry of `row` is at most the entry of `work` at the same place.
fn row_fits(row: &Vec<usize>, work: &Vec<usize>) -> (ok: bool)
    requires
        row.len() <= work.len(),
    ensures
        ok == (forall|j: int| 0 <= j < row.len() ==> row@[j] <= work@[j]),
{
    let mut j: usize = 0;
    while j < row.len()
        invariant
            j <= row.len(),
            row.len() <= work.len(),
            forall|k: int| 0 <= k < j ==> row@[k] <= work@[k],
        decreases row.len() - j,
    {
        if row[j] > work[j] {
            return false;
        }
        j = j + 1;
    }
    true
}

/// Runs the safety check on the banker's tables: `available[j]` units of
/// resource `j` are free, thread `i` holds `allocation[i][j]` of them and waits
/// for `need[i][j]` more. Returns whether the state is unsafe, that is whether
/// some threads could never be let through.
pub fn detect_deadlock(available: &Vec<usize>, allocation: &Vec<Vec<usize>>, need: &Vec<Vec<usize>>) -> (deadlock: bool)
    requires
        well_shaped(available@, rows(allocation@), rows(need@)),
        totals_fit(available@, rows(allocation@)),
    ensures
        deadlock == deadlock_possible(available@, rows(allocation@), rows(need@)),
{
    let ghost avail = available@;
    let ghost alloc = rows(allocation@);
    let ghost needs = rows(need@);
    let thread_num = need.len();
    let res_num = available.len();
    let ghost n = thread_num as int;
    assert(alloc.len() == n);

    let mut work: Vec<usize> = Vec::new();
    let mut j: usize = 0;
    while j < res_num
        invariant
            j <= res_num,
            res_num == available.len(),
            work.len() == j,
            forall|k: int| 0 <= k < j ==> work@[k] == available@[k],
        decreases res_num - j,
    {
        work.push(available[j]);
        j = j + 1;
    }
    let mut finish: Vec<bool> = Vec::new();
    let mut i: usize = 0;
    while i < thread_num
        invariant
            i <= thread_num,
            finish.len() == i,
            forall|k: int| 0 <= k < i ==> !finish@[k],
        decreases thread_num - i,
    {
        finish.push(false);
        i = i + 1;
    }
    proof {
        assert forall|k: int| 0 <= k < res_num implies work@[k] == work_after(avail, alloc, finish@, k) by {
            lemma_held_by_zero(alloc, finish@, k, n);
        }
        lemma_count_zero(finish@, n);
    }

    let mut found = true;
    while found
        invariant
            thread_num == need.len(),
            res_num == available.len(),
            avail == available@,
            alloc == rows(allocation@),
            needs == rows(need@),
            n == thread_num,
            alloc.len() == n,
            well_shaped(avail, alloc, needs),
            totals_fit(avail, alloc),
            work.len() == res_num,
            finish.len() == thread_num,
            forall|k: int| 0 <= k < res_num ==> work@[k] == work_after(avail, alloc, finish@, k),
            forall|s: Seq<bool>|
                #[trigger] is_stuck_set(avail, alloc, needs, s) ==> mask_le(finish@, s),
            !found ==> forall|k: int|
                0 <= k < n && !finish@[k] ==> !fits(needs[k], avail, alloc, finish@),
            0 <= count_true(finish@, n) <= n,
        decreases n - count_true(finish@, n) + (if found {
            1int
        } else {
            0int
        }),
    {
        let ghost finish0 = finish@;
        found = false;
        let mut i: usize = 0;
        while i < thread_num
            invariant
                thread_num == need.len(),
                res_num == available.len(),
                avail == available@,
                alloc == rows(allocation@),
                needs == rows(need@),
                n == thread_num,
                alloc.len() == n,
                i <= thread_num,
                well_shaped(avail, alloc, needs),
                totals_fit(avail, alloc),
                work.len() == res_num,
                finish.len() == thread_num,
                finish0.len() == thread_num,
                forall|k: int| 0 <= k < res_num ==> work@[k] == work_after(avail, alloc, finish@, k),
                forall|s: Seq<bool>|
                    #[trigger] is_stuck_set(avail, alloc, needs, s) ==> mask_le(finish@, s),
                found ==> count_true(finish@, n) > count_true(finish0, n),
                !found ==> finish@ == finish0,
                !found ==> forall|k: int|
                    0 <= k < i && !finish@[k] ==> !fits(needs[k], avail, alloc, finish@),
                0 <= count_true(finish@, n) <= n,
                0 <= count_true(finish0, n),
            decreases thread_num - i,
        {
            assert(needs[i as int] == need@[i as int]@);
            if !finish[i] && row_fits(&need[i], &work) {
                let ghost before = finish@;
                assert(fits(needs[i as int], avail, alloc, before)) by {
                    assert forall|k: int| 0 <= k < needs[i as int].len() implies needs[i as int][k]
                        <= #[trigger] work_after(avail, alloc, before, k) by {
                        assert(work@[k] == work_after(avail, alloc, before, k));
                    }
                }
                found = true;
                assert(allocation@[i as int]@ == alloc[i as int]);
                let mut j: usize = 0;
                while j < res_num
                    invariant
                        res_num == available.len(),
                        avail == available@,
                        alloc == rows(allocation@),
                        alloc.len() == n,
                        n == thread_num,
                        i < thread_num,
                        j <= res_num,
                        work.len() == res_num,
                        before.len() == n,
                        !before[i as int],
                        well_shaped(avail, alloc, needs),
                        totals_fit(avail, alloc),
                        allocation@[i as int]@ == alloc[i as int],
                        forall|k: int| 0 <= k < j ==> work@[k] == work_after(avail, alloc, before.update(i as int, true), k),
                        forall|k: int| j <= k < res_num ==> work@[k] == work_after(avail, alloc, before, k),
                    decreases res_num - j,
                {
                    proof {
                        lemma_held_by_set(alloc, before, i as int, j as int, n);
                        let after = before.update(i as int, true);
                        assert(mask_le(after, all_threads(n as nat)));
                        lemma_held_by_mono(alloc, after, all_threads(n as nat), j as int, n);
                        assert(work_after(avail, alloc, all_threads(alloc.len()), j as int) <= usize::MAX);
                        assert(alloc[i as int].len() == res_num);
                    }
                    work.set(j, work[j] + allocation[i][j]);
                    j = j + 1;
                }
                finish.set(i, true);
                proof {
                    let after = finish@;
                    assert(after == before.update(i as int, true));
                    lemma_count_true_set(before, i as int, n);
                    lemma_count_true_bounds(after, n);
                    assert forall|s: Seq<bool>| #[trigger] is_stuck_set(avail, alloc, needs, s) implies mask_le(after, s) by {
                        assert(mask_le(before, s));
                        lemma_fits_mono(needs[i as int], avail, alloc, before, s);
                        if !s[i as int] {
                            assert(!fits(needs[i as int], avail, alloc, s));
                        }
                        assert forall|k: int| 0 <= k < after.len() && #[trigger] after[k] implies s[k] by {
                            if k != i {
                                assert(before[k]);
                            }
                        }
                    }
                }
            }
            i = i + 1;
        }
    }
    // No thread was let through in the last pass: the state is unsafe
    // exactly when some thread is still unfinished.
    let mut k: usize = 0;
    while k < thread_num
        invariant
            k <= thread_num,
            finish.len() == thread_num,
            n == thread_num,
            needs.len() == n,
            avail == available@,
            alloc == rows(allocation@),
            needs == rows(need@),
            forall|q: int| 0 <= q < k ==> finish@[q],
            forall|q: int| 0 <= q < n && !finish@[q] ==> !fits(needs[q], avail, alloc, finish@),
            forall|s: Seq<bool>|
                #[trigger] is_stuck_set(avail, alloc, needs, s) ==> mask_le(finish@, s),
        decreases thread_num - k,
    {
        if !finish[k] {
            proof {
                assert(is_stuck_set(avail, alloc, needs, finish@));
            }
            return true;
        }
        k = k + 1;
    }
    proof {
        if deadlock_possible(avail, alloc, needs) {
            let s = choose|s: Seq<bool>| is_stuck_set(avail, alloc, needs, s);
            assert(mask_le(finish@, s));
            let q = choose|q: int| 0 <= q < s.len() && !s[q];
            assert(finish@[q]);
        }
    }
    false
}

proof fn lemma_held_by_zero(alloc: Seq<Seq<usize>>, s: Seq<bool>, j: int, upto: int)
    requires
        0 <= upto <= s.len(),
        forall|k: int| 0 <= k < s.len() ==> !s[k],
    ensures
        held_by(alloc, s, j, upto) == 0,
    decreases upto,
{
    if upto > 0 {
        lemma_held_by_zero(alloc, s, j, upto - 1);
    }
}

proof fn lemma_count_zero(s: Seq<bool>, upto: int)
    requires
        0 <= upto <= s.len(),
        forall|k: int| 0 <= k < s.len() ==> !s[k],
    ensures
        count_true(s, upto) == 0,
    decreases upto,
{
    if upto > 0 {
        lemma_count_zero(s, upto - 1);
    }
}

/// `held_by` only reads the selected entries of column `j` below `upto`.
pub proof fn lemma_held_by_congruent(
    a: Seq<Seq<usize>>,
    ma: Seq<bool>,
    b: Seq<Seq<usize>>,
    mb: Seq<bool>,
    j: int,
    upto: int,
)
    requires
        forall|k: int| 0 <= k < upto ==> ma[k] == mb[k],
        forall|k: int| 0 <= k < upto && ma[k] ==> a[k][j] == b[k][j],
    ensures
        held_by(a, ma, j, upto) == held_by(b, mb, j, upto),
    decreases upto,
{
    if upto > 0 {
        lemma_held_by_congruent(a, ma, b, mb, j, upto - 1);
    }
}

/// A column whose selected entries are all zero sums to zero.
pub proof fn lemma_held_by_zero_column(a: Seq<Seq<usize>>, m: Seq<bool>, j: int, upto: int)
    requires
        forall|k: int| 0 <= k < upto && m[k] ==> a[k][j] == 0,
    ensures
        held_by(a, m, j, upto) == 0,
    decreases upto,
{
    if upto > 0 {
        lemma_held_by_zero_column(a, m, j, upto - 1);
    }
}

/// Changing one entry changes its column's sum by the difference.
pub proof fn lemma_held_by_cell(
    a: Seq<Seq<usize>>,
    t: int,
    c: int,
    v: usize,
    m: Seq<bool>,
    j: int,
    upto: int,
)
    requires
        0 <= t < a.len(),
        0 <= c < a[t].len(),
        0 <= j < a[t].len(),
        0 <= upto <= a.len(),
    ensures
        held_by(a.update(t, a[t].update(c, v)), m, j, upto) == held_by(a, m, j, upto) + (if j == c
            && t < upto && m[t] {
            v - a[t][c]
        } else {
            0int
        }),
    decreases upto,
{
    if upto > 0 {
        lemma_held_by_cell(a, t, c, v, m, j, upto - 1);
        let b = a.update(t, a[t].update(c, v));
        if upto - 1 == t {
            assert(b[t] == a[t].update(c, v));
        } else {
            assert(b[upto - 1] == a[upto - 1]);
        }
    }
}

/// A column sum is at least each selected entry.
pub proof fn lemma_held_by_ge_entry(a: Seq<Seq<usize>>, m: Seq<bool>, j: int, t: int, upto: int)
    requires
        0 <= t < upto,
        m[t],
    ensures
        held_by(a, m, j, upto) >= a[t][j],
    decreases upto,
{
    lemma_held_by_nonneg(a, m, j, upto - 1);
    if t < upto - 1 {
        lemma_held_by_ge_entry(a, m, j, t, upto - 1);
    }
}

/// A state in which no thread waits for anything is never unsafe.
pub proof fn lemma_no_waiting_no_deadlock(avail: Seq<usize>, alloc: Seq<Seq<usize>>, need: Seq<Seq<usize>>)
    requires
        forall|i: int, j: int| 0 <= i < need.len() && 0 <= j < need[i].len() ==> need[i][j] == 0,
    ensures
        !deadlock_possible(avail, alloc, need),
{
    if deadlock_possible(avail, alloc, need) {
        let s = choose|s: Seq<bool>| is_stuck_set(avail, alloc, need, s);
        let i = choose|i: int| 0 <= i < s.len() && !s[i];
        assert forall|j: int| 0 <= j < need[i].len() implies need[i][j] <= #[trigger] work_after(
            avail,
            alloc,
            s,
            j,
        ) by {
            lemma_held_by_nonneg(alloc, s, j, alloc.len() as int);
        }
        assert(fits(need[i], avail, alloc, s));
    }
}

/// The mask selecting the threads listed in `order`, out of `n`.
pub open spec fn mask_of(order: Seq<int>, n: nat) -> Seq<bool> {
    Seq::new(n, |i: int| order.contains(i))
}

/// `order` lists every thread once, and each thread's need can be met once the
/// threads listed before it have finished: a safe sequence.
pub open spec fn is_safe_sequence(
    avail: Seq<usize>,
    alloc: Seq<Seq<usize>>,
    need: Seq<Seq<usize>>,
    order: Seq<int>,
) -> bool {
    &&& order.no_duplicates()
    &&& forall|k: int| 0 <= k < order.len() ==> 0 <= #[trigger] order[k] < need.len()
    &&& forall|i: int| 0 <= i < need.len() ==> #[trigger] order.contains(i)
    &&& forall|k: int|
        0 <= k < order.len() ==> fits(
            need[#[trigger] order[k]],
            avail,
            alloc,
            mask_of(order.take(k), need.len()),
        )
}

/// The state is safe exactly when the threads can be put in a safe sequence:
/// the detector reports a deadlock exactly when no such order exists.
pub proof fn lemma_safe_iff_safe_sequence(avail: Seq<usize>, alloc: Seq<Seq<usize>>, need: Seq<Seq<usize>>)
    requires
        alloc.len() == need.len(),
    ensures
        !deadlock_possible(avail, alloc, need) <==> exists|order: Seq<int>|
            #[trigger] is_safe_sequence(avail, alloc, need, order),
{
    if !deadlock_possible(avail, alloc, need) {
        let order = lemma_build_safe_sequence(avail, alloc, need, Seq::empty());
        assert(is_safe_sequence(avail, alloc, need, order));
    }
    if exists|order: Seq<int>| #[trigger] is_safe_sequence(avail, alloc, need, order) {
        let order = choose|order: Seq<int>| #[trigger] is_safe_sequence(avail, alloc, need, order);
        if deadlock_possible(avail, alloc, need) {
            let s = choose|s: Seq<bool>| #[trigger] is_stuck_set(avail, alloc, need, s);
            lemma_safe_sequence_inside_stuck_set(avail, alloc, need, order, s, order.len() as int);
            let i0 = choose|i: int| 0 <= i < s.len() && !s[i];
            assert(order.contains(i0));
            let k = choose|k: int| 0 <= k < order.len() && order[k] == i0;
            assert(s[order[k]]);
        }
    }
}

/// Every thread of a safe sequence, up to `upto`, belongs to any stuck set.
proof fn lemma_safe_sequence_inside_stuck_set(
    avail: Seq<usize>,
    alloc: Seq<Seq<usize>>,
    need: Seq<Seq<usize>>,
    order: Seq<int>,
    s: Seq<bool>,
    upto: int,
)
    requires
        alloc.len() == need.len(),
        is_safe_sequence(avail, alloc, need, order),
        is_stuck_set(avail, alloc, need, s),
        0 <= upto <= order.len(),
    ensures
        forall|k: int| 0 <= k < upto ==> s[#[trigger] order[k]],
    decreases upto,
{
    if upto > 0 {
        let k = upto - 1;
        lemma_safe_sequence_inside_stuck_set(avail, alloc, need, order, s, k);
        let n = need.len();
        let before = mask_of(order.take(k), n);
        assert(mask_le(before, s)) by {
            assert forall|i: int| 0 <= i < before.len() && #[trigger] before[i] implies s[i] by {
                assert(order.take(k).contains(i));
                let j = choose|j: int| 0 <= j < order.take(k).len() && order.take(k)[j] == i;
                assert(order[j] == i);
            }
        }
        assert(fits(need[order[k]], avail, alloc, before));
        lemma_fits_mono(need[order[k]], avail, alloc, before, s);
    }
}

/// Extends a safe prefix `order` to a whole safe sequence, which exists when
/// the state is safe.
proof fn lemma_build_safe_sequence(
    avail: Seq<usize>,
    alloc: Seq<Seq<usize>>,
    need: Seq<Seq<usize>>,
    order: Seq<int>,
) -> (full: Seq<int>)
    requires
        alloc.len() == need.len(),
        !deadlock_possible(avail, alloc, need),
        order.no_duplicates(),
        forall|k: int| 0 <= k < order.len() ==> 0 <= #[trigger] order[k] < need.len(),
        forall|k: int|
            0 <= k < order.len() ==> fits(
                need[#[trigger] order[k]],
                avail,
                alloc,
                mask_of(order.take(k), need.len()),
            ),
    ensures
        is_safe_sequence(avail, alloc, need, full),
    decreases need.len() - count_true(mask_of(order, need.len()), need.len() as int),
{
    let n = need.len();
    let f = mask_of(order, n);
    lemma_count_true_bounds(f, n as int);
    if forall|i: int| 0 <= i < n ==> #[trigger] order.contains(i) {
        order
    } else {
        let i0 = choose|i: int| 0 <= i < n && !order.contains(i);
        assert(!f[i0]);
        // The listed threads are not a stuck set, so some unlisted thread can go next.
        assert(!is_stuck_set(avail, alloc, need, f));
        let i = choose|i: int| 0 <= i < f.len() && !f[i] && fits(need[i], avail, alloc, f);
        let next = order.push(i);
        assert forall|j: int| #[trigger] next.contains(j) == (order.contains(j) || j == i) by {
            if order.contains(j) {
                let k = choose|k: int| 0 <= k < order.len() && order[k] == j;
                assert(next[k] == j);
            }
            if j == i {
                assert(next[order.len() as int] == i);
            }
            if next.contains(j) {
                let k = choose|k: int| 0 <= k < next.len() && next[k] == j;
                if k < order.len() {
                    assert(order[k] == j);
                }
            }
        }
        assert(mask_of(next, n) =~= f.update(i, true));
        lemma_count_true_set(f, i, n as int);
        lemma_count_true_bounds(mask_of(next, n), n as int);
        assert(count_true(mask_of(next, n), n as int) == count_true(f, n as int) + 1);
        assert forall|k: int| 0 <= k < next.len() implies fits(
            need[#[trigger] next[k]],
            avail,
            alloc,
            mask_of(next.take(k), n),
        ) by {
            if k < order.len() {
                assert(next.take(k) =~= order.take(k));
                assert(next[k] == order[k]);
            } else {
                assert(next.take(k) =~= order);
            }
        }
        assert forall|k: int| 0 <= k < next.len() implies 0 <= #[trigger] next[k] < n by {
            if k < order.len() {
                assert(next[k] == order[k]);
            }
        }
        assert(next.no_duplicates()) by {
            assert forall|a: int, b: int| 0 <= a < b < next.len() implies next[a] != next[b] by {
                if b == order.len() {
                    assert(next[a] == order[a]);
                    assert(order.contains(order[a]));
                } else {
                    assert(next[a] == order[a] && next[b] == order[b]);
                }
            }
        }
        lemma_build_safe_sequence(avail, alloc, need, next)
    }
}

} // verus!
