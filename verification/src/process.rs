//! The decisions of the process system calls: which child `waitpid` reaps,
//! and what the calls return.
use vstd::prelude::*;
use vstd::arithmetic::div_mod::lemma_div_denominator;
use vstd::arithmetic::power::{lemma_pow_positive, pow};

verus! {

/// What `waitpid` needs to know of a child process.
#[derive(PartialEq, Eq, Structural, Clone, Copy, Debug)]
pub struct ChildStatus {
    pub pid: usize,
    pub zombie: bool,
    pub exit_code: i32,
}

/// The outcome of `waitpid`.
#[derive(PartialEq, Eq, Structural, Clone, Copy, Debug)]
pub enum WaitResult {
    /// No child has the pid asked for.
    NoSuchChild,
    /// A child has the pid asked for, but none of them has exited yet.
    StillRunning,
    /// The child at `index` of the children has exited and is to be reaped.
    Exited { index: usize, pid: usize, exit_code: i32 },
}

/// Whether `waitpid(pid, ..)` is about the child with pid `child`: any child for -1.
pub open spec fn pid_matches(pid: isize, child: usize) -> bool {
    pid == -1 || #[verifier::truncate] (pid as usize) == child
}

/// Whether the child at `i` can be reaped by `waitpid(pid, ..)`.
pub open spec fn reapable(children: Seq<ChildStatus>, pid: isize, i: int) -> bool {
    children[i].zombie && pid_matches(pid, children[i].pid)
}

impl WaitResult {
    /// What the system call returns: -1 when no child matches, -2 when the
    /// matching children still run, the pid of the reaped child otherwise.
    pub fn code(&self) -> (ret: isize)
        ensures
            ret == (match *self {
                WaitResult::NoSuchChild => -1isize,
                WaitResult::StillRunning => -2isize,
                WaitResult::Exited { pid, .. } => pid as isize,
            }),
    {
        match self {
            WaitResult::NoSuchChild => -1,
            WaitResult::StillRunning => -2,
            WaitResult::Exited { pid, .. } => *pid as isize,
        }
    }
}

/// Decides what `waitpid(pid, ..)` does with the current children: the first
/// exited child that matches `pid` is to be reaped, with its pid and exit code.
pub fn sys_waitpid(children: &Vec<ChildStatus>, pid: isize) -> (r: WaitResult)
    ensures
        (forall|i: int| 0 <= i < children.len() ==> !pid_matches(pid, #[trigger] children@[i].pid))
            <==> r == WaitResult::NoSuchChild,
        r == WaitResult::StillRunning ==> forall|i: int|
            0 <= i < children.len() ==> !#[trigger] reapable(children@, pid, i),
        r is Exited ==> {
            let index = r->index as int;
            &&& 0 <= index < children.len()
            &&& reapable(children@, pid, index)
            &&& forall|k: int| 0 <= k < index ==> !#[trigger] reapable(children@, pid, k)
            &&& r->pid == children@[index].pid
            &&& r->exit_code == children@[index].exit_code
        },
{
    let mut any = false;
    let mut i: usize = 0;
    while i < children.len()
        invariant
            i <= children.len(),
            any <==> exists|k: int| 0 <= k < i && pid_matches(pid, #[trigger] children@[k].pid),
        decreases children.len() - i,
    {
        if pid == -1 || #[verifier::truncate] (pid as usize) == children[i].pid {
            assert(pid_matches(pid, children@[i as int].pid));
            any = true;
        }
        i = i + 1;
    }
    if !any {
        return WaitResult::NoSuchChild;
    }
    let mut i: usize = 0;
    while i < children.len()
        invariant
            i <= children.len(),
            forall|k: int| 0 <= k < i ==> !#[trigger] reapable(children@, pid, k),
        decreases children.len() - i,
    {
        let c = children[i];
        if c.zombie && (pid == -1 || #[verifier::truncate] (pid as usize) == c.pid) {
            return WaitResult::Exited { index: i, pid: c.pid, exit_code: c.exit_code };
        }
        i = i + 1;
    }
    WaitResult::StillRunning
}

/// `getpid` returns the pid of the calling process.
pub fn sys_getpid(pid: usize) -> (ret: isize)
    ensures
        ret == pid as isize,
{
    pid as isize
}

/// `sbrk` returns the old program break, or -1 when the break could not move.
pub fn sys_sbrk(old_brk: Option<usize>) -> (ret: isize)
    ensures
        ret == (match old_brk {
            Some(b) => b as isize,
            None => -1isize,
        }),
{
    match old_brk {
        Some(b) => b as isize,
        None => -1,
    }
}

/// `spawn` returns the pid of the new process, or -1 when no program has the
/// name asked for.
pub fn sys_spawn(new_pid: Option<usize>) -> (ret: isize)
    ensures
        ret == (match new_pid {
            Some(p) => p as isize,
            None => -1isize,
        }),
{
    match new_pid {
        Some(p) => p as isize,
        None => -1,
    }
}

/// The stride one unit of priority is worth: a task of priority `p` advances
/// its stride by `BIG_STRIDE / p` each time it runs.
pub const BIG_STRIDE: usize = 0x10_0000;

/// `set_priority` accepts a priority of at least 2 and returns it, for the
/// caller to store as the current task's priority; anything lower is refused
/// with -1.
pub fn sys_set_priority(prio: isize) -> (ret: isize)
    ensures
        ret == (if prio >= 2 {
            prio
        } else {
            -1isize
        }),
{
    if prio < 2 {
        return -1;
    }
    prio
}

/// The stride a task of priority `priority` advances by each time it runs.
/// Since priorities are at least 2, it is at most half of `BIG_STRIDE`.
pub fn stride_pass(priority: usize) -> (pass: usize)
    requires
        priority >= 2,
    ensures
        pass == BIG_STRIDE / priority,
        pass <= BIG_STRIDE / 2,
{
    assert(BIG_STRIDE / priority <= BIG_STRIDE / 2) by (nonlinear_arith)
        requires
            priority >= 2,
    ;
    BIG_STRIDE / priority
}

/// Seconds and microseconds, as `get_time` writes them to user memory.
#[derive(PartialEq, Eq, Structural, Clone, Copy, Debug)]
pub struct TimeVal {
    pub sec: usize,
    pub usec: usize,
}

/// Bytes in a `usize`.
pub open spec fn word_bytes() -> nat {
    (usize::BITS / 8) as nat
}

/// The `n` low bytes of `x`, least significant first.
pub open spec fn le_bytes(x: nat, n: nat) -> Seq<u8>
    decreases n,
{
    if n == 0 {
        Seq::empty()
    } else {
        seq![(x % 256) as u8] + le_bytes(x / 256, (n - 1) as nat)
    }
}

/// The bytes of a `TimeVal` in memory: `sec`, then `usec`, each a
/// little-endian word, as on the RISC-V target.
pub open spec fn time_val_bytes(tv: TimeVal) -> Seq<u8> {
    le_bytes(tv.sec as nat, word_bytes()) + le_bytes(tv.usec as nat, word_bytes())
}

/// Sum of the first `upto` lengths.
pub open spec fn sum_lens(lens: Seq<usize>, upto: int) -> int
    decreases upto,
{
    if upto <= 0 {
        0
    } else {
        sum_lens(lens, upto - 1) + lens[upto - 1]
    }
}

proof fn lemma_le_bytes_len(x: nat, n: nat)
    ensures
        le_bytes(x, n).len() == n,
    decreases n,
{
    if n > 0 {
        lemma_le_bytes_len(x / 256, (n - 1) as nat);
    }
}

proof fn lemma_sum_lens_mono(lens: Seq<usize>, i: int, j: int)
    requires
        0 <= i <= j,
    ensures
        sum_lens(lens, i) <= sum_lens(lens, j),
    decreases j - i,
{
    if i < j {
        lemma_sum_lens_mono(lens, i, j - 1);
    }
}

impl TimeVal {
    /// The time `us` microseconds after the epoch.
    pub fn from_micros(us: usize) -> (tv: TimeVal)
        ensures
            tv.sec == us / 1_000_000,
            tv.usec == us % 1_000_000,
    {
        TimeVal { sec: us / 1_000_000, usec: us % 1_000_000 }
    }

    /// The bytes of the value as it lies in memory.
    pub fn to_bytes(&self) -> (b: Vec<u8>)
        ensures
            b@ == time_val_bytes(*self),
            b@.len() == 2 * word_bytes(),
            forall|i: int|
                0 <= i < word_bytes() ==> #[trigger] b@[i] as int == (self.sec as int / pow(256, i as nat)) % 256,
            forall|i: int|
                0 <= i < word_bytes() ==> #[trigger] b@[word_bytes() + i] as int == (self.usec as int / pow(
                    256,
                    i as nat,
                )) % 256,
    {
        let mut b: Vec<u8> = Vec::new();
        push_le_bytes(&mut b, self.sec);
        push_le_bytes(&mut b, self.usec);
        proof {
            assert forall|i: int| 0 <= i < word_bytes() implies #[trigger] b@[i] as int == (self.sec as int
                / pow(256, i as nat)) % 256 by {
                lemma_time_val_bytes_are_digits(*self, i);
            }
            assert forall|i: int| 0 <= i < word_bytes() implies #[trigger] b@[word_bytes() + i] as int == (
            self.usec as int / pow(256, i as nat)) % 256 by {
                lemma_time_val_bytes_are_digits(*self, i);
            }
            lemma_time_val_bytes_are_digits(*self, 0);
        }
        b
    }
}

/// Appends the bytes of `x`, least significant first.
fn push_le_bytes(b: &mut Vec<u8>, x: usize)
    ensures
        final(b)@ == old(b)@ + le_bytes(x as nat, word_bytes()),
{
    let n: usize = (usize::BITS / 8) as usize;
    let mut y: usize = x;
    let mut k: usize = 0;
    while k < n
        invariant
            n == word_bytes(),
            k <= n,
            b@ + le_bytes(y as nat, (n - k) as nat) == old(b)@ + le_bytes(x as nat, n as nat),
        decreases n - k,
    {
        let ghost before = b@;
        let ghost rest = le_bytes((y / 256) as nat, (n - k - 1) as nat);
        assert(le_bytes(y as nat, (n - k) as nat) == seq![(y % 256) as u8] + rest);
        b.push((y % 256) as u8);
        assert(b@ + rest =~= before + (seq![(y % 256) as u8] + rest));
        y = y / 256;
        k = k + 1;
    }
    assert(le_bytes(y as nat, 0) =~= Seq::<u8>::empty());
    assert(b@ + Seq::<u8>::empty() =~= b@);
}

/// Decides what `get_time` writes: `buffer_lens` are the lengths of the
/// pieces of user memory the `TimeVal` pointer translates to, in address
/// order (the value may straddle a page boundary). Refused with -1 when they
/// do not add up to the size of a `TimeVal`; otherwise returns what to copy
/// into each piece: the value's bytes, each piece taking up where the
/// previous one stopped.
pub fn sys_get_time(time_us: usize, buffer_lens: &Vec<usize>) -> (r: Result<Vec<Vec<u8>>, isize>)
    requires
        sum_lens(buffer_lens@, buffer_lens@.len() as int) <= usize::MAX,
    ensures
        sum_lens(buffer_lens@, buffer_lens@.len() as int) != 2 * word_bytes() ==> r == Err::<
            Vec<Vec<u8>>,
            isize,
        >(-1isize),
        sum_lens(buffer_lens@, buffer_lens@.len() as int) == 2 * word_bytes() ==> {
            &&& r matches Ok(chunks)
            &&& chunks@.len() == buffer_lens@.len()
            &&& forall|k: int|
                0 <= k < chunks@.len() ==> (#[trigger] chunks@[k])@ == time_val_bytes(
                    (TimeVal { sec: time_us / 1_000_000, usec: time_us % 1_000_000 }),
                ).subrange(sum_lens(buffer_lens@, k), sum_lens(buffer_lens@, k) + buffer_lens@[k])
        },
{
    let size: usize = 2 * ((usize::BITS / 8) as usize);
    let mut len: usize = 0;
    let mut i: usize = 0;
    while i < buffer_lens.len()
        invariant
            i <= buffer_lens.len(),
            len == sum_lens(buffer_lens@, i as int),
            sum_lens(buffer_lens@, buffer_lens@.len() as int) <= usize::MAX,
        decreases buffer_lens.len() - i,
    {
        proof {
            lemma_sum_lens_mono(buffer_lens@, i + 1, buffer_lens@.len() as int);
        }
        len = len + buffer_lens[i];
        i = i + 1;
    }
    if len != size {
        return Err(-1);
    }
    let time_val = TimeVal::from_micros(time_us);
    let bytes = time_val.to_bytes();
    proof {
        lemma_le_bytes_len(time_val.sec as nat, word_bytes());
        lemma_le_bytes_len(time_val.usec as nat, word_bytes());
    }
    let mut chunks: Vec<Vec<u8>> = Vec::new();
    let mut offset: usize = 0;
    let mut i: usize = 0;
    while i < buffer_lens.len()
        invariant
            i <= buffer_lens.len(),
            bytes@ == time_val_bytes(time_val),
            bytes@.len() == size,
            size == 2 * word_bytes(),
            offset == sum_lens(buffer_lens@, i as int),
            sum_lens(buffer_lens@, buffer_lens@.len() as int) == size,
            chunks@.len() == i,
            forall|k: int|
                0 <= k < i ==> (#[trigger] chunks@[k])@ == bytes@.subrange(
                    sum_lens(buffer_lens@, k),
                    sum_lens(buffer_lens@, k) + buffer_lens@[k],
                ),
        decreases buffer_lens.len() - i,
    {
        let slice_len = buffer_lens[i];
        proof {
            lemma_sum_lens_mono(buffer_lens@, i + 1, buffer_lens@.len() as int);
        }
        let mut chunk: Vec<u8> = Vec::new();
        let mut j: usize = 0;
        while j < slice_len
            invariant
                j <= slice_len,
                bytes@.len() == size,
                offset + slice_len <= bytes@.len(),
                chunk@ == bytes@.subrange(offset as int, (offset + j) as int),
            decreases slice_len - j,
        {
            chunk.push(bytes[offset + j]);
            j = j + 1;
            assert(chunk@ =~= bytes@.subrange(offset as int, (offset + j) as int));
        }
        chunks.push(chunk);
        offset = offset + slice_len;
        i = i + 1;
    }
    Ok(chunks)
}

/// Byte `i` of the little-endian bytes of `x` is its `i`-th base-256 digit.
pub proof fn lemma_le_bytes_are_digits(x: nat, n: nat, i: int)
    requires
        0 <= i < n,
    ensures
        le_bytes(x, n)[i] as int == (x as int / pow(256, i as nat)) % 256,
    decreases n,
{
    lemma_le_bytes_len(x / 256, (n - 1) as nat);
    let rest = le_bytes(x / 256, (n - 1) as nat);
    assert(le_bytes(x, n) == seq![(x % 256) as u8] + rest);
    if i == 0 {
        assert(pow(256, 0) == 1) by {
            reveal(pow);
        }
        assert(le_bytes(x, n)[0] == (x % 256) as u8);
    } else {
        lemma_le_bytes_are_digits(x / 256, (n - 1) as nat, i - 1);
        assert(le_bytes(x, n)[i] == rest[i - 1]);
        lemma_pow_positive(256, (i - 1) as nat);
        lemma_div_denominator(x as int, 256, pow(256, (i - 1) as nat));
        assert(pow(256, i as nat) == 256 * pow(256, (i - 1) as nat)) by {
            reveal(pow);
        }
    }
}

/// The bytes of a `TimeVal` are the base-256 digits of `sec`, least
/// significant first, then those of `usec`: reading them back as two
/// little-endian words gives the seconds and microseconds again.
pub proof fn lemma_time_val_bytes_are_digits(tv: TimeVal, i: int)
    requires
        0 <= i < word_bytes(),
    ensures
        time_val_bytes(tv).len() == 2 * word_bytes(),
        time_val_bytes(tv)[i] as int == (tv.sec as int / pow(256, i as nat)) % 256,
        time_val_bytes(tv)[word_bytes() + i] as int == (tv.usec as int / pow(256, i as nat)) % 256,
{
    lemma_le_bytes_len(tv.sec as nat, word_bytes());
    lemma_le_bytes_len(tv.usec as nat, word_bytes());
    lemma_le_bytes_are_digits(tv.sec as nat, word_bytes(), i);
    lemma_le_bytes_are_digits(tv.usec as nat, word_bytes(), i);
}

} // verus!
