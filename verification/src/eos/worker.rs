//! The two demonstration tasks.
use vstd::prelude::*;

verus! {

/// Ticks between two lines of a task.
pub const BLINK_EVERY: u64 = 200;

pub const FIB_EVERY: u64 = 300;

/// Fibonacci numbers.
pub open spec fn fib(n: nat) -> nat
    decreases n,
{
    if n < 2 {
        n
    } else {
        fib((n - 1) as nat) + fib((n - 2) as nat)
    }
}

proof fn lemma_fib24()
    ensures
        fib(24) == 46368,
        fib(25) == 75025,
{
    assert(fib(0) == 0 && fib(1) == 1);
    assert(fib(2) == 1);
    assert(fib(3) == 2);
    assert(fib(4) == 3);
    assert(fib(5) == 5);
    assert(fib(6) == 8);
    assert(fib(7) == 13);
    assert(fib(8) == 21);
    assert(fib(9) == 34);
    assert(fib(10) == 55);
    assert(fib(11) == 89);
    assert(fib(12) == 144);
    assert(fib(13) == 233);
    assert(fib(14) == 377);
    assert(fib(15) == 610);
    assert(fib(16) == 987);
    assert(fib(17) == 1597);
    assert(fib(18) == 2584);
    assert(fib(19) == 4181);
    assert(fib(20) == 6765);
    assert(fib(21) == 10946);
    assert(fib(22) == 17711);
    assert(fib(23) == 28657);
    assert(fib(24) == 46368);
    assert(fib(25) == 75025);
}

proof fn lemma_fib_mono(a: nat, b: nat)
    requires
        a <= b,
    ensures
        fib(a) <= fib(b),
    decreases b,
{
    if a < b {
        lemma_fib_mono(a, (b - 1) as nat);
        if b >= 2 {
            lemma_fib_mono((b - 2) as nat, (b - 1) as nat);
        }
    }
}

/// The number the second task computes over and over, which shows that
/// switches keep registers.
pub fn fib24() -> (a: u32)
    ensures
        a == 46368,
        a == fib(24),
{
    let mut a: u32 = 0;
    let mut b: u32 = 1;
    let mut i: u32 = 0;
    proof {
        lemma_fib24();
    }
    while i < 24
        invariant
            i <= 24,
            a == fib(i as nat),
            b == fib((i + 1) as nat),
            fib(25) == 75025,
        decreases 24 - i,
    {
        proof {
            lemma_fib_mono((i + 2) as nat, 25);
        }
        let c: u32 = a.wrapping_add(b);
        assert(c == fib((i + 2) as nat));
        a = b;
        b = c;
        i += 1;
    }
    a
}

/// What a task remembers between two looks at the clock.
#[derive(Clone, Copy, PartialEq, Eq, Structural, Debug)]
pub struct Worker {
    pub count: u32,
    pub last: u64,
}

/// One look of the first task at the clock: true when it is time for a line;
/// otherwise it gives way.
pub fn worker_blink(w: &mut Worker, now: u64) -> (line: bool)
    ensures
        line == (now.wrapping_sub(old(w).last) >= BLINK_EVERY),
        *final(w) == if line {
            Worker { count: old(w).count.wrapping_add(1), last: now }
        } else {
            *old(w)
        },
{
    if now.wrapping_sub(w.last) >= BLINK_EVERY {
        w.last = now;
        w.count = w.count.wrapping_add(1);
        true
    } else {
        false
    }
}

/// One round of the second task: it always counts; true when it is time for a
/// line, otherwise it gives way.
pub fn worker_fib(w: &mut Worker, now: u64) -> (line: bool)
    ensures
        line == (now.wrapping_sub(old(w).last) >= FIB_EVERY),
        *final(w) == (Worker {
            count: old(w).count.wrapping_add(1),
            last: if line {
                now
            } else {
                old(w).last
            },
        }),
{
    w.count = w.count.wrapping_add(1);
    if now.wrapping_sub(w.last) >= FIB_EVERY {
        w.last = now;
        true
    } else {
        false
    }
}

} // verus!
