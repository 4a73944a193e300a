//! What the small system does, told of its operations themselves.
use crate::eos::shell;
use crate::eos::shell::{Key, Machine, Reply, Shell};
use crate::eos::talk;
use crate::eos::task;
use crate::eos::task::{Eos, MAX_TASKS};
use crate::eos::trap;
use crate::eos::trap::Act;
use crate::eos::uart;
use crate::eos::uart::Console;
use crate::eos::worker;
use crate::eos::worker::Worker;
use vstd::prelude::*;

verus! {

// ---- the shell ----

/// A character that can be shown goes to the end of the line and is shown, as
/// long as there is room; an erasure takes the last away; Enter hands the line
/// out and starts a new one.
pub proof fn law_key(s: &mut Shell, c: u8, k: Key)
    requires
        old(s).wf(),
        old(s)@.len() < 128,
        call_ensures(shell::key, (s, c), k),
    ensures
        talk::printable(c) ==> final(s)@ == old(s)@.push(c) && k.echo@ == seq![c] && k.line is None,
        (c == 0x08 || c == 0x7f) && old(s)@.len() > 0 ==> final(s)@ == old(s)@.drop_last() && k.line is None,
        c == 0x0d || c == 0x0a ==> final(s)@.len() == 0 && k.line is Some && (k.line->0)@ == old(s)@,
        !(c == 0x0d || c == 0x0a) ==> k.line is None,
{
    if talk::printable(c) {
        talk::law_typing(old(s)@, seq![c]);
        assert(seq![c].skip(1) =~= Seq::empty());
        reveal_with_fuel(talk::typed, 2);
        reveal_with_fuel(talk::echoed, 2);
        assert(old(s)@ + seq![c] =~= old(s)@.push(c));
        assert(shell::shown(old(s)@, c) + Seq::<u8>::empty() =~= shell::shown(old(s)@, c));
    } else {
        talk::law_control_keys(old(s)@, c);
        if old(s)@.len() > 0 {
            assert(old(s)@.take(old(s)@.len() - 1) =~= old(s)@.drop_last());
        }
    }
}

/// Blanks around a command do not matter, and blanks alone are none.
pub proof fn law_command(
    e: &Eos,
    m: &Machine,
    a: Seq<u8>,
    c: Seq<u8>,
    b: Seq<u8>,
    l: &[u8],
    r: Reply,
    k: &[u8],
    q: Reply,
)
    requires
        talk::blanks(a),
        talk::blanks(b),
        talk::tight(c) || c.len() == 0,
        l@ == a + c + b,
        k@ == c,
        call_ensures(shell::exec_line, (e, m, l), r),
        call_ensures(shell::exec_line, (e, m, k), q),
    ensures
        r@ == q@,
        c.len() == 0 ==> r@.text.len() == 0 && r@.act is Nothing,
{
    if c.len() > 0 {
        talk::law_blanks_do_not_matter(e@, *m, a, c, b);
    } else {
        let z = a + c + b;
        assert(talk::blanks(z)) by {
            assert forall|i: int| 0 <= i < z.len() implies talk::blank(#[trigger] z[i]) by {
                if i < a.len() {
                    assert(talk::blank(a[i]));
                } else {
                    assert(z[i] == b[i - a.len()]);
                }
            }
        }
        talk::law_empty_line(e@, *m, z);
        talk::law_empty_line(e@, *m, c);
        assert(r@ =~= q@) by {
            assert(r@.text =~= q@.text);
            assert(r@.after =~= q@.after);
        }
    }
}

// ---- tasks ----

/// A switch goes to the next task in turn that is alive; no task's registers
/// change.
pub proof fn law_switch(e: &mut Eos, u: (), i: int)
    requires
        old(e)@.wf(),
        0 <= i < MAX_TASKS,
        call_ensures(task::schedule, (e,), u),
    ensures
        ({
            let c = old(e)@.current as int;
            let n = (c + 1) % 3;
            let p = (c + 2) % 3;
            let f = final(e)@.current as int;
            &&& old(e)@.tasks[n].alive ==> f == n
            &&& !old(e)@.tasks[n].alive && old(e)@.tasks[p].alive ==> f == p
            &&& !old(e)@.tasks[n].alive && !old(e)@.tasks[p].alive && old(e)@.tasks[c].alive ==> final(e)@ == old(e)@
            &&& final(e)@.tasks[i].frame == old(e)@.tasks[i].frame && final(e)@.tasks[i].alive == old(e)@.tasks[i].alive
            &&& final(e)@.ticks == old(e)@.ticks
        }),
{
}

/// A fault of a task other than the shell is told and ends the task alone; one
/// of the shell stops the machine, and so does one during the report.
pub proof fn law_fault(e: &mut Eos, mcause: u32, insn: u16, input: Option<u8>, a: Act, k: &mut Eos, u: ())
    requires
        old(e)@.wf(),
        mcause < 0x8000_0000,
        mcause != 11,
        call_ensures(trap::rust_trap, (e, mcause, insn, input), a),
        old(k)@ == final(e)@,
        call_ensures(trap::kill_current, (k,), u),
    ensures
        old(e)@.dumping ==> a is Nested && final(e)@ == old(e)@,
        !old(e)@.dumping && old(e)@.current == 0 ==> a is Fatal,
        !old(e)@.dumping && old(e)@.current != 0 ==> a == (Act::Killed { id: old(e)@.current }),
        !old(e)@.dumping && old(e)@.current != 0 ==> !final(k)@.tasks[old(e)@.current as int].alive,
        !final(k)@.dumping,
        forall|i: int|
            0 <= i < MAX_TASKS && i != old(e)@.current ==> (#[trigger] final(k)@.tasks[i]).alive == old(e)@.tasks[i].alive,
{
}

/// A timer interrupt counts, asks for the next a hundredth of a second later and
/// lets the next task run.
pub proof fn law_timer(e: &mut Eos, insn: u16, input: Option<u8>, a: Act)
    requires
        old(e)@.wf(),
        old(e)@.ticks < u64::MAX,
        old(e)@.next_at + 100_000 <= u64::MAX,
        call_ensures(trap::rust_trap, (e, 0x8000_0007u32, insn, input), a),
    ensures
        final(e)@.ticks == old(e)@.ticks + 1,
        final(e)@.next_at == old(e)@.next_at + 100_000,
        a is SetTimer && a->next == old(e)@.next_at + 100_000,
        old(e)@.tasks[(old(e)@.current + 1) % 3].alive ==> final(e)@.current == (old(e)@.current + 1) % 3,
{
    talk::law_tick_and_switch(old(e)@);
}

// ---- the console and the workers ----

proof fn lemma_wired(s: Seq<u8>)
    ensures
        (forall|i: int| 0 <= i < s.len() ==> #[trigger] s[i] != 0x0a) ==> uart::wired(s) == s,
    decreases s.len(),
{
    if s.len() > 0 {
        lemma_wired(s.drop_last());
        if forall|i: int| 0 <= i < s.len() ==> #[trigger] s[i] != 0x0a {
            assert(forall|i: int| 0 <= i < s.drop_last().len() ==> #[trigger] s.drop_last()[i] == s[i]);
            assert(s.last() == s[s.len() - 1]);
            assert(s.drop_last() + seq![s.last()] =~= s);
        }
    } else {
        assert(uart::wired(s) =~= s);
    }
}

/// What is printed goes out as it is, a carriage return before each line feed,
/// behind what went before; two prints are as one with both.
pub proof fn law_print(con: &mut Console, s: &[u8], u: (), l: &[u8], d: &mut Console, v: (), x: Seq<u8>)
    requires
        call_ensures(Console::write, (con, s), u),
        l@ == x + seq![0x0au8],
        s@ == x,
        forall|i: int| 0 <= i < x.len() ==> #[trigger] x[i] != 0x0a,
        old(d).out@ == old(con).out@,
        call_ensures(Console::write, (d, l), v),
    ensures
        final(con).out@ == old(con).out@ + x,
        final(d).out@ == old(con).out@ + x + seq![0x0du8, 0x0au8],
{
    lemma_wired(x);
    assert(l@.drop_last() =~= x);
    assert(l@.last() == 0x0a);
    assert(final(d).out@ =~= old(con).out@ + x + seq![0x0du8, 0x0au8]);
}

/// A worker tells something at most once in its time, and counts.
pub proof fn law_workers(w: &mut Worker, now: u64, told: bool, v: &mut Worker, again: bool, later: u64)
    requires
        now >= old(w).last,
        later >= now,
        call_ensures(worker::worker_blink, (w, now), told),
        *old(v) == *final(w),
        call_ensures(worker::worker_blink, (v, later), again),
    ensures
        told <==> now - old(w).last >= worker::BLINK_EVERY,
        told ==> final(w).last == now && (again <==> later - now >= worker::BLINK_EVERY),
        !told ==> *final(w) == *old(w),
        told && old(w).count < u32::MAX ==> final(w).count == old(w).count + 1,
{
}

} // verus!
