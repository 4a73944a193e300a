//! What the board writes of itself: at its start, from its tasks, and when one
//! of them fails.
use crate::eos::clint::{TICK_HZ, TICK_INTERVAL};
use crate::eos::shell::{Area, Machine};
use crate::eos::task::{Eos, EosV, Task, MAX_TASKS};
use crate::eos::text;
use crate::eos::trap;
use vstd::prelude::*;

verus! {

pub open spec fn reg(name: &str, v: u32) -> Seq<u8> {
    text::b(name) + text::addr(v)
}

fn say_reg(out: &mut Vec<u8>, name: &str, v: u32)
    ensures
        final(out)@ == old(out)@ + reg(name, v),
{
    text::say(out, name);
    text::say_addr(out, v);
    assert(out@ =~= old(out)@ + reg(name, v));
}

/// Return address, pointers, and the first temporaries.
pub open spec fn line_t(r: Seq<u32>) -> Seq<u8> {
    reg("  ra=", r[1]) + reg(" sp=", r[2]) + reg(" gp=", r[3]) + reg(" tp=", r[4]) + reg(" t0=", r[5]) + reg(" t1=", r[6]) + reg(" t2=", r[7]) + text::b("\n")
}

#[verifier::spinoff_prover]
#[verifier::rlimit(30)]
fn say_line_t(out: &mut Vec<u8>, r: &[u32; 32])
    ensures
        final(out)@ == old(out)@ + line_t(r@),
{
    say_reg(out, "  ra=", r[1]);
    say_reg(out, " sp=", r[2]);
    say_reg(out, " gp=", r[3]);
    say_reg(out, " tp=", r[4]);
    say_reg(out, " t0=", r[5]);
    say_reg(out, " t1=", r[6]);
    say_reg(out, " t2=", r[7]);
    text::say(out, "\n");
    assert(out@ =~= old(out)@ + line_t(r@));
}

/// The first saved registers, and arguments.
pub open spec fn line_a(r: Seq<u32>) -> Seq<u8> {
    reg("  s0=", r[8]) + reg(" s1=", r[9]) + reg(" a0=", r[10]) + reg(" a1=", r[11]) + reg(" a2=", r[12]) + reg(" a3=", r[13]) + reg(" a4=", r[14]) + reg(" a5=", r[15]) + text::b("\n")
}

#[verifier::spinoff_prover]
#[verifier::rlimit(30)]
fn say_line_a(out: &mut Vec<u8>, r: &[u32; 32])
    ensures
        final(out)@ == old(out)@ + line_a(r@),
{
    say_reg(out, "  s0=", r[8]);
    say_reg(out, " s1=", r[9]);
    say_reg(out, " a0=", r[10]);
    say_reg(out, " a1=", r[11]);
    say_reg(out, " a2=", r[12]);
    say_reg(out, " a3=", r[13]);
    say_reg(out, " a4=", r[14]);
    say_reg(out, " a5=", r[15]);
    text::say(out, "\n");
    assert(out@ =~= old(out)@ + line_a(r@));
}

/// The last arguments, and more saved registers.
pub open spec fn line_s(r: Seq<u32>) -> Seq<u8> {
    reg("  a6=", r[16]) + reg(" a7=", r[17]) + reg(" s2=", r[18]) + reg(" s3=", r[19]) + reg(" s4=", r[20]) + reg(" s5=", r[21]) + reg(" s6=", r[22]) + reg(" s7=", r[23]) + text::b("\n")
}

#[verifier::spinoff_prover]
#[verifier::rlimit(30)]
fn say_line_s(out: &mut Vec<u8>, r: &[u32; 32])
    ensures
        final(out)@ == old(out)@ + line_s(r@),
{
    say_reg(out, "  a6=", r[16]);
    say_reg(out, " a7=", r[17]);
    say_reg(out, " s2=", r[18]);
    say_reg(out, " s3=", r[19]);
    say_reg(out, " s4=", r[20]);
    say_reg(out, " s5=", r[21]);
    say_reg(out, " s6=", r[22]);
    say_reg(out, " s7=", r[23]);
    text::say(out, "\n");
    assert(out@ =~= old(out)@ + line_s(r@));
}

/// The last saved registers and temporaries.
pub open spec fn line_e(r: Seq<u32>) -> Seq<u8> {
    reg("  s8=", r[24]) + reg(" s9=", r[25]) + reg(" s10=", r[26]) + reg(" s11=", r[27]) + reg(" t3=", r[28]) + reg(" t4=", r[29]) + reg(" t5=", r[30]) + reg(" t6=", r[31]) + text::b("\n")
}

#[verifier::spinoff_prover]
#[verifier::rlimit(30)]
fn say_line_e(out: &mut Vec<u8>, r: &[u32; 32])
    ensures
        final(out)@ == old(out)@ + line_e(r@),
{
    say_reg(out, "  s8=", r[24]);
    say_reg(out, " s9=", r[25]);
    say_reg(out, " s10=", r[26]);
    say_reg(out, " s11=", r[27]);
    say_reg(out, " t3=", r[28]);
    say_reg(out, " t4=", r[29]);
    say_reg(out, " t5=", r[30]);
    say_reg(out, " t6=", r[31]);
    text::say(out, "\n");
    assert(out@ =~= old(out)@ + line_e(r@));
}

/// What failed, where, and in which task.
pub open spec fn fault_head(t: Task, id: int, mcause: u32, mtval: u32) -> Seq<u8> {
    text::b("\n[FATAL] ") + text::b(trap::cause_name(mcause)) + reg(" (mcause=", mcause) + reg(
        " mepc=",
        t.frame.mepc,
    ) + reg(" mtval=", mtval) + text::b(") on task ") + text::dec(id) + text::b(" \"") + text::b(
        t.name,
    ) + text::b("\"\n")
}

#[verifier::spinoff_prover]
#[verifier::rlimit(30)]
fn say_head(out: &mut Vec<u8>, t: &Task, id: usize, mcause: u32, mtval: u32)
    ensures
        final(out)@ == old(out)@ + fault_head(*t, id as int, mcause, mtval),
{
    text::say(out, "\n[FATAL] ");
    text::say(out, trap::mcause_str(mcause));
    say_reg(out, " (mcause=", mcause);
    say_reg(out, " mepc=", t.frame.mepc);
    say_reg(out, " mtval=", mtval);
    text::say(out, ") on task ");
    text::say_dec(out, id as u64);
    text::say(out, " \"");
    text::say(out, t.name);
    text::say(out, "\"\n");
    assert(out@ =~= old(out)@ + fault_head(*t, id as int, mcause, mtval));
}

/// A fault of a task, with its registers.
pub open spec fn fault_text(e: EosV, id: int, mcause: u32, mtval: u32) -> Seq<u8> {
    let t = e.tasks[id];
    let r = t.frame.regs@;
    fault_head(t, id, mcause, mtval) + line_t(r) + line_a(r) + line_s(r) + line_e(r)
}

#[verifier::spinoff_prover]
#[verifier::rlimit(30)]
pub fn fault(e: &Eos, id: usize, mcause: u32, mtval: u32) -> (out: Vec<u8>)
    requires
        id < MAX_TASKS,
    ensures
        out@ == fault_text(e@, id as int, mcause, mtval),
{
    let mut out: Vec<u8> = Vec::new();
    let t = e.tasks[id];
    say_head(&mut out, &t, id, mcause, mtval);
    say_line_t(&mut out, &t.frame.regs);
    say_line_a(&mut out, &t.frame.regs);
    say_line_s(&mut out, &t.frame.regs);
    say_line_e(&mut out, &t.frame.regs);
    assert(out@ =~= fault_text(e@, id as int, mcause, mtval));
    out
}

pub open spec fn killing_text(id: int) -> Seq<u8> {
    text::b("[trap] killing task ") + text::dec(id) + text::b("\n")
}

/// The task that failed is gone.
pub fn killing(id: usize) -> (out: Vec<u8>)
    ensures
        out@ == killing_text(id as int),
{
    let mut out: Vec<u8> = Vec::new();
    text::say(&mut out, "[trap] killing task ");
    text::say_dec(&mut out, id as u64);
    text::say(&mut out, "\n");
    assert(out@ =~= killing_text(id as int));
    out
}

pub open spec fn exit_text(id: int, name: &str) -> Seq<u8> {
    text::b("[task ") + text::dec(id) + text::b(" \"") + text::b(name) + text::b(
        "\"] exited, parking\n",
    )
}

/// A task returned from its function.
pub fn task_exit(id: usize, name: &str) -> (out: Vec<u8>)
    ensures
        out@ == exit_text(id as int, name),
{
    let mut out: Vec<u8> = Vec::new();
    text::say(&mut out, "[task ");
    text::say_dec(&mut out, id as u64);
    text::say(&mut out, " \"");
    text::say(&mut out, name);
    text::say(&mut out, "\"] exited, parking\n");
    assert(out@ =~= exit_text(id as int, name));
    out
}

pub open spec fn blink_text(count: int, now: int) -> Seq<u8> {
    text::b("[blink] count=") + text::dec(count) + text::b(" tick=") + text::dec(now) + text::b(
        "\n",
    )
}

/// A line of the first worker.
pub fn blink(count: u32, now: u64) -> (out: Vec<u8>)
    ensures
        out@ == blink_text(count as int, now as int),
{
    let mut out: Vec<u8> = Vec::new();
    text::say(&mut out, "[blink] count=");
    text::say_dec(&mut out, count as u64);
    text::say(&mut out, " tick=");
    text::say_dec(&mut out, now);
    text::say(&mut out, "\n");
    assert(out@ =~= blink_text(count as int, now as int));
    out
}

pub open spec fn fib_text(n: int, a: int, now: int) -> Seq<u8> {
    text::b("[fib] iter=") + text::dec(n) + text::b(" fib24=") + text::dec(a) + text::b(" tick=")
        + text::dec(now) + text::b("\n")
}

/// A line of the second worker.
pub fn fib(n: u32, a: u32, now: u64) -> (out: Vec<u8>)
    ensures
        out@ == fib_text(n as int, a as int, now as int),
{
    let mut out: Vec<u8> = Vec::new();
    text::say(&mut out, "[fib] iter=");
    text::say_dec(&mut out, n as u64);
    text::say(&mut out, " fib24=");
    text::say_dec(&mut out, a as u64);
    text::say(&mut out, " tick=");
    text::say_dec(&mut out, now);
    text::say(&mut out, "\n");
    assert(out@ =~= fib_text(n as int, a as int, now as int));
    out
}

pub open spec fn span(name: &str, a: Area) -> Seq<u8> {
    reg(name, a.lo) + reg("..", a.hi)
}

fn say_span(out: &mut Vec<u8>, name: &str, a: Area)
    ensures
        final(out)@ == old(out)@ + span(name, a),
{
    say_reg(out, name, a.lo);
    say_reg(out, "..", a.hi);
    assert(out@ =~= old(out)@ + span(name, a));
}

/// Name, hart and memory.
pub open spec fn banner_text(m: Machine) -> Seq<u8> {
    text::b("==============================================\n") + text::b(
        " embed-os 0.1.0 — RV32IMAC bare-metal, M-mode\n",
    ) + text::b("==============================================\n") + text::b("[boot] hart=")
        + text::dec(m.hart as int) + text::b(" (expect 0 on qemu virt)\n") + span(
        "[boot] mem: text ",
        m.code,
    ) + span(" ro ", m.rodata) + span(" data ", m.data) + span(" bss ", m.bss) + text::b("\n")
}

#[verifier::spinoff_prover]
#[verifier::rlimit(30)]
pub fn banner(m: &Machine) -> (out: Vec<u8>)
    ensures
        out@ == banner_text(*m),
{
    let mut out: Vec<u8> = Vec::new();
    text::say(&mut out, "==============================================\n");
    text::say(&mut out, " embed-os 0.1.0 — RV32IMAC bare-metal, M-mode\n");
    text::say(&mut out, "==============================================\n");
    text::say(&mut out, "[boot] hart=");
    text::say_dec(&mut out, m.hart as u64);
    text::say(&mut out, " (expect 0 on qemu virt)\n");
    say_span(&mut out, "[boot] mem: text ", m.code);
    say_span(&mut out, " ro ", m.rodata);
    say_span(&mut out, " data ", m.data);
    say_span(&mut out, " bss ", m.bss);
    text::say(&mut out, "\n");
    assert(out@ =~= banner_text(*m));
    out
}

pub open spec fn started_text(mtvec: u32, mscratch: u32) -> Seq<u8> {
    reg("[boot] mtvec=", mtvec) + reg(" mscratch=", mscratch) + text::b(" interval=") + text::dec(
        TICK_INTERVAL as int,
    ) + text::b("\n[boot] scheduler start: 3 tasks @ ") + text::dec(TICK_HZ as int) + text::b(
        " Hz\n",
    )
}

/// The last words before the first task runs.
#[verifier::spinoff_prover]
#[verifier::rlimit(30)]
pub fn started(mtvec: u32, mscratch: u32) -> (out: Vec<u8>)
    ensures
        out@ == started_text(mtvec, mscratch),
{
    let mut out: Vec<u8> = Vec::new();
    say_reg(&mut out, "[boot] mtvec=", mtvec);
    say_reg(&mut out, " mscratch=", mscratch);
    text::say(&mut out, " interval=");
    text::say_dec(&mut out, TICK_INTERVAL);
    text::say(&mut out, "\n[boot] scheduler start: 3 tasks @ ");
    text::say_dec(&mut out, TICK_HZ);
    text::say(&mut out, " Hz\n");
    assert(out@ =~= started_text(mtvec, mscratch));
    out
}

} // verus!
