//! The interrupt controller. Hart `h` has the context `2h + 1`.
use vstd::prelude::*;

verus! {

pub const BASE: u64 = 0x0c00_0000;

pub const UART_IRQ: u32 = 10;

pub const VIRTIO_IRQ: u32 = 1;

/// Interrupts of the virtio slots.
pub const VIRTIO_LAST: u32 = 8;

/// Harts the controller serves.
pub const MAX_CTX_HART: u64 = 0x1_0000;

/// Register of an interrupt's priority.
pub fn prio_reg(irq: u32) -> (a: u64)
    ensures
        a == BASE + 4 * irq,
{
    BASE + 4 * irq as u64
}

/// Registers of a context: enabled interrupts, and threshold. The register
/// after the threshold claims and completes.
pub open spec fn enable_of(hart: u64) -> int {
    BASE + 0x2000 + 0x80 * (2 * hart + 1)
}

pub open spec fn context_of(hart: u64) -> int {
    BASE + 0x20_0000 + 0x1000 * (2 * hart + 1)
}

pub fn ctx_regs(hart: u64) -> (r: (u64, u64))
    requires
        hart < MAX_CTX_HART,
    ensures
        r.0 == enable_of(hart),
        r.1 == context_of(hart),
{
    let ctx: u64 = 2 * hart + 1;
    (BASE + 0x2000 + 0x80 * ctx, BASE + 0x20_0000 + 0x1000 * ctx)
}

/// A value for a register.
#[derive(Clone, Copy, PartialEq, Eq, Structural, Debug)]
pub struct Write {
    pub addr: u64,
    pub val: u32,
}

/// What enables an interrupt on a hart whose enabled interrupts are `e`.
pub open spec fn enabling(irq: u32, hart: u64, e: u32) -> Seq<Write> {
    seq![
        Write { addr: (BASE + 4 * irq) as u64, val: 1 },
        Write { addr: enable_of(hart) as u64, val: e | (1u32 << irq) },
        Write { addr: context_of(hart) as u64, val: 0 },
    ]
}

fn enable_irq_ctx(out: &mut Vec<Write>, irq: u32, hart: u64, e: u32) -> (f: u32)
    requires
        hart < MAX_CTX_HART,
        irq < 32,
    ensures
        final(out)@ == old(out)@ + enabling(irq, hart, e),
        f == e | (1u32 << irq),
{
    let (enable, context) = ctx_regs(hart);
    let f: u32 = e | (1u32 << irq);
    out.push(Write { addr: prio_reg(irq), val: 1 });
    out.push(Write { addr: enable, val: f });
    out.push(Write { addr: context, val: 0 });
    assert(out@ =~= old(out)@ + enabling(irq, hart, e));
    f
}

/// The interrupts enabled once those of the virtio slots up to `n` are.
pub open spec fn with_virtio(e: u32, n: int) -> u32
    decreases n,
{
    if n <= 0 {
        e
    } else {
        with_virtio(e, n - 1) | (1u32 << (n as u32))
    }
}

/// What enables the interrupts of the virtio slots up to `n`.
pub open spec fn enabling_virtio(hart: u64, e: u32, n: int) -> Seq<Write>
    decreases n,
{
    if n <= 0 {
        Seq::empty()
    } else {
        enabling_virtio(hart, e, n - 1) + enabling(n as u32, hart, with_virtio(e, n - 1))
    }
}

/// What enables the interrupts of the console and of the virtio slots on a
/// hart, in this order.
pub fn enable_ctx(hart: u64, e: u32) -> (out: Vec<Write>)
    requires
        hart < MAX_CTX_HART,
    ensures
        out@ == enabling(UART_IRQ, hart, e) + enabling_virtio(
            hart,
            e | (1u32 << UART_IRQ),
            VIRTIO_LAST as int,
        ),
{
    let mut out: Vec<Write> = Vec::new();
    let mut f = enable_irq_ctx(&mut out, UART_IRQ, hart, e);
    let ghost head = enabling(UART_IRQ, hart, e);
    let ghost f0 = f;
    let mut irq: u32 = 0;
    assert(out@ =~= head + enabling_virtio(hart, f0, 0));
    while irq < VIRTIO_LAST
        invariant
            hart < MAX_CTX_HART,
            irq <= VIRTIO_LAST,
            f == with_virtio(f0, irq as int),
            out@ == head + enabling_virtio(hart, f0, irq as int),
        decreases VIRTIO_LAST - irq,
    {
        irq += 1;
        let ghost before = out@;
        f = enable_irq_ctx(&mut out, irq, hart, f);
        assert(out@ =~= head + enabling_virtio(hart, f0, irq as int));
    }
    out
}

/// The same for hart 0.
pub fn init(e: u32) -> (out: Vec<Write>)
    ensures
        out@ == enabling(UART_IRQ, 0, e) + enabling_virtio(
            0,
            e | (1u32 << UART_IRQ),
            VIRTIO_LAST as int,
        ),
{
    enable_ctx(0, e)
}

/// Register that gives the pending interrupt of highest priority; it reads 0
/// when there is none.
pub fn claim(hart: u64) -> (addr: u64)
    requires
        hart < MAX_CTX_HART,
    ensures
        addr == context_of(hart) + 4,
{
    ctx_regs(hart).1 + 4
}

/// What tells that an interrupt was served.
pub fn complete(hart: u64, irq: u32) -> (w: Write)
    requires
        hart < MAX_CTX_HART,
    ensures
        w == (Write { addr: (context_of(hart) + 4) as u64, val: irq }),
{
    Write { addr: ctx_regs(hart).1 + 4, val: irq }
}

/// Who serves an interrupt.
#[derive(Clone, Copy, PartialEq, Eq, Structural, Debug)]
pub enum Irq {
    /// Nothing is pending.
    Nothing,
    Uart,
    Disk,
    /// One of the other virtio slots: the network, if it has news.
    Net,
    Other,
}

/// Who serves an interrupt that was claimed.
pub fn route(irq: u32) -> (r: Irq)
    ensures
        r == if irq == 0 {
            Irq::Nothing
        } else if irq == UART_IRQ {
            Irq::Uart
        } else if irq == VIRTIO_IRQ {
            Irq::Disk
        } else if 2 <= irq <= VIRTIO_LAST {
            Irq::Net
        } else {
            Irq::Other
        },
{
    if irq == 0 {
        Irq::Nothing
    } else if irq == UART_IRQ {
        Irq::Uart
    } else if irq == VIRTIO_IRQ {
        Irq::Disk
    } else if 2 <= irq && irq <= VIRTIO_LAST {
        Irq::Net
    } else {
        Irq::Other
    }
}

/// Claiming and completing go to registers of the hart alone.
pub proof fn law_contexts_apart(a: u64, b: u64)
    requires
        a < MAX_CTX_HART,
        b < MAX_CTX_HART,
        a != b,
    ensures
        enable_of(a) != enable_of(b),
        context_of(a) != context_of(b),
        context_of(a) + 4 != context_of(b),
{
}

} // verus!
