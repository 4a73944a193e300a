//! What the drivers ask of their devices, told of the drivers themselves.
use crate::hw::plic;
use crate::hw::plic::Write;
use vstd::prelude::*;

verus! {

proof fn lemma_slot(hart: u64, e: u32, n: int, irq: u32)
    requires
        1 <= irq <= n <= 8,
    ensures
        plic::enabling_virtio(hart, e, n).contains(Write { addr: (0x0c00_0000 + 4 * irq) as u64, val: 1 }),
    decreases n,
{
    let w = Write { addr: (0x0c00_0000 + 4 * irq) as u64, val: 1u32 };
    let a = plic::enabling_virtio(hart, e, n - 1);
    let b = plic::enabling(n as u32, hart, plic::with_virtio(e, n - 1));
    let r = plic::enabling_virtio(hart, e, n);
    assert(r == a + b);
    if irq == n {
        assert(b[0] == w);
        assert(r[a.len() as int] == w);
    } else {
        lemma_slot(hart, e, n - 1, irq);
        let k = choose|k: int| 0 <= k < a.len() && a[k] == w;
        assert(r[k] == w);
    }
}

/// The interrupts of the console and of every virtio slot are given a priority
/// when a hart's are enabled.
pub proof fn law_interrupts_are_enabled(hart: u64, e: u32, out: Vec<Write>, irq: u32)
    requires
        hart < 0x1_0000,
        irq == 10 || 1 <= irq <= 8,
        call_ensures(plic::enable_ctx, (hart, e), out),
    ensures
        out@.contains(Write { addr: (0x0c00_0000 + 4 * irq) as u64, val: 1 }),
{
    let w = Write { addr: (0x0c00_0000 + 4 * irq) as u64, val: 1u32 };
    let a = plic::enabling(10, hart, e);
    let f = e | (1u32 << 10u32);
    let b = plic::enabling_virtio(hart, f, 8);
    assert(out@ == a + b);
    if irq == 10 {
        assert(out@[0] == w);
    } else {
        lemma_slot(hart, f, 8, irq);
        let k = choose|k: int| 0 <= k < b.len() && b[k] == w;
        assert(out@[a.len() + k] == w);
    }
}

/// An interrupt is completed where it was claimed, with its own number.
pub proof fn law_claim_and_complete(hart: u64, irq: u32, a: u64, w: Write)
    requires
        hart < 0x1_0000,
        call_ensures(plic::claim, (hart,), a),
        call_ensures(plic::complete, (hart, irq), w),
    ensures
        w.addr == a,
        w.val == irq,
        a == 0x0c20_0004 + 0x1000 * (2 * hart + 1),
{
}

} // verus!
