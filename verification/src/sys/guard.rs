//! Whether user memory that a call names can be read and written.
use crate::mem::frame::Mem;
use crate::mem::pagetable as pt;
use crate::mem::space;
use crate::mem::space::VA_END;
use crate::sys::text;
use crate::sys::text::{MAX_ARG, MAX_ARGS};
use vstd::prelude::*;

verus! {

/// Whether the user has a byte at an address.
pub fn byte_ready(m: &Mem, root: u64, va: u64) -> (r: bool)
    requires
        m@.wf(),
        space::space_wf(m@, root),
    ensures
        r == (va < VA_END && space::umem(m@, root, va) is Some),
{
    if va >= VA_END {
        return false;
    }
    let a = pt::vpn(va, 2);
    let b = pt::vpn(va, 1);
    let c = pt::vpn(va, 0);
    proof {
        pt::lemma_flag_consts();
    }
    let e2 = pt::rd_word(m, root, a);
    if e2 & pt::PTE_V == 0 {
        return false;
    }
    assert(pt::has1(m@, root, a as int));
    let e1 = pt::rd_word(m, pt::pte_pa(e2), b);
    if e1 & pt::PTE_V == 0 {
        return false;
    }
    assert(pt::has0(m@, root, a as int, b as int));
    let e0 = pt::rd_word(m, pt::pte_pa(e1), c);
    e0 & pt::PTE_V != 0 && e0 & pt::PTE_U != 0 && e0 & pt::PTE_RWX != 0
}

/// Whether the user has a range of bytes.
pub fn range_ready(m: &Mem, root: u64, ptr: u64, len: u64) -> (r: bool)
    requires
        m@.wf(),
        space::space_wf(m@, root),
    ensures
        r == text::range_mapped(m@, root, ptr, len as int),
{
    let mut k: u64 = 0;
    while k < len
        invariant
            m@.wf(),
            space::space_wf(m@, root),
            k <= len,
            forall|j: int| 0 <= j < k ==> #[trigger] text::mapped(m@, root, ptr, j),
        decreases len - k,
    {
        if ptr >= VA_END || k >= VA_END - ptr || !byte_ready(m, root, ptr + k) {
            assert(!text::mapped(m@, root, ptr, k as int));
            return false;
        }
        assert(text::mapped(m@, root, ptr, k as int));
        k += 1;
    }
    true
}

/// Bytes of the user.
pub fn user_range(m: &Mem, root: u64, ptr: u64, len: u64) -> (v: Vec<u8>)
    requires
        m@.wf(),
        space::space_wf(m@, root),
        text::range_mapped(m@, root, ptr, len as int),
    ensures
        v@ == Seq::new(len as nat, |k: int| text::at(m@, root, ptr, k)),
{
    let mut v: Vec<u8> = Vec::new();
    let mut k: u64 = 0;
    while k < len
        invariant
            m@.wf(),
            space::space_wf(m@, root),
            forall|j: int| 0 <= j < len ==> #[trigger] text::mapped(m@, root, ptr, j),
            k <= len,
            v@ == Seq::new(k as nat, |j: int| text::at(m@, root, ptr, j)),
        decreases len - k,
    {
        assert(text::mapped(m@, root, ptr, k as int));
        v.push(text::user_byte(m, root, ptr + k));
        k += 1;
        assert(v@ =~= Seq::new(k as nat, |j: int| text::at(m@, root, ptr, j)));
    }
    v
}

/// How many bytes of a range can be moved before the first that cannot.
pub fn reached(m: &Mem, root: u64, ptr: u64, len: u64) -> (n: u64)
    requires
        m@.wf(),
        space::space_wf(m@, root),
    ensures
        n as int == text::range_reached(m@, root, ptr, len as int),
        n <= len,
        text::range_mapped(m@, root, ptr, n as int),
{
    let mut k: u64 = 0;
    while k < len
        invariant
            m@.wf(),
            space::space_wf(m@, root),
            k <= len,
            text::range_mapped(m@, root, ptr, k as int),
        decreases len - k,
    {
        if ptr >= VA_END || k >= VA_END - ptr || !byte_ready(m, root, ptr + k) {
            assert(!text::mapped(m@, root, ptr, k as int));
            proof {
                text::lemma_reached(m@, root, ptr, len as int, k as int);
            }
            return k;
        }
        assert(text::mapped(m@, root, ptr, k as int));
        k += 1;
    }
    len
}

/// Whether a string can be read up to the zero that ends it, or its longest
/// length.
pub fn str_ready(m: &Mem, root: u64, ptr: u64, max: usize) -> (r: bool)
    requires
        m@.wf(),
        space::space_wf(m@, root),
    ensures
        r == text::str_mapped(m@, root, ptr, max as int),
{
    let mut k: usize = 0;
    let ghost n = text::str_len(m@, root, ptr, max as int, 0);
    proof {
        text::lemma_str_len(m@, root, ptr, max as int, 0);
    }
    while k < max
        invariant
            m@.wf(),
            space::space_wf(m@, root),
            k <= max,
            k <= n <= max,
            n == text::str_len(m@, root, ptr, max as int, 0),
            n == text::str_len(m@, root, ptr, max as int, k as int),
            forall|j: int| 0 <= j < k ==> #[trigger] text::mapped(m@, root, ptr, j),
        decreases max - k,
    {
        if ptr >= VA_END || k as u64 >= VA_END - ptr || !byte_ready(m, root, ptr + k as u64) {
            assert(!text::mapped(m@, root, ptr, k as int));
            return false;
        }
        assert(text::mapped(m@, root, ptr, k as int));
        let b = text::user_byte(m, root, ptr + k as u64);
        assert(b == text::at(m@, root, ptr, k as int));
        if b == 0 {
            return true;
        }
        proof {
            text::lemma_str_len(m@, root, ptr, max as int, k + 1);
        }
        k += 1;
    }
    true
}

/// Whether the arguments of a program can be read.
pub fn args_ready(m: &Mem, root: u64, argv: u64) -> (r: bool)
    requires
        m@.wf(),
        space::space_wf(m@, root),
    ensures
        r == text::args_mapped(m@, root, argv),
{
    if argv > VA_END - 8 * MAX_ARGS as u64 {
        return false;
    }
    let mut i: usize = 0;
    let ghost n = text::arg_count(m@, root, argv, 0);
    proof {
        text::lemma_arg_count(m@, root, argv, 0);
    }
    while i < MAX_ARGS
        invariant
            m@.wf(),
            space::space_wf(m@, root),
            argv + 8 * MAX_ARGS <= VA_END,
            i <= n <= MAX_ARGS,
            n == text::arg_count(m@, root, argv, 0),
            n == text::arg_count(m@, root, argv, i as int),
            forall|j: int| 0 <= j < i ==> #[trigger] text::arg_ok(m@, root, argv, j),
        decreases MAX_ARGS - i,
    {
        let ghost p0 = text::arg_ptr(m@, root, argv, i as int);
        if !range_ready(m, root, argv + 8 * i as u64, 8) {
            assert(!text::arg_ok(m@, root, argv, i as int));
            return false;
        }
        let p = text::user_word(m, root, argv + 8 * i as u64);
        assert(p == p0);
        if p == 0 {
            assert(text::arg_ok(m@, root, argv, i as int));
            return true;
        }
        if !str_ready(m, root, p, MAX_ARG) {
            assert(!text::arg_ok(m@, root, argv, i as int));
            return false;
        }
        assert(text::arg_ok(m@, root, argv, i as int));
        proof {
            text::lemma_arg_count(m@, root, argv, i + 1);
        }
        i += 1;
    }
    true
}

} // verus!
