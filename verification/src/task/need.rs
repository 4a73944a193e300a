//! How many frames loading a program takes, counted without touching memory:
//! its pages that no earlier part of it covers, and the tables that are missing
//! for them.
use crate::mem::frame::{MemV, PAGE_SIZE};
use crate::mem::pagetable as pt;
use crate::mem::shape;
use crate::mem::shape::Shape;
use crate::task::elf::Prog;
use crate::task::image;
use crate::task::state::{USER_STACK_PAGES, USER_STACK_TOP};
use vstd::prelude::*;

verus! {

/// A fresh space beside the kernel's at `kroot`.
pub open spec fn fresh_shape(m: MemV, kroot: u64) -> Shape {
    Shape {
        has1: |x: int| pt::ix(x) && image::has1_fresh(m, kroot, x),
        has0: |x: int, y: int| pt::ix(x) && pt::ix(y) && image::has0_fresh(m, kroot, x, y),
        page: |u: u64| false,
    }
}

/// The shape once the part of a segment that is in the file is there.
pub open spec fn file_shape(s: Shape, p: Prog) -> Shape {
    shape::grown(s, pt::page_down(p.vaddr), pt::span(p.vaddr, p.filesz))
}

/// First page and number of pages of the part of a segment that is all zeros.
pub open spec fn tail_start(p: Prog) -> u64 {
    pt::page_down((p.vaddr + p.filesz) as u64)
}

pub open spec fn tail_pages(p: Prog) -> nat {
    pt::span((p.vaddr + p.filesz) as u64, (p.memsz - p.filesz) as u64)
}

pub open spec fn seg_shape(s: Shape, p: Prog) -> Shape {
    if p.memsz > p.filesz {
        shape::grown(file_shape(s, p), tail_start(p), tail_pages(p))
    } else {
        file_shape(s, p)
    }
}

/// Frames that a segment takes.
pub open spec fn seg_need(s: Shape, p: Prog) -> nat {
    shape::range_need(s, pt::page_down(p.vaddr), pt::span(p.vaddr, p.filesz)) + if p.memsz > p.filesz {
        shape::range_need(file_shape(s, p), tail_start(p), tail_pages(p))
    } else {
        0nat
    }
}

pub open spec fn segs_shape(s: Shape, progs: Seq<Prog>, n: int) -> Shape
    decreases n,
{
    if n <= 0 {
        s
    } else {
        seg_shape(segs_shape(s, progs, n - 1), progs[n - 1])
    }
}

/// Frames that the first `n` segments take, one after the other.
pub open spec fn segs_need(s: Shape, progs: Seq<Prog>, n: int) -> nat
    decreases n,
{
    if n <= 0 {
        0
    } else {
        segs_need(s, progs, n - 1) + seg_need(segs_shape(s, progs, n - 1), progs[n - 1])
    }
}

/// Frames that a program takes: its segments and its stack.
pub open spec fn image_need(s: Shape, progs: Seq<Prog>) -> nat {
    segs_need(s, progs, progs.len() as int) + shape::range_need(
        segs_shape(s, progs, progs.len() as int),
        (USER_STACK_TOP - USER_STACK_PAGES * PAGE_SIZE) as u64,
        USER_STACK_PAGES as nat,
    )
}

/// A fresh space has the fresh shape.
pub proof fn lemma_fresh_shape(m: MemV, n: MemV, kroot: u64, root: u64)
    requires
        image::fresh_tables(m, n, kroot, root),
    ensures
        shape::bare_shape(n, root) == fresh_shape(m, kroot),
{
    let a = shape::bare_shape(n, root);
    let b = fresh_shape(m, kroot);
    assert forall|x: int| #[trigger] (a.has1)(x) == (b.has1)(x) by {
        assert(pt::ix(x) ==> pt::has1(n, root, x) == image::has1_fresh(m, kroot, x));
    }
    assert(a.has1 =~= b.has1);
    assert forall|x: int, y: int| #[trigger] (a.has0)(x, y) == (b.has0)(x, y) by {
        assert(pt::ix(x) && pt::ix(y) ==> pt::has0(n, root, x, y) == image::has0_fresh(m, kroot, x, y));
    }
    assert(a.has0 =~= b.has0);
    assert(a.page =~= b.page);
}

pub proof fn lemma_segs_mono(s: Shape, progs: Seq<Prog>, i: int, n: int)
    requires
        i <= n,
    ensures
        segs_need(s, progs, i) <= segs_need(s, progs, n),
    decreases n - i,
{
    if i < n {
        lemma_segs_mono(s, progs, i, n - 1);
    }
}

} // verus!
