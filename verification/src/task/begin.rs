//! A program as it starts: what of its file is where, what rights its pages
//! have, and where it finds its arguments.
use crate::mem::frame;
use crate::mem::frame::{MemV, WORDS};
use crate::mem::space;
use crate::mem::space::VA_END;
use crate::task::args;
use crate::task::elf;
use crate::task::elf::Prog;
use crate::task::image;
use crate::task::proc;
use crate::task::state::SchedV;
use vstd::prelude::*;

verus! {

// ---- the file ----

pub open spec fn le2(b: Seq<u8>, o: int) -> int {
    b[o] + b[o + 1] * 0x100
}

pub open spec fn le4(b: Seq<u8>, o: int) -> int {
    b[o] + b[o + 1] * 0x100 + b[o + 2] * 0x1_0000 + b[o + 3] * 0x100_0000
}

pub open spec fn le8(b: Seq<u8>, o: int) -> int {
    le4(b, o) + le4(b, o + 4) * 0x1_0000_0000
}

/// Where program header `i` is.
pub open spec fn head_at(b: Seq<u8>, i: int) -> int {
    le8(b, 0x20) + i * le2(b, 0x36)
}

/// Header `i` asks for memory from `va` on.
pub open spec fn loads_at(b: Seq<u8>, i: int) -> bool {
    le4(b, head_at(b, i)) == 1
}

pub open spec fn va_of(b: Seq<u8>, i: int) -> int {
    le8(b, head_at(b, i) + 16)
}

pub open spec fn off_of(b: Seq<u8>, i: int) -> int {
    le8(b, head_at(b, i) + 8)
}

pub open spec fn filesz_of(b: Seq<u8>, i: int) -> int {
    le8(b, head_at(b, i) + 32)
}

pub open spec fn memsz_of(b: Seq<u8>, i: int) -> int {
    le8(b, head_at(b, i) + 40)
}

/// Header `i` puts something at an address.
pub open spec fn covers(b: Seq<u8>, i: int, u: u64) -> bool {
    loads_at(b, i) && va_of(b, i) <= u && (u < va_of(b, i) + filesz_of(b, i) || u < va_of(b, i) + memsz_of(b, i))
}

/// What is an executable: the four magic bytes, 64 bits, little end first, at
/// most eight program headers, all of them in the file.
pub proof fn law_executable_file(b: Seq<u8>)
    ensures
        elf::elf_ok(b) <==> {
            &&& b.len() >= 64
            &&& b[0] == 0x7f && b[1] == 0x45 && b[2] == 0x4c && b[3] == 0x46
            &&& b[4] == 2 && b[5] == 1
            &&& le2(b, 0x38) <= 8
            &&& forall|i: int| 0 <= i < le2(b, 0x38) ==> #[trigger] head_at(b, i) + 56 <= b.len()
        },
{
    if b.len() >= 64 {
        lemma_words(b, 0x20);
        assert forall|i: int| #[trigger] elf::phdr_at(b, i) == head_at(b, i) by {}
        assert forall|i: int| #[trigger] head_at(b, i) == elf::phdr_at(b, i) by {}
    }
}

proof fn lemma_words(b: Seq<u8>, o: int)
    ensures
        elf::u16_at(b, o) == le2(b, o),
        elf::u32_at(b, o) == le4(b, o),
        elf::u64_at(b, o) == le8(b, o),
{
}

proof fn lemma_prog(b: Seq<u8>, i: int)
    ensures
        elf::phdr_at(b, i) == head_at(b, i),
        ({
            let p = elf::prog_at(b, elf::phdr_at(b, i));
            &&& p.vaddr == va_of(b, i)
            &&& p.offset == off_of(b, i)
            &&& p.filesz == filesz_of(b, i)
            &&& p.memsz == memsz_of(b, i)
            &&& p.flags == le4(b, head_at(b, i) + 4)
        }),
        (elf::u32_at(b, elf::phdr_at(b, i)) == 1) == loads_at(b, i),
{
    lemma_words(b, 0x20);
    let o = head_at(b, i);
    lemma_words(b, o);
    lemma_words(b, o + 4);
    lemma_words(b, o + 8);
    lemma_words(b, o + 16);
    lemma_words(b, o + 32);
    lemma_words(b, o + 40);
}

// ---- the program in memory ----

proof fn lemma_prefix(p: Seq<Prog>, q: Prog, n: int, data: Seq<u8>, u: u64)
    requires
        0 <= n <= p.len(),
    ensures
        image::segs_byte(p.push(q), n, data, u) == image::segs_byte(p, n, data, u),
        image::segs_end(p.push(q), n) == image::segs_end(p, n),
    decreases n,
{
    if n > 0 {
        lemma_prefix(p, q, n - 1, data, u);
    }
}

proof fn lemma_loaded(b: Seq<u8>, n: int, i: int, u: u64)
    requires
        0 <= i < n,
        covers(b, i, u),
        forall|j: int| i < j < n ==> !#[trigger] covers(b, j, u),
    ensures
        ({
            let p = elf::loads(b, n);
            image::segs_byte(p, p.len() as int, b, u) == Some(
                if u < va_of(b, i) + filesz_of(b, i) {
                    b[off_of(b, i) + u - va_of(b, i)]
                } else {
                    0u8
                },
            )
        }),
    decreases n,
{
    let p = elf::loads(b, n);
    let r = elf::loads(b, n - 1);
    lemma_prog(b, n - 1);
    if loads_at(b, n - 1) {
        let q = elf::prog_at(b, elf::phdr_at(b, n - 1));
        assert(p == r.push(q));
        lemma_prefix(r, q, r.len() as int, b, u);
        assert(p[p.len() - 1] == q);
        if i < n - 1 {
            lemma_loaded(b, n - 1, i, u);
            assert(!covers(b, n - 1, u));
        }
    } else {
        lemma_loaded(b, n - 1, i, u);
    }
}

/// A program starts with its segments in memory: each byte is the file's where
/// the file has one for it, and zero behind, unless a later segment lies over
/// it. (What lies over the arguments on the stack is theirs.)
pub proof fn law_segments_are_in_memory(
    s0: SchedV,
    m0: MemV,
    s: SchedV,
    m: MemV,
    pid: usize,
    data: Seq<u8>,
    av: Seq<Seq<u8>>,
    env: Seq<Seq<u8>>,
    ksp: u64,
    i: int,
    u: u64,
)
    requires
        proc::exec_done(s0, m0, s, m, pid, data, av, env, ksp),
        0 <= i < le2(data, 0x38),
        covers(data, i, u),
        forall|j: int| i < j < le2(data, 0x38) ==> !#[trigger] covers(data, j, u),
        u < 0x6fff_f000 || 0x7000_0000 <= u < VA_END,
    ensures
        space::umem(m, (s.procs[pid as int]->0).root, u) == Some(
            if u < va_of(data, i) + filesz_of(data, i) {
                data[off_of(data, i) + u - va_of(data, i)]
            } else {
                0u8
            },
        ),
{
    lemma_words(data, 0x38);
    let n = le2(data, 0x38);
    lemma_loaded(data, n, i, u);
    args::lemma_layout(av, env);
    let progs = elf::loads(data, n);
    let f = |x: u64| image::image_byte(progs, data, x);
    assert(f(u) == image::image_byte(progs, data, u));
}

/// Rights of a segment's pages: the bits for reading, writing and executing.
pub proof fn law_rights_of_a_segment(f: u32)
    ensures
        elf::flags_for(f) == (if f & 4 != 0 { 2int } else { 0 }) + (if f & 2 != 0 { 4int } else { 0 }) + (if f & 1 != 0 {
            8int
        } else {
            0
        }),
{
}

proof fn lemma_break(b: Seq<u8>, n: int)
    requires
        0 <= n,
    ensures
        ({
            let p = elf::loads(b, n);
            let e = image::segs_end(p, p.len() as int);
            &&& e >= 0 && e % 4096 == 0
            &&& forall|i: int| 0 <= i < n && #[trigger] loads_at(b, i) ==> va_of(b, i) + memsz_of(b, i) <= e
            &&& e > 0 ==> exists|i: int| 0 <= i < n && #[trigger] loads_at(b, i) && e < va_of(b, i) + memsz_of(b, i) + 4096
        }),
    decreases n,
{
    if n > 0 {
        lemma_break(b, n - 1);
        lemma_prog(b, n - 1);
        let p = elf::loads(b, n);
        let r = elf::loads(b, n - 1);
        let e = image::segs_end(p, p.len() as int);
        if loads_at(b, n - 1) {
            let q = elf::prog_at(b, elf::phdr_at(b, n - 1));
            assert(p == r.push(q));
            lemma_prefix(r, q, r.len() as int, b, 0);
            assert(p[p.len() - 1] == q);
        }
        if e > 0 {
            let d = image::segs_end(r, r.len() as int);
            if e == d {
                let i = choose|i: int|
                    0 <= i < n - 1 && #[trigger] loads_at(b, i) && d < va_of(b, i) + memsz_of(b, i) + 4096;
                assert(loads_at(b, i));
            } else {
                assert(loads_at(b, n - 1));
            }
        }
    }
}

/// The break a program starts with is the first page boundary behind all its
/// segments, or the least there is, 128 KiB.
pub proof fn law_break_is_behind_the_segments(data: Seq<u8>)
    requires
        proc::loadable(data),
    ensures
        ({
            let n = le2(data, 0x38);
            let e = proc::start_brk(data);
            &&& forall|i: int| 0 <= i < n && #[trigger] loads_at(data, i) ==> va_of(data, i) + memsz_of(data, i) <= e
            &&& e == 0x2_0000 || (e % 4096 == 0 && exists|i: int|
                0 <= i < n && #[trigger] loads_at(data, i) && e < va_of(data, i) + memsz_of(data, i) + 4096)
        }),
{
    lemma_words(data, 0x38);
    let n = le2(data, 0x38);
    lemma_break(data, n);
    let p = elf::loads(data, n);
    lemma_end_bound(p, p.len() as int, data.len());
}

proof fn lemma_end_bound(p: Seq<Prog>, n: int, len: nat)
    requires
        0 <= n <= p.len(),
        image::segs_ok(p, len),
    ensures
        0 <= image::segs_end(p, n) <= VA_END + 4096,
    decreases n,
{
    if n > 0 {
        lemma_end_bound(p, n - 1, len);
        assert(image::seg_ok(p[n - 1], len));
    }
}

// ---- arguments ----

/// The text of an argument that is laid down whole.
pub open spec fn ended(s: Seq<u8>) -> Seq<u8> {
    s.push(0)
}

/// A program finds, at its stack pointer, how many arguments it has, and behind
/// that the address of each, where its text is, with a zero at its end.
pub proof fn law_arguments_are_found(
    s0: SchedV,
    m0: MemV,
    s: SchedV,
    m: MemV,
    pid: usize,
    data: Seq<u8>,
    av: Seq<Seq<u8>>,
    env: Seq<Seq<u8>>,
    ksp: u64,
    i: int,
)
    requires
        proc::exec_done(s0, m0, s, m, pid, data, av, env, ksp),
        m0.ram[frame::fi((s0.procs[pid as int]->0).tf_pa)].len() == WORDS,
        av.len() <= 8,
        env.len() <= 16,
        0 <= i < av.len(),
        av[i].len() <= 127,
    ensures
        ({
            let root = (s.procs[pid as int]->0).root;
            let sp = m.ram[frame::fi((s0.procs[pid as int]->0).tf_pa)][2] as int;
            &&& sp % 16 == 0
            &&& args::holds(m, root, sp, args::le_bytes(av.len() as u64))
            &&& exists|a: u64|
                0x6fff_f000 <= a < 0x7000_0000 && args::holds(m, root, sp + 8 + 8 * i, #[trigger] args::le_bytes(a))
                    && args::holds(m, root, a as int, ended(av[i]))
        }),
{
    let root = (s.procs[pid as int]->0).root;
    let tf = (s0.procs[pid as int]->0).tf_pa;
    let sp = args::sp_of(av, env);
    let strs = args::all_strs(av, env);
    let t = args::table(av, env);
    args::law_start_contract(av, env);
    args::lemma_layout(av, env);
    args::lemma_addr_order(strs, i + 1, strs.len() as int);
    args::lemma_addr_bound(strs, i + 1);
    let a = args::addr_of(strs, i + 1) as u64;
    assert(strs[i] == av[i]);
    assert(args::clip(strs[i]) =~= ended(av[i]));
    assert(args::holds(m, root, args::addr_of(strs, i + 1), args::clip(strs[i])));
    assert(t[1 + i] == a);
    assert(t[0] == av.len());
    lemma_word_held(m, root, sp, t, 0);
    lemma_word_held(m, root, sp, t, 1 + i);
    assert(args::holds(m, root, sp + 8 + 8 * i, args::le_bytes(a)));
    assert(m.ram[frame::fi(tf)][2] == sp);
}

proof fn lemma_word_held(m: MemV, root: u64, sp: int, t: Seq<u64>, k: int)
    requires
        0 <= k < t.len(),
        args::holds(m, root, sp, args::words_bytes(t)),
    ensures
        args::holds(m, root, sp + 8 * k, args::le_bytes(t[k])),
{
    let w = args::words_bytes(t);
    let l = args::le_bytes(t[k]);
    assert forall|u: u64| u < VA_END && sp + 8 * k <= u < sp + 8 * k + l.len() implies #[trigger] space::umem(
        m,
        root,
        u,
    ) == Some(l[u - (sp + 8 * k)]) by {
        let x = u - sp;
        assert(x / 8 == k && x % 8 == x - 8 * k);
        assert(w[x] == l[x - 8 * k]);
    }
}

} // verus!
