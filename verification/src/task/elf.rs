//! 64-bit little-endian ELF executables.
use crate::mem::pagetable as pt;
use crate::mem::pagetable::{PTE_R, PTE_W, PTE_X};
use vstd::prelude::*;

verus! {

/// A segment to load.
#[derive(Clone, Copy, PartialEq, Eq, Structural, Debug)]
pub struct Prog {
    pub vaddr: u64,
    pub filesz: u64,
    pub memsz: u64,
    pub flags: u32,
    pub offset: u64,
}

pub struct ElfInfo {
    pub entry: u64,
    pub progs: Vec<Prog>,
}

/// Most program headers accepted.
pub const MAX_PHDR: u16 = 8;

/// Size of a program header.
pub const PHDR: u64 = 56;

pub open spec fn u16_at(b: Seq<u8>, o: int) -> u16 {
    (b[o] + b[o + 1] * 0x100) as u16
}

pub open spec fn u32_at(b: Seq<u8>, o: int) -> u32 {
    (b[o] + b[o + 1] * 0x100 + b[o + 2] * 0x1_0000 + b[o + 3] * 0x100_0000) as u32
}

pub open spec fn u64_at(b: Seq<u8>, o: int) -> u64 {
    (u32_at(b, o) + u32_at(b, o + 4) * 0x1_0000_0000) as u64
}

/// Magic, class and byte order are right, and there are not too many program
/// headers.
pub open spec fn header_ok(b: Seq<u8>) -> bool {
    &&& b.len() >= 64
    &&& b[0] == 0x7f
    &&& b[1] == 0x45
    &&& b[2] == 0x4c
    &&& b[3] == 0x46
    &&& b[4] == 2
    &&& b[5] == 1
    &&& u16_at(b, 0x38) <= MAX_PHDR
}

/// Offset of program header `i`.
pub open spec fn phdr_at(b: Seq<u8>, i: int) -> int {
    u64_at(b, 0x20) + i * u16_at(b, 0x36)
}

/// Every program header lies within the file.
pub open spec fn phdrs_inside(b: Seq<u8>, n: int) -> bool {
    forall|i: int| 0 <= i < n ==> #[trigger] phdr_at(b, i) + PHDR <= b.len()
}

pub open spec fn prog_at(b: Seq<u8>, o: int) -> Prog {
    Prog {
        vaddr: u64_at(b, o + 16),
        filesz: u64_at(b, o + 32),
        memsz: u64_at(b, o + 40),
        flags: u32_at(b, o + 4),
        offset: u64_at(b, o + 8),
    }
}

/// The loadable segments among the first `n` program headers, in order.
pub open spec fn loads(b: Seq<u8>, n: int) -> Seq<Prog>
    decreases n,
{
    if n <= 0 {
        Seq::empty()
    } else if u32_at(b, phdr_at(b, n - 1)) == 1 {
        loads(b, n - 1).push(prog_at(b, phdr_at(b, n - 1)))
    } else {
        loads(b, n - 1)
    }
}

pub open spec fn elf_ok(b: Seq<u8>) -> bool {
    header_ok(b) && phdrs_inside(b, u16_at(b, 0x38) as int)
}

fn le16(b: &[u8], o: usize) -> (v: u16)
    requires
        o + 2 <= b@.len(),
    ensures
        v == u16_at(b@, o as int),
{
    b[o] as u16 + b[o + 1] as u16 * 0x100
}

fn le32(b: &[u8], o: usize) -> (v: u32)
    requires
        o + 4 <= b@.len(),
    ensures
        v == u32_at(b@, o as int),
{
    b[o] as u32 + b[o + 1] as u32 * 0x100 + b[o + 2] as u32 * 0x1_0000 + b[o + 3] as u32 * 0x100_0000
}

fn le64(b: &[u8], o: usize) -> (v: u64)
    requires
        o + 8 <= b@.len(),
    ensures
        v == u64_at(b@, o as int),
{
    let n: usize = b.len();
    assert(o + 4 <= n);
    le32(b, o) as u64 + le32(b, o + 4) as u64 * 0x1_0000_0000
}

/// Reads the entry point and the loadable segments. None for anything but a
/// 64-bit little-endian file whose program headers, eight at most, lie within
/// it.
pub fn parse(elf: &[u8]) -> (r: Option<ElfInfo>)
    ensures
        r is Some <==> elf_ok(elf@),
        r matches Some(i) ==> i.entry == u64_at(elf@, 0x18) && i.progs@ == loads(
            elf@,
            u16_at(elf@, 0x38) as int,
        ),
{
    if elf.len() < 64 {
        return None;
    }
    if elf[0] != 0x7f || elf[1] != 0x45 || elf[2] != 0x4c || elf[3] != 0x46 {
        return None;
    }
    if elf[4] != 2 || elf[5] != 1 {
        return None;
    }
    let phoff = le64(elf, 0x20);
    let phentsz = le16(elf, 0x36);
    let phnum = le16(elf, 0x38);
    let entry = le64(elf, 0x18);
    if phnum > MAX_PHDR {
        return None;
    }
    let n: usize = elf.len();
    let len: u128 = n as u128;
    let mut progs: Vec<Prog> = Vec::new();
    let mut i: u16 = 0;
    while i < phnum
        invariant
            i <= phnum <= MAX_PHDR,
            n == elf@.len(),
            len == n,
            header_ok(elf@),
            phoff == u64_at(elf@, 0x20),
            phentsz == u16_at(elf@, 0x36),
            phnum == u16_at(elf@, 0x38),
            phdrs_inside(elf@, i as int),
            progs@ == loads(elf@, i as int),
        decreases phnum - i,
    {
        assert(i as int * phentsz as int <= 8 * 0xffff) by (nonlinear_arith)
            requires
                0 <= i <= 8,
                0 <= phentsz <= 0xffff,
        ;
        let o128: u128 = phoff as u128 + i as u128 * phentsz as u128;
        assert(o128 == phdr_at(elf@, i as int));
        if o128 + PHDR as u128 > len {
            assert(!(phdr_at(elf@, i as int) + PHDR <= elf@.len()));
            return None;
        }
        let o: usize = o128 as usize;
        if le32(elf, o) == 1 {
            progs.push(
                Prog {
                    vaddr: le64(elf, o + 16),
                    filesz: le64(elf, o + 32),
                    memsz: le64(elf, o + 40),
                    flags: le32(elf, o + 4),
                    offset: le64(elf, o + 8),
                },
            );
        }
        i += 1;
    }
    Some(ElfInfo { entry, progs })
}

/// Page permissions for segment flags (4 read, 2 write, 1 execute).
pub open spec fn flags_for(f: u32) -> u64 {
    ((if f & 4 != 0 {
        PTE_R as int
    } else {
        0
    }) + (if f & 2 != 0 {
        PTE_W as int
    } else {
        0
    }) + (if f & 1 != 0 {
        PTE_X as int
    } else {
        0
    })) as u64
}

pub fn pte_flags_for(pflags: u32) -> (f: u64)
    ensures
        f == flags_for(pflags),
        pt::perm(f) == (pflags & 7 != 0),
{
    let r: u64 = if pflags & 4 != 0 {
        PTE_R
    } else {
        0
    };
    let w: u64 = if pflags & 2 != 0 {
        PTE_W
    } else {
        0
    };
    let x: u64 = if pflags & 1 != 0 {
        PTE_X
    } else {
        0
    };
    proof {
        lemma_flags_perm(pflags);
    }
    r + w + x
}

/// A segment with any permission gets a page permission.
pub proof fn lemma_flags_perm(f: u32)
    ensures
        pt::perm(flags_for(f)) == (f & 7 != 0),
        flags_for(f) <= 14,
{
    assert((f & 7 != 0) == (f & 4 != 0 || f & 2 != 0 || f & 1 != 0)) by (bit_vector);
    let v = flags_for(f);
    assert(v == 0 || v == 2 || v == 4 || v == 6 || v == 8 || v == 10 || v == 12 || v == 14);
    assert(0u64 & 14 == 0 && 2u64 & 14 == 2 && 4u64 & 14 == 4 && 6u64 & 14 == 6 && 8u64 & 14 == 8 && 10u64
        & 14 == 10 && 12u64 & 14 == 12 && 14u64 & 14 == 14) by (bit_vector);
}

} // verus!
