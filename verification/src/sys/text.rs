//! Strings and arguments out of user memory.
use crate::mem::frame::{Mem, MemV, PAGE_SIZE, RAM_BASE};
use crate::mem::pagetable as pt;
use crate::mem::space;
use crate::mem::space::VA_END;
use vstd::prelude::*;

verus! {

/// Longest path, and longest argument.
pub const MAX_PATH: usize = 4096;

pub const MAX_ARG: usize = 128;

pub const MAX_ARGS: usize = 8;

/// Whether bytes are UTF-8, as `std::str::from_utf8` tells: it succeeds
/// exactly on the bytes that encode some text.
#[verifier::external_body]
fn is_utf8(v: &[u8]) -> (r: bool)
    ensures
        r == vstd::utf8::valid_utf8(v@),
{
    std::str::from_utf8(v).is_ok()
}

/// One byte of user memory that is mapped.
pub fn user_byte(m: &Mem, root: u64, va: u64) -> (b: u8)
    requires
        m@.wf(),
        space::space_wf(m@, root),
        va < VA_END,
        space::umem(m@, root, va) is Some,
    ensures
        space::umem(m@, root, va) == Some(b),
{
    match pt::translate(m, root, va) {
        Some(pa) => {
            proof {
                space::lemma_user_pa(m@, root, va);
            }
            let f: usize = ((pa - RAM_BASE) / PAGE_SIZE) as usize;
            let i: usize = (pa % PAGE_SIZE / 8) as usize;
            assert(m@.ram[f as int] == m.ram@[f as int]@);
            let sh: u64 = 8 * (pa % 8);
            ((m.ram[f][i] >> sh) & 0xff) as u8
        },
        None => 0,
    }
}

/// Byte `k` from an address on.
pub open spec fn at(m: MemV, root: u64, ptr: u64, k: int) -> u8 {
    space::umem(m, root, (ptr + k) as u64)->0
}

pub open spec fn mapped(m: MemV, root: u64, ptr: u64, k: int) -> bool {
    ptr + k < VA_END && space::umem(m, root, (ptr + k) as u64) is Some
}

pub open spec fn range_mapped(m: MemV, root: u64, ptr: u64, len: int) -> bool {
    forall|k: int| 0 <= k < len ==> #[trigger] mapped(m, root, ptr, k)
}

/// How many bytes of a range are there before the first that is not.
pub open spec fn range_reached(m: MemV, root: u64, ptr: u64, len: int) -> int
    decreases len,
{
    if len <= 0 {
        0
    } else if range_mapped(m, root, ptr, len) {
        len
    } else {
        range_reached(m, root, ptr, len - 1)
    }
}

pub proof fn lemma_reached(m: MemV, root: u64, ptr: u64, len: int, k: int)
    requires
        0 <= k < len,
        range_mapped(m, root, ptr, k),
        !mapped(m, root, ptr, k),
    ensures
        range_reached(m, root, ptr, len) == k,
    decreases len,
{
    assert(!range_mapped(m, root, ptr, len));
    if len - 1 > k {
        lemma_reached(m, root, ptr, len - 1, k);
    } else {
        assert(range_reached(m, root, ptr, k) == k);
    }
}

/// Length of a string: up to a zero, `max` at most. Counted from `i` on.
pub open spec fn str_len(m: MemV, root: u64, ptr: u64, max: int, i: int) -> int
    decreases max - i,
{
    if i >= max || at(m, root, ptr, i) == 0 {
        i
    } else {
        str_len(m, root, ptr, max, i + 1)
    }
}

/// The string and the zero that ends it can be read.
pub open spec fn str_mapped(m: MemV, root: u64, ptr: u64, max: int) -> bool {
    forall|k: int| 0 <= k < max && k <= str_len(m, root, ptr, max, 0) ==> #[trigger] mapped(m, root, ptr, k)
}

pub open spec fn str_at(m: MemV, root: u64, ptr: u64, max: int) -> Seq<u8> {
    Seq::new(str_len(m, root, ptr, max, 0) as nat, |k: int| at(m, root, ptr, k))
}

pub proof fn lemma_str_len(m: MemV, root: u64, ptr: u64, max: int, i: int)
    requires
        i <= max,
    ensures
        i <= str_len(m, root, ptr, max, i) <= max,
    decreases max - i,
{
    if i < max && at(m, root, ptr, i) != 0 {
        lemma_str_len(m, root, ptr, max, i + 1);
    }
}

/// The bytes of a string, without the zero that ends it.
pub fn user_bytes(m: &Mem, root: u64, ptr: u64, max: usize) -> (v: Vec<u8>)
    requires
        m@.wf(),
        space::space_wf(m@, root),
        str_mapped(m@, root, ptr, max as int),
    ensures
        v@ == str_at(m@, root, ptr, max as int),
{
    let mut v: Vec<u8> = Vec::new();
    let mut i: usize = 0;
    let ghost n = str_len(m@, root, ptr, max as int, 0);
    proof {
        lemma_str_len(m@, root, ptr, max as int, 0);
    }
    while i < max
        invariant
            m@.wf(),
            space::space_wf(m@, root),
            str_mapped(m@, root, ptr, max as int),
            i <= max,
            i <= n <= max,
            n == str_len(m@, root, ptr, max as int, 0),
            n == str_len(m@, root, ptr, max as int, i as int),
            v@.len() == i,
            forall|k: int| 0 <= k < i ==> v@[k] == #[trigger] at(m@, root, ptr, k),
        decreases max - i,
    {
        assert(mapped(m@, root, ptr, i as int));
        let b = user_byte(m, root, ptr + i as u64);
        assert(b == at(m@, root, ptr, i as int));
        if b == 0 {
            assert(v@ =~= str_at(m@, root, ptr, max as int));
            return v;
        }
        proof {
            lemma_str_len(m@, root, ptr, max as int, i + 1);
        }
        v.push(b);
        i += 1;
    }
    assert(v@ =~= str_at(m@, root, ptr, max as int));
    v
}

/// A path out of user memory; None for the address 0 and for bytes that are
/// not text.
pub open spec fn path_at(m: MemV, root: u64, ptr: u64) -> Option<Seq<u8>> {
    if ptr == 0 || !vstd::utf8::valid_utf8(str_at(m, root, ptr, MAX_PATH as int)) {
        None
    } else {
        Some(str_at(m, root, ptr, MAX_PATH as int))
    }
}

pub fn user_str(m: &Mem, root: u64, ptr: u64) -> (r: Option<Vec<u8>>)
    requires
        m@.wf(),
        space::space_wf(m@, root),
        ptr != 0 ==> str_mapped(m@, root, ptr, MAX_PATH as int),
    ensures
        match r {
            Some(v) => path_at(m@, root, ptr) == Some(v@),
            None => path_at(m@, root, ptr) is None,
        },
{
    if ptr == 0 {
        return None;
    }
    let v = user_bytes(m, root, ptr, MAX_PATH);
    if is_utf8(v.as_slice()) {
        Some(v)
    } else {
        None
    }
}

// ---- arguments ----

/// Little-endian word of eight bytes.
pub open spec fn word_at(m: MemV, root: u64, ptr: u64) -> u64 {
    (at(m, root, ptr, 0) + at(m, root, ptr, 1) * 0x100 + at(m, root, ptr, 2) * 0x1_0000 + at(
        m,
        root,
        ptr,
        3,
    ) * 0x100_0000 + at(m, root, ptr, 4) * 0x1_0000_0000 + at(m, root, ptr, 5) * 0x100_0000_0000 + at(
        m,
        root,
        ptr,
        6,
    ) * 0x1_0000_0000_0000 + at(m, root, ptr, 7) * 0x100_0000_0000_0000) as u64
}

pub open spec fn word_mapped(m: MemV, root: u64, ptr: u64) -> bool {
    range_mapped(m, root, ptr, 8)
}

pub fn user_word(m: &Mem, root: u64, ptr: u64) -> (w: u64)
    requires
        m@.wf(),
        space::space_wf(m@, root),
        word_mapped(m@, root, ptr),
    ensures
        w == word_at(m@, root, ptr),
{
    assert(mapped(m@, root, ptr, 0) && mapped(m@, root, ptr, 1) && mapped(m@, root, ptr, 2) && mapped(
        m@,
        root,
        ptr,
        3,
    ) && mapped(m@, root, ptr, 4) && mapped(m@, root, ptr, 5) && mapped(m@, root, ptr, 6) && mapped(
        m@,
        root,
        ptr,
        7,
    ));
    let b0: u64 = user_byte(m, root, ptr) as u64;
    let b1: u64 = user_byte(m, root, ptr + 1) as u64;
    let b2: u64 = user_byte(m, root, ptr + 2) as u64;
    let b3: u64 = user_byte(m, root, ptr + 3) as u64;
    let b4: u64 = user_byte(m, root, ptr + 4) as u64;
    let b5: u64 = user_byte(m, root, ptr + 5) as u64;
    let b6: u64 = user_byte(m, root, ptr + 6) as u64;
    let b7: u64 = user_byte(m, root, ptr + 7) as u64;
    b0 + b1 * 0x100 + b2 * 0x1_0000 + b3 * 0x100_0000 + b4 * 0x1_0000_0000 + b5 * 0x100_0000_0000 + b6
        * 0x1_0000_0000_0000 + b7 * 0x100_0000_0000_0000
}

/// Address of argument `i`.
pub open spec fn arg_ptr(m: MemV, root: u64, argv: u64, i: int) -> u64 {
    word_at(m, root, (argv + 8 * i) as u64)
}

/// Number of arguments from `i` on: up to an address 0, eight at most.
pub open spec fn arg_count(m: MemV, root: u64, argv: u64, i: int) -> int
    decreases MAX_ARGS - i,
{
    if i >= MAX_ARGS || arg_ptr(m, root, argv, i) == 0 {
        i
    } else {
        arg_count(m, root, argv, i + 1)
    }
}

/// The address of argument `i`, and the argument if there is one, can be read.
pub open spec fn arg_ok(m: MemV, root: u64, argv: u64, i: int) -> bool {
    &&& word_mapped(m, root, (argv + 8 * i) as u64)
    &&& arg_ptr(m, root, argv, i) != 0 ==> str_mapped(m, root, arg_ptr(m, root, argv, i), MAX_ARG as int)
}

/// The arguments can be read.
pub open spec fn args_mapped(m: MemV, root: u64, argv: u64) -> bool {
    &&& argv + 8 * MAX_ARGS <= VA_END
    &&& forall|i: int|
        0 <= i < MAX_ARGS && i <= arg_count(m, root, argv, 0) ==> #[trigger] arg_ok(m, root, argv, i)
}

pub open spec fn arg_at(m: MemV, root: u64, argv: u64, i: int) -> Seq<u8> {
    str_at(m, root, arg_ptr(m, root, argv, i), MAX_ARG as int)
}

/// The arguments of a call; none for the address 0.
pub open spec fn args_at(m: MemV, root: u64, argv: u64) -> Seq<Seq<u8>> {
    Seq::new(
        if argv == 0 {
            0
        } else {
            arg_count(m, root, argv, 0) as nat
        },
        |i: int| arg_at(m, root, argv, i),
    )
}

pub proof fn lemma_arg_count(m: MemV, root: u64, argv: u64, i: int)
    requires
        i <= MAX_ARGS,
    ensures
        i <= arg_count(m, root, argv, i) <= MAX_ARGS,
    decreases MAX_ARGS - i,
{
    if i < MAX_ARGS && arg_ptr(m, root, argv, i) != 0 {
        lemma_arg_count(m, root, argv, i + 1);
    }
}

/// Copies the arguments of a program out of user memory: eight at most, each
/// cut at a hundred and twenty-eight bytes.
pub fn copy_args(m: &Mem, root: u64, argv: u64) -> (v: Vec<Vec<u8>>)
    requires
        m@.wf(),
        space::space_wf(m@, root),
        argv != 0 ==> args_mapped(m@, root, argv),
    ensures
        v@.len() == args_at(m@, root, argv).len(),
        forall|i: int| 0 <= i < v@.len() ==> (#[trigger] v@[i])@ == args_at(m@, root, argv)[i],
{
    let mut v: Vec<Vec<u8>> = Vec::new();
    if argv == 0 {
        return v;
    }
    let mut i: usize = 0;
    let ghost n = arg_count(m@, root, argv, 0);
    proof {
        lemma_arg_count(m@, root, argv, 0);
    }
    while i < MAX_ARGS
        invariant
            m@.wf(),
            space::space_wf(m@, root),
            argv != 0,
            args_mapped(m@, root, argv),
            i <= n <= MAX_ARGS,
            n == arg_count(m@, root, argv, 0),
            n == arg_count(m@, root, argv, i as int),
            v@.len() == i,
            forall|k: int| 0 <= k < i ==> (#[trigger] v@[k])@ == arg_at(m@, root, argv, k),
        decreases MAX_ARGS - i,
    {
        let ghost p0 = arg_ptr(m@, root, argv, i as int);
        assert(arg_ok(m@, root, argv, i as int));
        let p = user_word(m, root, argv + 8 * i as u64);
        assert(p == p0);
        if p == 0 {
            return v;
        }
        proof {
            lemma_arg_count(m@, root, argv, i + 1);
        }
        v.push(user_bytes(m, root, p, MAX_ARG));
        i += 1;
    }
    v
}

} // verus!
