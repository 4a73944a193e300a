//! The initial user stack: argument and environment strings with their
//! tables.
//!
//! From the stack pointer up: argument count, argument addresses and a zero,
//! environment count, environment addresses and a zero; above them the
//! strings, each with its terminating zero.
use crate::mem::frame::{Mem, MemV};
use crate::mem::pagetable as pt;
use crate::mem::space;
use crate::mem::space::VA_END;
use crate::task::state::USER_STACK_TOP;
use vstd::prelude::*;

verus! {

/// Most arguments and environment strings passed on.
pub const MAX_ARGS: usize = 8;

pub const MAX_ENV: usize = 16;

/// Bytes of a string passed on.
pub const MAX_STR: usize = 127;

/// Room the strings and tables take at most.
pub const ARG_AREA: u64 = 4096;

pub open spec fn min_int(a: int, b: int) -> int {
    if a <= b {
        a
    } else {
        b
    }
}

/// The strings of a list of vectors.
pub open spec fn strs_of(v: Seq<Vec<u8>>) -> Seq<Seq<u8>> {
    Seq::new(v.len(), |i: int| v[i]@)
}

/// A string as it is laid down: clipped, with a zero.
pub open spec fn clip(s: Seq<u8>) -> Seq<u8> {
    s.take(min_int(s.len() as int, MAX_STR as int)).push(0)
}

/// Address of the lowest of the first `n` strings.
pub open spec fn addr_of(strs: Seq<Seq<u8>>, n: int) -> int
    decreases n,
{
    if n <= 0 {
        USER_STACK_TOP as int
    } else {
        addr_of(strs, n - 1) - clip(strs[n - 1]).len()
    }
}

/// Strings laid down: the first eight arguments and the first sixteen
/// environment strings.
pub open spec fn all_strs(args: Seq<Seq<u8>>, env: Seq<Seq<u8>>) -> Seq<Seq<u8>> {
    args.take(min_int(args.len() as int, MAX_ARGS as int)) + env.take(
        min_int(env.len() as int, MAX_ENV as int),
    )
}

/// Words of the tables.
pub open spec fn table(args: Seq<Seq<u8>>, env: Seq<Seq<u8>>) -> Seq<u64> {
    let argc = min_int(args.len() as int, MAX_ARGS as int);
    let envc = min_int(env.len() as int, MAX_ENV as int);
    let strs = all_strs(args, env);
    seq![argc as u64] + Seq::new(argc as nat, |i: int| addr_of(strs, i + 1) as u64) + seq![0u64, envc as u64]
        + Seq::new(envc as nat, |i: int| addr_of(strs, argc + i + 1) as u64) + seq![0u64]
}

/// The stack pointer: below the strings and the tables, on a 16-byte
/// boundary.
pub open spec fn sp_of(args: Seq<Seq<u8>>, env: Seq<Seq<u8>>) -> int {
    let strs = all_strs(args, env);
    (addr_of(strs, strs.len() as int) / 8 * 8 - 8 * table(args, env).len()) / 16 * 16
}

/// Little-endian bytes of a word.
pub open spec fn le_bytes(v: u64) -> Seq<u8> {
    Seq::new(8, |k: int| space::byte_of(v, k as u64))
}

/// Little-endian bytes of words in order.
pub open spec fn words_bytes(w: Seq<u64>) -> Seq<u8> {
    Seq::new(8 * w.len(), |k: int| space::byte_of(w[k / 8], (k % 8) as u64))
}

/// The user reads these bytes at `va`.
pub open spec fn holds(m: MemV, root: u64, va: int, bytes: Seq<u8>) -> bool {
    forall|u: u64|
        u < VA_END && va <= u < va + bytes.len() ==> #[trigger] space::umem(m, root, u) == Some(
            bytes[u - va],
        )
}

/// Bounds of the layout.
pub proof fn lemma_addr_bound(strs: Seq<Seq<u8>>, n: int)
    requires
        0 <= n <= strs.len(),
    ensures
        USER_STACK_TOP - 128 * n <= addr_of(strs, n) <= USER_STACK_TOP - n,
    decreases n,
{
    if n > 0 {
        lemma_addr_bound(strs, n - 1);
    }
}

pub proof fn lemma_addr_order(strs: Seq<Seq<u8>>, i: int, n: int)
    requires
        0 <= i <= n <= strs.len(),
    ensures
        addr_of(strs, n) <= addr_of(strs, i),
    decreases n - i,
{
    if i < n {
        lemma_addr_order(strs, i, n - 1);
    }
}

/// Where strings and tables lie.
pub proof fn lemma_layout(args: Seq<Seq<u8>>, env: Seq<Seq<u8>>)
    ensures
        ({
            let strs = all_strs(args, env);
            let p = addr_of(strs, strs.len() as int);
            let sp = sp_of(args, env);
            &&& USER_STACK_TOP - ARG_AREA <= sp
            &&& sp % 16 == 0
            &&& sp + 8 * table(args, env).len() <= p <= USER_STACK_TOP
            &&& strs.len() <= 24
            &&& table(args, env).len() == strs.len() + 4
        }),
{
    let strs = all_strs(args, env);
    lemma_addr_bound(strs, strs.len() as int);
}

/// What is laid down: the strings, then the tables; the rest is untouched.
pub open spec fn laid(
    before: spec_fn(u64) -> Option<u8>,
    n: MemV,
    root: u64,
    args: Seq<Seq<u8>>,
    env: Seq<Seq<u8>>,
) -> bool {
    let strs = all_strs(args, env);
    let sp = sp_of(args, env);
    let t = table(args, env);
    &&& forall|i: int|
        0 <= i < strs.len() ==> holds(n, root, #[trigger] addr_of(strs, i + 1), clip(strs[i]))
    &&& holds(n, root, sp, words_bytes(t))
    &&& forall|u: u64|
        u < VA_END && (u < sp || sp + 8 * t.len() <= u < addr_of(strs, strs.len() as int)
            || USER_STACK_TOP <= u) ==> #[trigger] space::umem(n, root, u) == before(u)
}

/// What the user reads, address by address.
pub open spec fn seen(m: MemV, root: u64) -> spec_fn(u64) -> Option<u8> {
    |u: u64| space::umem(m, root, u)
}

fn clip_vec(s: &Vec<u8>) -> (r: Vec<u8>)
    ensures
        r@ == clip(s@),
        1 <= r@.len() <= 128,
{
    let n: usize = if s.len() < MAX_STR {
        s.len()
    } else {
        MAX_STR
    };
    let mut r: Vec<u8> = Vec::new();
    let mut i: usize = 0;
    while i < n
        invariant
            i <= n <= s@.len(),
            n <= MAX_STR,
            r@ == s@.take(i as int),
        decreases n - i,
    {
        r.push(s[i]);
        i += 1;
        assert(r@ =~= s@.take(i as int));
    }
    r.push(0);
    r
}

fn push_word(o: &mut Vec<u8>, v: u64)
    ensures
        final(o)@ == old(o)@ + le_bytes(v),
{
    let mut k: u64 = 0;
    while k < 8
        invariant
            k <= 8,
            o@ == old(o)@ + le_bytes(v).take(k as int),
        decreases 8 - k,
    {
        let sh: u64 = 8 * k;
        let b = (v >> sh) & 0xff;
        assert(b <= 0xff) by (bit_vector)
            requires
                b == (v >> sh) & 0xff,
        ;
        o.push(b as u8);
        k += 1;
        assert(o@ =~= old(o)@ + le_bytes(v).take(k as int));
    }
    assert(le_bytes(v).take(8) =~= le_bytes(v));
}

proof fn lemma_words_push(w: Seq<u64>, v: u64)
    ensures
        words_bytes(w.push(v)) == words_bytes(w) + le_bytes(v),
{
    assert(words_bytes(w.push(v)) =~= words_bytes(w) + le_bytes(v));
}

/// Writing elsewhere leaves bytes alone.
proof fn lemma_holds_kept(m: MemV, n: MemV, root: u64, va: int, bytes: Seq<u8>, wa: u64, data: Seq<u8>)
    requires
        holds(m, root, va, bytes),
        space::with_bytes(m, n, root, wa, data),
        wa + data.len() <= va || va + bytes.len() <= wa,
    ensures
        holds(n, root, va, bytes),
{
    assert forall|u: u64| u < VA_END && va <= u < va + bytes.len() implies #[trigger] space::umem(n, root, u)
        == Some(bytes[u - va]) by {
        assert(space::umem(m, root, u) == Some(bytes[u - va]));
    }
}

/// Lays arguments and environment down on a user stack that is mapped, and
/// returns the stack pointer.
pub fn push_args(m: &mut Mem, root: u64, args: &Vec<Vec<u8>>, env: &Vec<Vec<u8>>) -> (sp: u64)
    requires
        old(m)@.wf(),
        space::space_wf(old(m)@, root),
        space::backed(old(m)@, root, (USER_STACK_TOP - ARG_AREA) as u64, ARG_AREA as nat),
    ensures
        final(m)@.wf(),
        final(m)@.fa == old(m)@.fa,
        space::space_wf(final(m)@, root),
        space::space_only(old(m)@, final(m)@, root),
        pt::same_leaves(old(m)@, final(m)@, root),
        sp == sp_of(strs_of(args@), strs_of(env@)),
        laid(seen(old(m)@, root), final(m)@, root, strs_of(args@), strs_of(env@)),
{
    let ghost a0 = strs_of(args@);
    let ghost e0 = strs_of(env@);
    let ghost strs = all_strs(a0, e0);
    let ghost m0 = m@;
    let argc: usize = if args.len() < MAX_ARGS {
        args.len()
    } else {
        MAX_ARGS
    };
    let envc: usize = if env.len() < MAX_ENV {
        env.len()
    } else {
        MAX_ENV
    };
    let total: usize = argc + envc;
    let mut addrs: Vec<u64> = Vec::new();
    let mut p: u64 = USER_STACK_TOP;
    let mut i: usize = 0;
    proof {
        lemma_layout(a0, e0);
        space::lemma_only_refl(m0, root);
        lemma_addr_bound(strs, strs.len() as int);
    }
    while i < total
        invariant
            m0 == old(m)@,
            a0 == strs_of(args@),
            e0 == strs_of(env@),
            strs == all_strs(a0, e0),
            argc == min_int(args@.len() as int, MAX_ARGS as int),
            envc == min_int(env@.len() as int, MAX_ENV as int),
            total == argc + envc,
            total == strs.len(),
            total <= 24,
            i <= total,
            m@.wf(),
            m@.fa == m0.fa,
            space::space_wf(m@, root),
            space::space_only(m0, m@, root),
            pt::same_leaves(m0, m@, root),
            space::backed(m@, root, (USER_STACK_TOP - ARG_AREA) as u64, ARG_AREA as nat),
            p == addr_of(strs, i as int),
            USER_STACK_TOP - 128 * i <= p <= USER_STACK_TOP,
            addrs@.len() == i,
            forall|j: int| 0 <= j < i ==> #[trigger] addrs@[j] == addr_of(strs, j + 1),
            forall|j: int|
                0 <= j < i ==> holds(m@, root, #[trigger] addr_of(strs, j + 1), clip(strs[j])),
            forall|u: u64|
                u < VA_END && (u < p || USER_STACK_TOP <= u) ==> #[trigger] space::umem(m@, root, u)
                    == space::umem(m0, root, u),
        decreases total - i,
    {
        let ghost m1 = m@;
        let s = if i < argc {
            clip_vec(&args[i])
        } else {
            clip_vec(&env[i - argc])
        };
        assert(s@ == clip(strs[i as int]));
        let q: u64 = p - s.len() as u64;
        assert(q == addr_of(strs, i + 1));
        proof {
            assert forall|u: u64| q <= u < q + s@.len() implies #[trigger] space::umem(m1, root, u) is Some by {}
        }
        space::write_bytes_to(m, root, q, s.as_slice());
        proof {
            space::lemma_only_trans(m0, m1, m@, root);
            crate::mem::copy::lemma_leaves_trans(m0, m1, m@, root);
            assert forall|j: int| 0 <= j < i + 1 implies holds(
                m@,
                root,
                #[trigger] addr_of(strs, j + 1),
                clip(strs[j]),
            ) by {
                if j < i {
                    lemma_addr_order(strs, j + 1, i as int);
                    assert(addr_of(strs, i as int) <= addr_of(strs, j + 1));
                    lemma_holds_kept(
                        m1,
                        m@,
                        root,
                        addr_of(strs, j + 1),
                        clip(strs[j]),
                        q,
                        s@,
                    );
                }
            }
            assert forall|u: u64|
                (USER_STACK_TOP - ARG_AREA) as u64 <= u < (USER_STACK_TOP - ARG_AREA) as u64
                    + ARG_AREA implies #[trigger] space::umem(m@, root, u) is Some by {
                assert(space::umem(m1, root, u) is Some);
            }
        }
        addrs.push(q);
        p = q;
        i += 1;
    }
    let mut words: Vec<u8> = Vec::new();
    let ghost mut t: Seq<u64> = Seq::empty();
    assert(words@ =~= words_bytes(t));
    push_word(&mut words, argc as u64);
    proof {
        lemma_words_push(t, argc as u64);
        t = t.push(argc as u64);
    }
    let mut j: usize = 0;
    while j < argc
        invariant
            j <= argc <= addrs@.len(),
            words@ == words_bytes(t),
            t == seq![argc as u64] + addrs@.take(j as int),
        decreases argc - j,
    {
        push_word(&mut words, addrs[j]);
        proof {
            lemma_words_push(t, addrs@[j as int]);
            t = t.push(addrs@[j as int]);
        }
        j += 1;
        assert(t =~= seq![argc as u64] + addrs@.take(j as int));
    }
    push_word(&mut words, 0);
    push_word(&mut words, envc as u64);
    proof {
        lemma_words_push(t, 0);
        lemma_words_push(t.push(0), envc as u64);
        t = t.push(0).push(envc as u64);
    }
    let ghost t1 = t;
    while j < total
        invariant
            argc <= j <= total,
            total == addrs@.len(),
            words@ == words_bytes(t),
            t == t1 + addrs@.subrange(argc as int, j as int),
        decreases total - j,
    {
        push_word(&mut words, addrs[j]);
        proof {
            lemma_words_push(t, addrs@[j as int]);
            t = t.push(addrs@[j as int]);
        }
        j += 1;
        assert(t =~= t1 + addrs@.subrange(argc as int, j as int));
    }
    push_word(&mut words, 0);
    proof {
        lemma_words_push(t, 0);
        t = t.push(0);
        assert(t =~= table(a0, e0));
    }
    let sp: u64 = (p / 8 * 8 - words.len() as u64) / 16 * 16;
    assert(sp == sp_of(a0, e0));
    let ghost m2 = m@;
    proof {
        assert forall|u: u64| sp <= u < sp + words@.len() implies #[trigger] space::umem(m2, root, u) is Some by {}
    }
    space::write_bytes_to(m, root, sp, words.as_slice());
    proof {
        space::lemma_only_trans(m0, m2, m@, root);
        crate::mem::copy::lemma_leaves_trans(m0, m2, m@, root);
        assert forall|k: int| 0 <= k < strs.len() implies holds(
            m@,
            root,
            #[trigger] addr_of(strs, k + 1),
            clip(strs[k]),
        ) by {
            lemma_addr_order(strs, k + 1, strs.len() as int);
            lemma_holds_kept(m2, m@, root, addr_of(strs, k + 1), clip(strs[k]), sp, words@);
        }
        assert forall|u: u64|
            u < VA_END && (u < sp || sp + 8 * t.len() <= u < addr_of(strs, strs.len() as int)
                || USER_STACK_TOP <= u) implies #[trigger] space::umem(m@, root, u) == space::umem(
            m0,
            root,
            u,
        ) by {
            assert(space::umem(m2, root, u) == space::umem(m0, root, u));
        }
    }
    sp
}

/// The start-up contract: the stack pointer is 16-byte aligned; the argument
/// count is the word there, argument `i` is in the word `1 + i`, the
/// environment count follows the arguments' zero, environment string `i` is
/// in the word `3 + argc + i`, and both lists end with a zero.
pub proof fn law_start_contract(args: Seq<Seq<u8>>, env: Seq<Seq<u8>>)
    requires
        args.len() <= MAX_ARGS,
        env.len() <= MAX_ENV,
    ensures
        ({
            let t = table(args, env);
            let strs = all_strs(args, env);
            &&& sp_of(args, env) % 16 == 0
            &&& t[0] == args.len()
            &&& forall|i: int| 0 <= i < args.len() ==> #[trigger] t[1 + i] == addr_of(strs, i + 1)
            &&& t[args.len() as int + 1] == 0
            &&& t[args.len() as int + 2] == env.len()
            &&& forall|i: int|
                0 <= i < env.len() ==> #[trigger] t[args.len() as int + 3 + i] == addr_of(
                    strs,
                    args.len() + i + 1,
                )
            &&& t[args.len() as int + env.len() as int + 3] == 0
            &&& forall|i: int| 0 <= i < args.len() ==> #[trigger] strs[i] == args[i]
            &&& forall|i: int| 0 <= i < env.len() ==> #[trigger] strs[args.len() + i] == env[i]
        }),
{
    let strs = all_strs(args, env);
    lemma_layout(args, env);
    assert forall|n: int| 0 <= n <= strs.len() implies USER_STACK_TOP - 128 * n <= #[trigger] addr_of(
        strs,
        n,
    ) <= USER_STACK_TOP by {
        lemma_addr_bound(strs, n);
    }
}

} // verus!
