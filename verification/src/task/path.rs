//! Working directories, file-system jails and path resolution.
use crate::task::proc;
use crate::task::state;
use crate::task::state::{ProcV, Sched, SchedV, State};
use crate::user::fmt;
use vstd::prelude::*;

verus! {

/// Longest path.
pub const MAX_PATH: usize = 127;

// ---- components ----

/// Index of the first `/` at or after `i`; the length if there is none.
pub open spec fn slash(s: Seq<u8>, i: int) -> int
    decreases s.len() - i,
{
    if i >= s.len() || s[i] == 0x2f {
        i
    } else {
        slash(s, i + 1)
    }
}

/// A component that changes nothing: empty, or a dot.
pub open spec fn noop(c: Seq<u8>) -> bool {
    c.len() == 0 || c == seq![0x2eu8]
}

pub open spec fn dotdot(c: Seq<u8>) -> bool {
    c == seq![0x2eu8, 0x2eu8]
}

/// The components after `c` follows: `..` takes one off, but never below
/// `base`.
pub open spec fn step(parts: Seq<Seq<u8>>, c: Seq<u8>, base: int) -> Seq<Seq<u8>> {
    if noop(c) {
        parts
    } else if dotdot(c) {
        if parts.len() > base {
            parts.drop_last()
        } else {
            parts
        }
    } else {
        parts.push(c)
    }
}

/// The components after the rest of `s` from `i` on follows.
pub open spec fn walk(parts: Seq<Seq<u8>>, s: Seq<u8>, i: int, base: int) -> Seq<Seq<u8>>
    decreases s.len() - i,
    when 0 <= i
{
    let j = slash(s, i);
    let p = step(parts, s.subrange(i, j), base);
    if j >= s.len() || j < i {
        p
    } else {
        walk(p, s, j + 1, base)
    }
}

/// Components joined by slashes.
pub open spec fn join(parts: Seq<Seq<u8>>) -> Seq<u8>
    decreases parts.len(),
{
    if parts.len() == 0 {
        Seq::empty()
    } else if parts.len() == 1 {
        parts[0]
    } else {
        join(parts.drop_last()) + seq![0x2fu8] + parts.last()
    }
}

/// Without its leading slashes.
pub open spec fn trim(s: Seq<u8>) -> Seq<u8>
    decreases s.len(),
{
    if s.len() > 0 && s[0] == 0x2f {
        trim(s.skip(1))
    } else {
        s
    }
}

/// Components of the jail.
pub open spec fn jail(root: Seq<u8>) -> Seq<Seq<u8>> {
    walk(Seq::empty(), root, 0, 0)
}

/// What follows the jail: an absolute path without its slash, a relative one
/// behind the working directory.
pub open spec fn below(cwd: Seq<u8>, path: Seq<u8>) -> Seq<u8> {
    if path.len() > 0 && path[0] == 0x2f {
        path.skip(1)
    } else {
        trim(cwd) + seq![0x2fu8] + path
    }
}

/// Components of a path as seen from within the jail.
pub open spec fn resolved(root: Seq<u8>, cwd: Seq<u8>, path: Seq<u8>) -> Seq<Seq<u8>> {
    walk(jail(root), below(cwd, path), 0, jail(root).len() as int)
}

/// The path that components spell, cut to the longest length.
pub open spec fn spelled(parts: Seq<Seq<u8>>) -> Seq<u8> {
    let p = seq![0x2fu8] + join(parts);
    if p.len() > MAX_PATH {
        p.take(MAX_PATH as int)
    } else {
        p
    }
}

pub open spec fn view_of(v: Seq<Vec<u8>>) -> Seq<Seq<u8>> {
    Seq::new(v.len(), |i: int| v[i]@)
}

fn copy_range(s: &[u8], i: usize, j: usize) -> (r: Vec<u8>)
    requires
        i <= j <= s@.len(),
    ensures
        r@ == s@.subrange(i as int, j as int),
{
    let mut r: Vec<u8> = Vec::new();
    let mut k: usize = i;
    while k < j
        invariant
            i <= k <= j <= s@.len(),
            r@ == s@.subrange(i as int, k as int),
        decreases j - k,
    {
        r.push(s[k]);
        k += 1;
        assert(r@ =~= s@.subrange(i as int, k as int));
    }
    r
}

/// Has the components of `s` follow.
fn follow(parts: &mut Vec<Vec<u8>>, s: &[u8], base: usize)
    ensures
        view_of(final(parts)@) == walk(view_of(old(parts)@), s@, 0, base as int),
{
    let n: usize = s.len();
    let ghost p0 = view_of(parts@);
    let mut i: usize = 0;
    let mut go = true;
    while go
        invariant
            n == s@.len(),
            go ==> i <= n && walk(p0, s@, 0, base as int) == walk(
                view_of(parts@),
                s@,
                i as int,
                base as int,
            ),
            !go ==> view_of(parts@) == walk(p0, s@, 0, base as int),
        decreases (if go {
            n + 1 - i
        } else {
            0
        }),
    {
        let ghost pv = view_of(parts@);
        let mut j: usize = i;
        while j < n && s[j] != 0x2f
            invariant
                n == s@.len(),
                i <= j <= n,
                slash(s@, i as int) == slash(s@, j as int),
            decreases n - j,
        {
            j += 1;
        }
        let c = copy_range(s, i, j);
        let ghost cv = c@;
        if c.len() == 0 || (c.len() == 1 && c[0] == 0x2e) {
            proof {
                if cv.len() == 1 {
                    assert(cv =~= seq![0x2eu8]);
                }
            }
        } else if c.len() == 2 && c[0] == 0x2e && c[1] == 0x2e {
            assert(cv =~= seq![0x2eu8, 0x2eu8]);
            if parts.len() > base {
                let _ = parts.pop();
            }
            assert(view_of(parts@) =~= step(pv, cv, base as int));
        } else {
            proof {
                assert(cv != seq![0x2eu8]);
                if cv == seq![0x2eu8, 0x2eu8] {
                    assert(cv.len() == 2 && cv[0] == 0x2e && cv[1] == 0x2e);
                }
            }
            parts.push(c);
            assert(view_of(parts@) =~= step(pv, cv, base as int));
        }
        assert(view_of(parts@) == step(pv, cv, base as int));
        if j >= n {
            go = false;
        } else {
            i = j + 1;
        }
    }
}

/// The components joined behind a slash.
fn spell(parts: &Vec<Vec<u8>>) -> (r: Vec<u8>)
    ensures
        r@ == spelled(view_of(parts@)),
{
    let ghost pv = view_of(parts@);
    let mut out: Vec<u8> = Vec::new();
    out.push(0x2f);
    let mut i: usize = 0;
    assert(pv.take(0) =~= Seq::empty());
    assert(out@ =~= seq![0x2fu8] + join(pv.take(0)));
    while i < parts.len()
        invariant
            i <= parts@.len(),
            pv == view_of(parts@),
            out@ == seq![0x2fu8] + join(pv.take(i as int)),
        decreases parts@.len() - i,
    {
        let ghost o0 = out@;
        if i > 0 {
            out.push(0x2f);
        }
        let ghost o1 = out@;
        let c = &parts[i];
        let mut k: usize = 0;
        while k < c.len()
            invariant
                k <= c@.len(),
                out@ == o1 + c@.take(k as int),
            decreases c@.len() - k,
        {
            out.push(c[k]);
            k += 1;
            assert(out@ =~= o1 + c@.take(k as int));
        }
        proof {
            assert(c@.take(k as int) =~= c@);
            let t = pv.take(i + 1);
            assert(t.drop_last() =~= pv.take(i as int));
            assert(t.last() == c@);
            if i == 0 {
                assert(t[0] == c@);
                assert(out@ =~= seq![0x2fu8] + join(t));
            } else {
                assert(out@ =~= seq![0x2fu8] + join(t));
            }
        }
        i += 1;
    }
    assert(pv.take(i as int) =~= pv);
    if out.len() > MAX_PATH {
        let ghost o = out@;
        out.truncate(MAX_PATH);
        assert(out@ =~= o.take(MAX_PATH as int));
    }
    out
}

/// Resolves a path within the jail `root`: absolute paths start at the jail,
/// others at the working directory within it, and `..` stops at the jail.
pub fn resolve_path(root: &[u8], cwd: &[u8], path: &[u8]) -> (r: Vec<u8>)
    ensures
        r@ == spelled(resolved(root@, cwd@, path@)),
{
    let mut parts: Vec<Vec<u8>> = Vec::new();
    assert(view_of(parts@) =~= Seq::empty());
    follow(&mut parts, root, 0);
    let base: usize = parts.len();
    assert(view_of(parts@).len() == base);
    if path.len() > 0 && path[0] == 0x2f {
        let rest = copy_range(path, 1, path.len());
        assert(rest@ =~= path@.skip(1));
        follow(&mut parts, rest.as_slice(), base);
    } else {
        let mut t: usize = 0;
        let n: usize = cwd.len();
        assert(cwd@.skip(0) =~= cwd@);
        while t < n && cwd[t] == 0x2f
            invariant
                n == cwd@.len(),
                t <= n,
                trim(cwd@) == trim(cwd@.skip(t as int)),
            decreases n - t,
        {
            assert(cwd@.skip(t as int).skip(1) =~= cwd@.skip(t + 1));
            t += 1;
        }
        let mut joined = copy_range(cwd, t, n);
        assert(joined@ =~= cwd@.skip(t as int));
        assert(joined@ == trim(cwd@));
        joined.push(0x2f);
        let ghost j0 = joined@;
        let mut k: usize = 0;
        while k < path.len()
            invariant
                k <= path@.len(),
                joined@ == j0 + path@.take(k as int),
            decreases path@.len() - k,
        {
            joined.push(path[k]);
            k += 1;
            assert(joined@ =~= j0 + path@.take(k as int));
        }
        assert(path@.take(k as int) =~= path@);
        assert(joined@ =~= below(cwd@, path@));
        follow(&mut parts, joined.as_slice(), base);
    }
    spell(&parts)
}

// ---- a process's directories ----

/// The working directory; `/` without such a process.
pub fn get_cwd(s: &Sched, pid: usize) -> (r: Vec<u8>)
    ensures
        r@ == match s@.proc(pid as int) {
            Some(p) => p.cwd,
            None => seq![0x2fu8],
        },
{
    if pid < s.procs.len() {
        assert(s@.procs[pid as int] == state::opt_proc(s.procs@[pid as int]));
        if let Some(p) = &s.procs[pid] {
            return proc::clone_bytes(&p.cwd);
        }
    }
    proc::slash()
}

/// The jail; `/` without such a process.
pub fn get_root(s: &Sched, pid: usize) -> (r: Vec<u8>)
    ensures
        r@ == match s@.proc(pid as int) {
            Some(p) => p.fsroot,
            None => seq![0x2fu8],
        },
{
    if pid < s.procs.len() {
        assert(s@.procs[pid as int] == state::opt_proc(s.procs@[pid as int]));
        if let Some(p) = &s.procs[pid] {
            return proc::clone_bytes(&p.fsroot);
        }
    }
    proc::slash()
}

/// An absolute path that is not too long.
pub open spec fn dir_ok(d: Seq<u8>) -> bool {
    0 < d.len() <= MAX_PATH && d[0] == 0x2f
}

/// Sets the working directory. False for a path that is not absolute or too
/// long, and without such a process.
pub fn set_cwd(s: &mut Sched, pid: usize, cwd: &[u8]) -> (ok: bool)
    ensures
        ok == (dir_ok(cwd@) && old(s)@.proc(pid as int) is Some),
        !ok ==> final(s)@ == old(s)@,
        ok ==> final(s)@ == old(s)@.with_proc(
            pid as int,
            ProcV { cwd: cwd@, ..old(s)@.procs[pid as int]->0 },
        ),
{
    let n: usize = cwd.len();
    if n == 0 || cwd[0] != 0x2f || n > MAX_PATH {
        return false;
    }
    if pid < s.procs.len() {
        assert(s@.procs[pid as int] == state::opt_proc(s.procs@[pid as int]));
        if let Some(p) = &mut s.procs[pid] {
            p.cwd = copy_range(cwd, 0, n);
            proof {
                assert(cwd@.subrange(0, n as int) =~= cwd@);
                let q = old(s)@.procs[pid as int]->0;
                assert(s@.procs[pid as int]->0 =~= ProcV { cwd: cwd@, ..q });
                assert(s@ =~= old(s)@.with_proc(pid as int, ProcV { cwd: cwd@, ..q }));
            }
            return true;
        }
    }
    assert(s@ =~= old(s)@);
    false
}

/// Confines a process to a directory and takes it there. False for a path
/// that is not absolute or too long, and without such a process.
pub fn set_root(s: &mut Sched, pid: usize, root: &[u8]) -> (ok: bool)
    ensures
        ok == (dir_ok(root@) && old(s)@.proc(pid as int) is Some),
        !ok ==> final(s)@ == old(s)@,
        ok ==> final(s)@ == old(s)@.with_proc(
            pid as int,
            ProcV { fsroot: root@, cwd: seq![0x2fu8], ..old(s)@.procs[pid as int]->0 },
        ),
{
    let n: usize = root.len();
    if n == 0 || root[0] != 0x2f || n > MAX_PATH {
        return false;
    }
    if pid < s.procs.len() {
        assert(s@.procs[pid as int] == state::opt_proc(s.procs@[pid as int]));
        if let Some(p) = &mut s.procs[pid] {
            p.fsroot = copy_range(root, 0, n);
            p.cwd = proc::slash();
            proof {
                assert(root@.subrange(0, n as int) =~= root@);
                let q = old(s)@.procs[pid as int]->0;
                let w = ProcV { fsroot: root@, cwd: seq![0x2fu8], ..q };
                assert(s@.procs[pid as int]->0 =~= w);
                assert(s@ =~= old(s)@.with_proc(pid as int, w));
            }
            return true;
        }
    }
    assert(s@ =~= old(s)@);
    false
}

/// Resolves a path as the process sees it.
pub fn resolve_for(s: &Sched, pid: usize, path: &[u8]) -> (r: Vec<u8>)
    ensures
        r@ == match s@.proc(pid as int) {
            Some(p) => spelled(resolved(p.fsroot, p.cwd, path@)),
            None => spelled(resolved(seq![0x2fu8], seq![0x2fu8], path@)),
        },
{
    let root = get_root(s, pid);
    let cwd = get_cwd(s, pid);
    resolve_path(root.as_slice(), cwd.as_slice(), path)
}

// ---- laws ----

/// The components kept below `base` are never touched.
proof fn lemma_walk_base(parts: Seq<Seq<u8>>, s: Seq<u8>, i: int, base: int)
    requires
        0 <= i,
        0 <= base <= parts.len(),
    ensures
        walk(parts, s, i, base).len() >= base,
        walk(parts, s, i, base).take(base) == parts.take(base),
    decreases s.len() - i,
{
    let j = slash(s, i);
    let p = step(parts, s.subrange(i, j), base);
    assert(p.take(base) =~= parts.take(base));
    if !(j >= s.len() || j < i) {
        lemma_walk_base(p, s, j + 1, base);
    }
}

/// A part of the components spells a beginning of the whole.
proof fn lemma_join_prefix(parts: Seq<Seq<u8>>, k: int)
    requires
        0 <= k <= parts.len(),
    ensures
        join(parts.take(k)).len() <= join(parts).len(),
        join(parts).take(join(parts.take(k)).len() as int) == join(parts.take(k)),
        0 < k < parts.len() ==> join(parts).len() > join(parts.take(k)).len() && join(parts)[join(
            parts.take(k),
        ).len() as int] == 0x2f,
    decreases parts.len(),
{
    if k == parts.len() {
        assert(parts.take(k) =~= parts);
        assert(join(parts).take(join(parts).len() as int) =~= join(parts));
    } else if k == 0 {
        assert(parts.take(0) =~= Seq::empty());
        assert(join(parts).take(0) =~= join(parts.take(0)));
    } else {
        let d = parts.drop_last();
        assert(d.take(k) =~= parts.take(k));
        lemma_join_prefix(d, k);
        let a = join(d);
        let b = join(parts.take(k));
        assert(join(parts) == a + seq![0x2fu8] + parts.last());
        assert(join(parts).take(b.len() as int) =~= a.take(b.len() as int));
        if k == d.len() {
            assert(d.take(k) =~= d);
        }
    }
}

/// Nobody leaves their jail: whatever the path, the resolved components begin
/// with the jail's, and what is spelled begins with the jail's path, followed
/// by a slash or nothing.
pub proof fn law_jail_holds(root: Seq<u8>, cwd: Seq<u8>, path: Seq<u8>)
    requires
        join(jail(root)).len() < MAX_PATH,
    ensures
        ({
            let parts = resolved(root, cwd, path);
            let own = spelled(jail(root));
            let out = spelled(parts);
            &&& jail(root).len() <= parts.len()
            &&& parts.take(jail(root).len() as int) == jail(root)
            &&& out.len() >= own.len()
            &&& out.take(own.len() as int) == own
            &&& jail(root).len() > 0 && out.len() > own.len() ==> out[own.len() as int] == 0x2f
        }),
{
    let base = jail(root).len() as int;
    let parts = resolved(root, cwd, path);
    lemma_walk_base(jail(root), below(cwd, path), 0, base);
    assert(jail(root).take(base) =~= jail(root));
    lemma_join_prefix(parts, base);
    let a = seq![0x2fu8] + join(jail(root));
    let b = seq![0x2fu8] + join(parts);
    assert(b.take(a.len() as int) =~= a) by {
        assert forall|i: int| 0 <= i < a.len() implies b[i] == a[i] by {
            if i > 0 {
                assert(join(parts).take(join(jail(root)).len() as int)[i - 1] == join(jail(root))[i - 1]);
            }
        }
    }
    assert(spelled(parts).take(a.len() as int) =~= a);
    if base > 0 && spelled(parts).len() > a.len() {
        if parts.len() == base {
            assert(parts =~= jail(root));
        }
        assert(b[a.len() as int] == join(parts)[a.len() - 1]);
    }
}

/// Components that were put down are names: not empty, not a dot, not two.
proof fn lemma_walk_names(parts: Seq<Seq<u8>>, s: Seq<u8>, i: int, base: int)
    requires
        0 <= i,
        0 <= base,
        forall|k: int| 0 <= k < parts.len() ==> !noop(#[trigger] parts[k]) && !dotdot(parts[k]),
    ensures
        forall|k: int|
            0 <= k < walk(parts, s, i, base).len() ==> !noop(#[trigger] walk(parts, s, i, base)[k])
                && !dotdot(walk(parts, s, i, base)[k]),
    decreases s.len() - i,
{
    let j = slash(s, i);
    let p = step(parts, s.subrange(i, j), base);
    assert forall|k: int| 0 <= k < p.len() implies !noop(#[trigger] p[k]) && !dotdot(p[k]) by {
        if k < parts.len() {
            assert(p[k] == parts[k]);
        }
    }
    let w = walk(parts, s, i, base);
    if j >= s.len() || j < i {
        assert(w == p);
    } else {
        lemma_walk_names(p, s, j + 1, base);
        assert(w == walk(p, s, j + 1, base));
    }
    assert forall|k: int| 0 <= k < w.len() implies !noop(#[trigger] w[k]) && !dotdot(w[k]) by {}
}

/// A resolved path is plain: it has no empty component, no `.` and no `..`.
pub proof fn law_resolved_is_plain(root: Seq<u8>, cwd: Seq<u8>, path: Seq<u8>)
    ensures
        forall|k: int|
            0 <= k < resolved(root, cwd, path).len() ==> !noop(#[trigger] resolved(root, cwd, path)[k])
                && !dotdot(resolved(root, cwd, path)[k]),
{
    lemma_walk_names(Seq::empty(), root, 0, 0);
    lemma_walk_names(jail(root), below(cwd, path), 0, jail(root).len() as int);
}

/// A component has no slash in it.
pub open spec fn whole(c: Seq<u8>) -> bool {
    forall|k: int| 0 <= k < c.len() ==> #[trigger] c[k] != 0x2f
}

/// Names: no slash, and none that has a meaning of its own.
pub open spec fn names(parts: Seq<Seq<u8>>) -> bool {
    forall|k: int|
        0 <= k < parts.len() ==> whole(#[trigger] parts[k]) && !noop(parts[k]) && !dotdot(parts[k])
}

proof fn lemma_slash(s: Seq<u8>, i: int)
    requires
        0 <= i <= s.len(),
    ensures
        i <= slash(s, i) <= s.len(),
        forall|k: int| i <= k < slash(s, i) ==> #[trigger] s[k] != 0x2f,
        slash(s, i) < s.len() ==> s[slash(s, i)] == 0x2f,
    decreases s.len() - i,
{
    if i < s.len() && s[i] != 0x2f {
        lemma_slash(s, i + 1);
    }
}

/// Components that were put down have no slash.
proof fn lemma_walk_whole(parts: Seq<Seq<u8>>, s: Seq<u8>, i: int, base: int)
    requires
        0 <= i <= s.len(),
        0 <= base,
        forall|k: int| 0 <= k < parts.len() ==> whole(#[trigger] parts[k]),
    ensures
        forall|k: int| 0 <= k < walk(parts, s, i, base).len() ==> whole(#[trigger] walk(parts, s, i, base)[k]),
    decreases s.len() - i,
{
    lemma_slash(s, i);
    let j = slash(s, i);
    let c = s.subrange(i, j);
    let p = step(parts, c, base);
    assert(whole(c)) by {
        assert forall|k: int| 0 <= k < c.len() implies #[trigger] c[k] != 0x2f by {
            assert(c[k] == s[i + k]);
        }
    }
    assert forall|k: int| 0 <= k < p.len() implies whole(#[trigger] p[k]) by {
        if k < parts.len() {
            assert(p[k] == parts[k]);
            assert(whole(parts[k]));
        } else {
            assert(p[k] == c);
        }
    }
    let w = walk(parts, s, i, base);
    if j >= s.len() {
        assert(w == p);
    } else {
        lemma_walk_whole(p, s, j + 1, base);
        assert(w == walk(p, s, j + 1, base));
    }
    assert forall|k: int| 0 <= k < w.len() implies whole(#[trigger] w[k]) by {}
}

/// The first slash is where a scan that passes no slash ends.
proof fn lemma_slash_is(s: Seq<u8>, i: int, j: int)
    requires
        0 <= i <= j <= s.len(),
        forall|k: int| i <= k < j ==> #[trigger] s[k] != 0x2f,
        j < s.len() ==> s[j] == 0x2f,
    ensures
        slash(s, i) == j,
    decreases j - i,
{
    if i < j {
        lemma_slash_is(s, i + 1, j);
    }
}

/// A last component follows what stands before it.
proof fn lemma_walk_last(acc: Seq<Seq<u8>>, a: Seq<u8>, c: Seq<u8>, i: int, base: int)
    requires
        0 <= i <= a.len(),
        whole(c),
    ensures
        walk(acc, a + seq![0x2fu8] + c, i, base) == step(walk(acc, a, i, base), c, base),
    decreases a.len() - i,
{
    let s = a + seq![0x2fu8] + c;
    lemma_slash(a, i);
    let j = slash(a, i);
    lemma_slash_is(s, i, j);
    assert(s.subrange(i, j) =~= a.subrange(i, j));
    let p = step(acc, a.subrange(i, j), base);
    if j < a.len() {
        lemma_walk_last(p, a, c, j + 1, base);
    } else {
        assert forall|k: int| j + 1 <= k < s.len() implies #[trigger] s[k] != 0x2f by {
            assert(s[k] == c[k - j - 1]);
        }
        lemma_slash_is(s, j + 1, s.len() as int);
        assert(s.subrange(j + 1, s.len() as int) =~= c);
        assert(walk(acc, a, i, base) == p);
        assert(walk(p, s, j + 1, base) == step(p, c, base));
    }
}

/// Names that were joined come apart again.
proof fn lemma_walk_join(parts: Seq<Seq<u8>>)
    requires
        names(parts),
    ensures
        walk(Seq::empty(), join(parts), 0, 0) == parts,
    decreases parts.len(),
{
    let none = Seq::<Seq<u8>>::empty();
    if parts.len() == 0 {
        assert(join(parts).subrange(0, 0) =~= Seq::empty());
        assert(parts =~= none);
    } else if parts.len() == 1 {
        let c = parts[0];
        lemma_slash_is(c, 0, c.len() as int);
        assert(c.subrange(0, c.len() as int) =~= c);
        assert(walk(none, c, 0, 0) =~= parts);
    } else {
        let d = parts.drop_last();
        assert(names(d)) by {
            assert forall|k: int| 0 <= k < d.len() implies whole(#[trigger] d[k]) && !noop(d[k]) && !dotdot(
                d[k],
            ) by {
                assert(d[k] == parts[k]);
            }
        }
        lemma_walk_join(d);
        lemma_walk_last(none, join(d), parts.last(), 0, 0);
        assert(parts.last() == parts[parts.len() - 1]);
        assert(d.push(parts.last()) =~= parts);
    }
}

/// A first byte moves everything by one.
proof fn lemma_walk_shift(acc: Seq<Seq<u8>>, s: Seq<u8>, i: int, base: int)
    requires
        0 <= i <= s.len(),
    ensures
        walk(acc, seq![0x2fu8] + s, i + 1, base) == walk(acc, s, i, base),
    decreases s.len() - i,
{
    let t = seq![0x2fu8] + s;
    lemma_slash(s, i);
    let j = slash(s, i);
    assert forall|k: int| i + 1 <= k < j + 1 implies #[trigger] t[k] != 0x2f by {
        assert(t[k] == s[k - 1]);
    }
    lemma_slash_is(t, i + 1, j + 1);
    assert(t.subrange(i + 1, j + 1) =~= s.subrange(i, j));
    if j < s.len() {
        lemma_walk_shift(step(acc, s.subrange(i, j), base), s, j + 1, base);
    }
}

/// A resolved path that was not cut stands for itself: it starts with a slash,
/// its components are the resolved ones, all of them names, the first of them
/// the jail's, and resolving it once more, from the root and outside any jail,
/// changes nothing.
pub proof fn law_resolved_path_stands(root: Seq<u8>, cwd: Seq<u8>, path: Seq<u8>)
    requires
        join(resolved(root, cwd, path)).len() < MAX_PATH,
    ensures
        ({
            let parts = resolved(root, cwd, path);
            let out = spelled(parts);
            let top = seq![0x2fu8];
            &&& out.len() > 0 && out[0] == 0x2f
            &&& jail(out) == parts
            &&& names(parts)
            &&& jail(root).len() <= parts.len() && parts.take(jail(root).len() as int) == jail(root)
            &&& resolved(top, top, root) == jail(root)
            &&& spelled(resolved(top, top, out)) == out
        }),
{
    let parts = resolved(root, cwd, path);
    let out = spelled(parts);
    let top = seq![0x2fu8];
    let none = Seq::<Seq<u8>>::empty();
    law_resolved_is_plain(root, cwd, path);
    lemma_walk_whole(none, root, 0, 0);
    lemma_walk_whole(jail(root), below(cwd, path), 0, jail(root).len() as int);
    lemma_walk_join(parts);
    assert(out == top + join(parts));
    lemma_root_step(none, join(parts));
    lemma_root_step(none, Seq::empty());
    assert(top + Seq::<u8>::empty() =~= top);
    assert(jail(top) =~= none) by {
        assert(Seq::<u8>::empty().subrange(0, 0) =~= Seq::empty());
    }
    assert(below(top, out) =~= join(parts));
    lemma_walk_base(jail(root), below(cwd, path), 0, jail(root).len() as int);
    assert(jail(root).take(jail(root).len() as int) =~= jail(root));
    lemma_top_resolves(root);
}

/// A leading slash adds nothing.
proof fn lemma_root_step(acc: Seq<Seq<u8>>, s: Seq<u8>)
    ensures
        walk(acc, seq![0x2fu8] + s, 0, 0) == walk(acc, s, 0, 0),
{
    let t = seq![0x2fu8] + s;
    lemma_slash_is(t, 0, 0);
    assert(t.subrange(0, 0) =~= Seq::empty());
    lemma_walk_shift(acc, s, 0, 0);
}

/// Outside any jail, from the root, a path resolves to its own components.
proof fn lemma_top_resolves(p: Seq<u8>)
    ensures
        resolved(seq![0x2fu8], seq![0x2fu8], p) == jail(p),
{
    let top = seq![0x2fu8];
    let none = Seq::<Seq<u8>>::empty();
    lemma_root_step(none, Seq::empty());
    assert(top + Seq::<u8>::empty() =~= top);
    assert(jail(top) =~= none) by {
        assert(Seq::<u8>::empty().subrange(0, 0) =~= Seq::empty());
    }
    if p.len() > 0 && p[0] == 0x2f {
        assert(p =~= top + p.skip(1));
        lemma_root_step(none, p.skip(1));
    } else {
        assert(top.skip(1) =~= Seq::empty());
        assert(trim(top.skip(1)) == top.skip(1));
        assert(trim(top) =~= Seq::empty());
        assert(below(top, p) =~= top + p);
        lemma_root_step(none, p);
    }
}

// ---- listing processes ----

pub open spec fn state_letter(s: State) -> u8 {
    match s {
        State::Running => 0x52,
        State::Runnable => 0x52,
        State::Blocked => 0x42,
        State::Zombie => 0x5a,
    }
}

impl SchedV {
    /// Namespace of the process that asks; the root without one.
    pub open spec fn asker_ns(self, caller: int) -> usize {
        match self.proc(caller) {
            Some(p) => p.ns,
            None => 0,
        }
    }

    /// A parent's id as seen from namespace `ns`.
    pub open spec fn parent_seen(self, p: ProcV, ns: usize) -> usize {
        match self.proc(p.parent as int) {
            Some(q) if q.ns == ns => q.lpid,
            _ => p.parent,
        }
    }

    /// One line: id, parent, state, break and working directory.
    pub open spec fn ps_line(self, p: ProcV, ns: usize) -> Seq<u8> {
        fmt::digits(p.lpid as nat, 10) + seq![0x20u8] + fmt::digits(
            self.parent_seen(p, ns) as nat,
            10,
        ) + seq![0x20u8, state_letter(p.state), 0x20u8] + fmt::digits(p.brk as nat, 10) + seq![0x20u8]
            + p.cwd + seq![0x0au8]
    }

    /// Lines of the processes below slot `n` in namespace `ns`.
    pub open spec fn ps_lines(self, ns: usize, n: int) -> Seq<u8>
        decreases n,
    {
        if n <= 0 {
            Seq::empty()
        } else {
            let r = self.ps_lines(ns, n - 1);
            match self.procs[n - 1] {
                Some(p) if p.ns == ns => r + self.ps_line(p, ns),
                _ => r,
            }
        }
    }
}

/// Decimal digits of `v` appended.
fn put_dec(out: &mut Vec<u8>, v: u64)
    ensures
        final(out)@ == old(out)@ + fmt::digits(v as nat, 10),
    decreases v,
{
    if v < 10 {
        out.push(0x30 + v as u8);
        assert(out@ =~= old(out)@ + fmt::digits(v as nat, 10));
    } else {
        put_dec(out, v / 10);
        out.push(0x30 + (v % 10) as u8);
        assert(out@ =~= old(out)@ + fmt::digits(v as nat, 10));
    }
}

fn put_bytes(out: &mut Vec<u8>, v: &Vec<u8>)
    ensures
        final(out)@ == old(out)@ + v@,
{
    let mut k: usize = 0;
    assert(v@.take(0) =~= Seq::empty());
    assert(out@ =~= old(out)@ + v@.take(0));
    while k < v.len()
        invariant
            k <= v@.len(),
            out@ == old(out)@ + v@.take(k as int),
        decreases v@.len() - k,
    {
        out.push(v[k]);
        k += 1;
        assert(out@ =~= old(out)@ + v@.take(k as int));
    }
    assert(v@.take(k as int) =~= v@);
}

/// One line per process the caller's namespace can see.
pub fn ps_snapshot(s: &Sched, caller: usize) -> (r: Vec<u8>)
    ensures
        r@ == s@.ps_lines(s@.asker_ns(caller as int), s@.procs.len() as int),
{
    let mut ns: usize = 0;
    if caller < s.procs.len() {
        assert(s@.procs[caller as int] == state::opt_proc(s.procs@[caller as int]));
        if let Some(p) = &s.procs[caller] {
            ns = p.ns;
        }
    }
    let mut out: Vec<u8> = Vec::new();
    let mut i: usize = 0;
    while i < s.procs.len()
        invariant
            i <= s.procs@.len(),
            out@ == s@.ps_lines(ns, i as int),
        decreases s.procs@.len() - i,
    {
        assert(s@.procs[i as int] == state::opt_proc(s.procs@[i as int]));
        if let Some(p) = &s.procs[i] {
            if p.ns == ns {
                let mut ppid: usize = p.parent;
                if p.parent < s.procs.len() {
                    assert(s@.procs[p.parent as int] == state::opt_proc(s.procs@[p.parent as int]));
                    if let Some(q) = &s.procs[p.parent] {
                        if q.ns == ns {
                            ppid = q.lpid;
                        }
                    }
                }
                let letter: u8 = match p.state {
                    State::Running => 0x52,
                    State::Runnable => 0x52,
                    State::Blocked => 0x42,
                    State::Zombie => 0x5a,
                };
                let ghost o0 = out@;
                put_dec(&mut out, p.lpid as u64);
                out.push(0x20);
                put_dec(&mut out, ppid as u64);
                out.push(0x20);
                out.push(letter);
                out.push(0x20);
                put_dec(&mut out, p.brk);
                out.push(0x20);
                put_bytes(&mut out, &p.cwd);
                out.push(0x0a);
                assert(out@ =~= o0 + s@.ps_line(p@, ns));
            }
        }
        i += 1;
    }
    out
}

} // verus!
