//! What the operations on files do, told of the operations themselves.
use crate::fs::dev::DevV;
use crate::fs::disk;
use crate::fs::disk::{Disk, Geo};
use crate::fs::names;
use crate::fs::pipe;
use crate::fs::pipe::Pipes;
use crate::fs::ramfs;
use crate::fs::sound;
use crate::fs::vfs;
use crate::fs::vfs::{Fs, FsV};
use vstd::prelude::*;

verus! {

// ---- in memory ----

/// What is written to a file in memory is read at the same place; so is every
/// other byte as it was, and every other file.
pub proof fn law_write_and_read(
    s: &mut Fs,
    t: &mut Fs,
    path: &[u8],
    off: usize,
    buf: &[u8],
    n: usize,
    out: &mut [u8],
    r: usize,
    other: Seq<u8>,
)
    requires
        !old(s)@.on_disk,
        old(s)@.ram.file(path@) is Some,
        call_ensures(vfs::write_at, (s, path, off, buf), n),
        old(t)@ == final(s)@,
        old(out)@.len() == buf@.len(),
        call_ensures(vfs::read_at, (t, path, off, out), r),
    ensures
        n == buf@.len(),
        r == n,
        final(out)@ == buf@,
        other != path@ ==> final(s)@.ram.file(other) == old(s)@.ram.file(other),
        final(s)@.ram.dirs == old(s)@.ram.dirs,
        ({
            let a = old(s)@.ram.file(path@)->0;
            let b = final(s)@.ram.file(path@)->0;
            &&& buf@.len() > 0 ==> b.len() == if off + buf@.len() > a.len() { off + buf@.len() } else { a.len() as int }
            &&& forall|k: int|
                0 <= k < b.len() && !(off <= k < off + buf@.len()) ==> #[trigger] b[k] == if k < a.len() {
                    a[k]
                } else {
                    0u8
                }
        }),
{
    let a = old(s)@.ram;
    ramfs::lemma_find(a.files, path@, 0);
    let i = ramfs::find(a.files, path@, 0)->0;
    let d = ramfs::put(a.files[i].data, off as int, buf@);
    ramfs::law_write_then_read(a, path@, d, other);
    assert(final(s)@.ram == a.written(path@, d));
    assert(final(out)@ =~= buf@);
}

/// A file that is replaced in memory is what it was replaced by; a file that is
/// cut is empty.
pub proof fn law_replace_and_cut(
    s: &mut Fs,
    path: &[u8],
    data: &[u8],
    u: (),
    t: &mut Fs,
    r: Option<Vec<u8>>,
    c: &mut Fs,
    ok: bool,
    other: Seq<u8>,
)
    requires
        !old(s)@.on_disk,
        call_ensures(vfs::write_file, (s, path, data), u),
        old(t)@ == final(s)@,
        call_ensures(vfs::read_file, (t, path), r),
        old(c)@ == final(s)@,
        call_ensures(vfs::truncate, (c, path), ok),
    ensures
        r is Some && (r->0)@ == data@,
        ok,
        final(c)@.ram.file(path@) == Some(Seq::<u8>::empty()),
        other != path@ ==> final(s)@.ram.file(other) == old(s)@.ram.file(other),
        other != path@ ==> final(c)@.ram.file(other) == old(s)@.ram.file(other),
{
    let a = old(s)@.ram;
    ramfs::law_write_then_read(a, path@, data@, other);
    let b = final(s)@.ram;
    ramfs::lemma_find(b.files, path@, 0);
    ramfs::law_write_then_read(b, path@, Seq::empty(), other);
    assert(final(c)@.ram == b.written(path@, Seq::empty()));
}

/// What is told of a path agrees: a file has a length and bytes, and what has
/// no kind is not there.
pub proof fn law_status_agrees(
    s: &mut Fs,
    path: &[u8],
    st: (u8, u32, u32),
    t: &mut Fs,
    there: bool,
    l: &mut Fs,
    len: Option<usize>,
    w: &mut Fs,
    r: Option<Vec<u8>>,
)
    requires
        !old(s)@.on_disk,
        call_ensures(vfs::stat, (s, path), st),
        old(t)@ == old(s)@,
        call_ensures(vfs::exists_path, (t, path), there),
        old(l)@ == old(s)@,
        call_ensures(vfs::file_len, (l, path), len),
        old(w)@ == old(s)@,
        call_ensures(vfs::read_file, (w, path), r),
    ensures
        st.0 == 0 <==> !there,
        st.0 == 1 <==> r is Some,
        st.0 == 2 <==> there && r is None,
        len is Some <==> r is Some,
        r is Some ==> len->0 == (r->0)@.len() && (len->0 <= u32::MAX ==> st.1 == len->0),
        there <==> r is Some || old(s)@.ram.dirs.contains(path@) || path@ == seq![0x2fu8],
        final(s)@ == old(s)@,
{
}

// ---- on the disk ----

/// What is written to a file of a sound disk is read at the same place.
pub proof fn law_disk_write_and_read(
    s: &mut Disk,
    t: &mut Disk,
    path: &[u8],
    off: usize,
    buf: &[u8],
    n: usize,
    out: &mut [u8],
    r: usize,
)
    requires
        sound::sound(old(s).d(), old(s).geo),
        disk::file_at(old(s).d(), old(s).geo, path@) is Some,
        off + buf@.len() <= u32::MAX,
        call_ensures(disk::write_at, (s, path, off, buf), n),
        old(t).d() == final(s).d(),
        old(t).geo == final(s).geo,
        old(out)@.len() == n,
        call_ensures(disk::read_at, (t, path, off, out), r),
    ensures
        n <= buf@.len(),
        r == n,
        final(out)@ == buf@.take(n as int),
        sound::sound(final(s).d(), final(s).geo),
        sound::apart_from(
            old(s).d(),
            final(s).d(),
            old(s).geo,
            (disk::file_at(old(s).d(), old(s).geo, path@)->0).0,
        ),
{
    sound::law_write_then_read(old(s).d(), old(s).geo, path@, off as int, buf@);
    assert(final(out)@ =~= buf@.take(n as int));
}

proof fn lemma_reads(d: DevV, g: Geo, path: Seq<u8>, data: Seq<u8>)
    requires
        sound::sound(d, g),
        disk::file_at(d, g, path) is Some,
        (disk::file_at(d, g, path)->0).1.size == 0,
        data.len() <= u32::MAX,
        vfs::disk_put(d, g, path, 0, data).1 == data.len(),
    ensures
        vfs::disk_file(vfs::disk_put(d, g, path, 0, data).0, g, path) == Some(data),
{
    sound::law_write_then_read(d, g, path, 0, data);
    let e = vfs::disk_put(d, g, path, 0, data).0;
    let q = (disk::file_at(e, g, path)->0).1;
    lemma_all_there(e, q, 0, data.len() as int);
    assert forall|pos: int| 0 <= pos < q.size implies #[trigger] disk::has_byte(e, q, pos) by {}
    assert forall|k: int| 0 <= k < data.len() implies #[trigger] disk::content(e, q)[k] == data[k] by {
        assert(disk::byte_of(e, q, 0 + k) == data[k]);
    }
    assert(disk::content(e, q) =~= data);
}

proof fn lemma_all_there(d: DevV, r: disk::InoV, off: int, n: int)
    requires
        0 <= n,
        disk::readable(d, r, off, n) == n,
    ensures
        forall|p: int| off <= p < off + n ==> #[trigger] disk::has_byte(d, r, p),
    decreases n,
{
    if n > 0 {
        lemma_bound(d, r, off + 1, n - 1);
        lemma_all_there(d, r, off + 1, n - 1);
    }
}

proof fn lemma_bound(d: DevV, r: disk::InoV, off: int, n: int)
    requires
        0 <= n,
    ensures
        0 <= disk::readable(d, r, off, n) <= n,
    decreases n,
{
    if n > 0 {
        lemma_bound(d, r, off + 1, n - 1);
    }
}

/// A file on an orderly disk that is replaced reads as what it was replaced by,
/// if there was room for all of it.
pub proof fn law_replaced_on_disk(s: &mut Fs, path: &[u8], data: &[u8], u: (), t: &mut Fs, r: Option<Vec<u8>>)
    requires
        old(s)@.on_disk,
        names::orderly(old(s)@.d, old(s)@.g),
        disk::file_at(old(s)@.d, old(s)@.g, path@) is Some,
        disk::complete(old(s)@.d, (disk::file_at(old(s)@.d, old(s)@.g, path@)->0).1),
        data@.len() <= u32::MAX,
        call_ensures(vfs::write_file, (s, path, data), u),
        final(s)@.size(path@) == Some(data@.len() as int),
        old(t)@ == final(s)@,
        call_ensures(vfs::read_file, (t, path), r),
    ensures
        r is Some,
        (r->0)@ == data@,
{
    let d = old(s)@.d;
    let g = old(s)@.g;
    names::law_truncate_empties(d, g, path@);
    let e = vfs::disk_cut(d, g, path@).0;
    sound::law_write_then_read(e, g, path@, 0, data@);
    lemma_reads(e, g, path@, data@);
}

/// A file that is cut on an orderly disk is there, and empty.
pub proof fn law_cut_on_disk(s: &mut Fs, path: &[u8], ok: bool, t: &mut Fs, r: Option<Vec<u8>>)
    requires
        old(s)@.on_disk,
        names::orderly(old(s)@.d, old(s)@.g),
        disk::file_at(old(s)@.d, old(s)@.g, path@) is Some,
        call_ensures(vfs::truncate, (s, path), ok),
        old(t)@ == final(s)@,
        call_ensures(vfs::read_file, (t, path), r),
    ensures
        ok,
        r is Some,
        (r->0)@.len() == 0,
        sound::apart_from(old(s)@.d, final(s)@.d, old(s)@.g, (disk::file_at(old(s)@.d, old(s)@.g, path@)->0).0),
{
    names::law_truncate_empties(old(s)@.d, old(s)@.g, path@);
}

/// A machine that is left in order has told its disk so; the files are as they
/// were.
pub proof fn law_left_in_order(s: &mut Fs, marked: bool)
    requires
        old(s)@.d.wf(),
        old(s)@.d.has(0),
        call_ensures(vfs::leave, (s,), marked),
    ensures
        marked == old(s)@.on_disk,
        marked ==> !disk::is_dirty(final(s)@.d),
        forall|x: int| x != 0 ==> #[trigger] final(s)@.d.at(x) == old(s)@.d.at(x),
        final(s)@ == (FsV { d: final(s)@.d, ..old(s)@ }),
        !marked ==> final(s)@ == old(s)@,
{
    disk::law_mark(old(s)@.d, false);
}

proof fn lemma_free(d: DevV, e: DevV, g: Geo, b: u32, n: int)
    requires
        0 <= n <= u32::MAX,
        !disk::taken(d, g, b),
        disk::taken(e, g, b),
        forall|x: u32| x != b ==> #[trigger] disk::taken(e, g, x) == disk::taken(d, g, x),
    ensures
        disk::free_below(e, g, n) == disk::free_below(d, g, n) - if b < n { 1int } else { 0 },
    decreases n,
{
    if n > 0 {
        lemma_free(d, e, g, b, n - 1);
        if n - 1 != b {
            assert(disk::taken(e, g, (n - 1) as u32) == disk::taken(d, g, (n - 1) as u32));
        }
    }
}

/// The count of free blocks goes down by one with each that is taken; it is
/// never more than there are, and none where all are taken.
pub proof fn law_free_blocks_are_counted(
    s: &mut Disk,
    n: u32,
    t: &mut Disk,
    m: u32,
    b: u32,
)
    requires
        call_ensures(disk::free_blocks, (s,), n),
        call_ensures(disk::free_blocks, (t,), m),
        old(t).geo == old(s).geo,
        b < old(s).geo.nblocks,
        !disk::taken(old(s).d(), old(s).geo, b),
        disk::taken(old(t).d(), old(s).geo, b),
        forall|x: u32| x != b ==> #[trigger] disk::taken(old(t).d(), old(s).geo, x) == disk::taken(old(s).d(), old(s).geo, x),
    ensures
        m == n - 1,
        n <= old(s).geo.nblocks,
{
    lemma_free(old(s).d(), old(t).d(), old(s).geo, b, old(s).geo.nblocks as int);
    lemma_count(old(s).d(), old(s).geo, old(s).geo.nblocks as int);
}

proof fn lemma_count(d: DevV, g: Geo, n: int)
    requires
        0 <= n,
    ensures
        0 <= disk::free_below(d, g, n) <= n,
    decreases n,
{
    if n > 0 {
        lemma_count(d, g, n - 1);
    }
}

// ---- pipes ----

/// A pipe hands on what it was given, in order, up to a kibibyte at a time; no
/// other pipe changes.
pub proof fn law_pipe(
    p: &mut Pipes,
    id: usize,
    buf: &[u8],
    n: usize,
    q: &mut Pipes,
    out: &mut [u8],
    r: usize,
    w: &Pipes,
    a: usize,
)
    requires
        old(p).wf(),
        id < old(p)@.len(),
        call_ensures(pipe::write, (p, id, buf), n),
        *old(q) == *final(p),
        call_ensures(pipe::read, (q, id, out), r),
        *w == *final(q),
        call_ensures(pipe::avail, (w, id), a),
    ensures
        ({
            let c = old(p)@[id as int];
            let all = c + buf@.take(n as int);
            &&& n == if c.len() + buf@.len() <= 1024 { buf@.len() as int } else { 1024 - c.len() }
            &&& r == if all.len() <= old(out)@.len() { all.len() } else { old(out)@.len() }
            &&& final(out)@.take(r as int) == all.take(r as int)
            &&& final(out)@.skip(r as int) == old(out)@.skip(r as int)
            &&& final(q)@[id as int] == all.skip(r as int)
            &&& a == all.len() - r
            &&& forall|j: int| 0 <= j < old(p)@.len() && j != id ==> #[trigger] final(q)@[j] == old(p)@[j]
        }),
{
    let all = old(p)@[id as int] + buf@.take(n as int);
    assert(final(out)@.take(r as int) =~= all.take(r as int));
    assert(final(out)@.skip(r as int) =~= old(out)@.skip(r as int));
}

/// A new pipe is empty and nobody else's.
pub proof fn law_new_pipe(p: &mut Pipes, r: (usize, usize))
    requires
        call_ensures(pipe::create, (p,), r),
    ensures
        r.0 == r.1,
        r.0 == old(p)@.len(),
        final(p)@.len() == old(p)@.len() + 1,
        final(p)@[r.0 as int].len() == 0,
        forall|j: int| 0 <= j < old(p)@.len() ==> #[trigger] final(p)@[j] == old(p)@[j],
{
}

} // verus!
