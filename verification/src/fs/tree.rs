//! Names and directories: what a path leads to, what a directory lists, and
//! what making, removing and linking change.
use crate::fs::dev::DevV;
use crate::fs::disk;
use crate::fs::disk::{Geo, InoV};
use crate::fs::ramfs;
use crate::fs::ramfs::{FileV, RamV};
use crate::fs::text;
use crate::fs::vfs::FsV;
use vstd::prelude::*;

verus! {

// ---- paths on the disk ----

proof fn lemma_slash(p: Seq<u8>, i: int)
    requires
        0 <= i <= p.len(),
    ensures
        i <= disk::slash(p, i) <= p.len(),
        forall|k: int| i <= k < disk::slash(p, i) ==> #[trigger] p[k] != 0x2f,
        disk::slash(p, i) < p.len() ==> p[disk::slash(p, i)] == 0x2f,
    decreases p.len() - i,
{
    if i < p.len() && p[i] != 0x2f {
        lemma_slash(p, i + 1);
    }
}

proof fn lemma_slash_is(p: Seq<u8>, i: int, j: int)
    requires
        0 <= i <= j <= p.len(),
        forall|k: int| i <= k < j ==> #[trigger] p[k] != 0x2f,
        j == p.len() || p[j] == 0x2f,
    ensures
        disk::slash(p, i) == j,
    decreases j - i,
{
    if i < j {
        lemma_slash_is(p, i + 1, j);
    }
}

proof fn lemma_walk(d: DevV, g: Geo, cur: u32, p: Seq<u8>, name: Seq<u8>, i: int)
    requires
        0 <= i <= p.len(),
        name.len() > 0,
        forall|k: int| 0 <= k < name.len() ==> #[trigger] name[k] != 0x2f,
    ensures
        ({
            let q = p + seq![0x2fu8] + name;
            disk::walk_from(d, g, cur, q, i) == match disk::walk_from(d, g, cur, p, i) {
                Some(j) => match disk::child(d, g, j, name) {
                    Some(c) => if disk::ino_at(d, g, c) is Some {
                        Some(c)
                    } else {
                        None
                    },
                    None => None,
                },
                None => None,
            }
        }),
    decreases p.len() - i,
{
    let q = p + seq![0x2fu8] + name;
    let n = q.len() as int;
    if i < p.len() {
        let e = disk::slash(p, i);
        lemma_slash(p, i);
        assert forall|k: int| i <= k < e implies #[trigger] q[k] != 0x2f by {
            assert(q[k] == p[k]);
        }
        lemma_slash_is(q, i, e);
        assert(q.subrange(i, e) =~= p.subrange(i, e));
        if e == i {
            lemma_walk(d, g, cur, p, name, i + 1);
        } else if let Some(c) = disk::child(d, g, cur, p.subrange(i, e)) {
            lemma_walk(d, g, c, p, name, e);
        }
    } else {
        assert(q[i] == 0x2f);
        lemma_slash_is(q, i, i);
        assert forall|k: int| i + 1 <= k < n implies #[trigger] q[k] != 0x2f by {
            assert(q[k] == name[k - i - 1]);
        }
        lemma_slash_is(q, i + 1, n);
        assert(q.subrange(i + 1, n) =~= name);
        assert(disk::walk_from(d, g, cur, q, i) == disk::walk_from(d, g, cur, q, i + 1));
        assert(disk::walk_from(d, g, cur, p, i) == Some(cur));
        if let Some(c) = disk::child(d, g, cur, name) {
            assert(disk::walk_from(d, g, c, q, n) == Some(c));
        }
    }
}

/// A path leads through its directories: with a name more, to what that name
/// stands for in the directory that the path led to.
pub proof fn law_path_leads_through(d: DevV, g: Geo, p: Seq<u8>, name: Seq<u8>)
    requires
        p.len() > 0,
        p[0] == 0x2f,
        name.len() > 0,
        forall|k: int| 0 <= k < name.len() ==> #[trigger] name[k] != 0x2f,
    ensures
        disk::walked(d, g, seq![0x2fu8]) == Some(g.root),
        disk::walked(d, g, p + seq![0x2fu8] + name) == match disk::walked(d, g, p) {
            Some(j) => match disk::child(d, g, j, name) {
                Some(c) => if disk::ino_at(d, g, c) is Some {
                    Some(c)
                } else {
                    None
                },
                None => None,
            },
            None => None,
        },
{
    lemma_walk(d, g, g.root, p, name, 0);
    let s = seq![0x2fu8];
    lemma_slash_is(s, 0, 0);
    assert(disk::walk_from(d, g, g.root, s, 0) == disk::walk_from(d, g, g.root, s, 1));
}

/// A name that a directory has is in its list, with a slash behind it where it
/// stands for a directory; and each item of the list is a name of some entry.
pub proof fn law_directory_lists_its_names(d: DevV, g: Geo, r: InoV, name: Seq<u8>, i: int)
    requires
        0 <= i,
        vstd::utf8::valid_utf8(name),
        disk::find_dent(d, r, name, i) is Some,
    ensures
        ({
            let c = (disk::dent_at(d, r, disk::find_dent(d, r, name, i)->0)->0).1;
            let dir = disk::ino_at(d, g, c) is Some && (disk::ino_at(d, g, c)->0).kind == 2;
            disk::listing(d, g, r, i).contains(
                if dir {
                    name.push(0x2f)
                } else {
                    name
                },
            )
        }),
    decreases disk::dent_count(r) - i,
{
    let l = disk::listing(d, g, r, i);
    let rest = disk::listing(d, g, r, i + 1);
    let c = (disk::dent_at(d, r, disk::find_dent(d, r, name, i)->0)->0).1;
    let dir = disk::ino_at(d, g, c) is Some && (disk::ino_at(d, g, c)->0).kind == 2;
    let item = if dir {
        name.push(0x2f)
    } else {
        name
    };
    if disk::dent_at(d, r, i) matches Some(e) && e.0 == name {
        assert(text::shown(name) == name);
        assert(l[0] == item);
    } else {
        law_directory_lists_its_names(d, g, r, name, i + 1);
        let x = choose|x: int| 0 <= x < rest.len() && rest[x] == item;
        if disk::dent_at(d, r, i) is Some {
            assert(l[x + 1] == item);
        } else {
            assert(l[x] == item);
        }
    }
}

/// A directory lists one item for each entry that is not empty, in order.
pub proof fn law_list_has_an_item_per_entry(d: DevV, g: Geo, r: InoV, i: int)
    requires
        0 <= i < disk::dent_count(r),
        disk::dent_sector(d, r, i) is Some,
    ensures
        ({
            let l = disk::listing(d, g, r, i);
            let rest = disk::listing(d, g, r, i + 1);
            if disk::dent_at(d, r, i) is Some {
                l.len() == rest.len() + 1 && l.skip(1) == rest
            } else {
                l == rest
            }
        }),
{
    let l = disk::listing(d, g, r, i);
    let rest = disk::listing(d, g, r, i + 1);
    if disk::dent_at(d, r, i) is Some {
        assert(l.skip(1) =~= rest);
    }
}

// ---- names in memory ----

/// No two files have the path.
pub open spec fn at_most_once(r: RamV, path: Seq<u8>) -> bool {
    forall|i: int, j: int|
        0 <= i < j < r.files.len() && (#[trigger] r.files[i]).path == path ==> (#[trigger] r.files[j]).path != path
}

/// Removing a file in memory takes it away, and leaves every other; without one
/// nothing changes.
pub proof fn law_unlink_in_memory(fs: FsV, path: Seq<u8>, other: Seq<u8>)
    requires
        !fs.on_disk,
        at_most_once(fs.ram, path),
    ensures
        ({
            let (t, ok) = fs.without(path);
            &&& ok <==> fs.ram.file(path) is Some
            &&& t.ram.file(path) is None
            &&& other != path ==> t.ram.file(other) == fs.ram.file(other)
            &&& t.ram.dirs == fs.ram.dirs
            &&& !ok ==> t == fs
            &&& t == (FsV { ram: t.ram, ..fs })
        }),
{
    let f = fs.ram.files;
    ramfs::lemma_find(f, path, 0);
    ramfs::lemma_find(f, other, 0);
    if let Some(i) = ramfs::find(f, path, 0) {
        let h = f.remove(i);
        assert forall|j: int| 0 <= j < h.len() implies (#[trigger] h[j]).path != path by {
            if j < i {
                assert(h[j] == f[j]);
            } else {
                assert(h[j] == f[j + 1]);
                assert(f[i].path == path);
            }
        }
        ramfs::lemma_find(h, path, 0);
        ramfs::lemma_find(h, other, 0);
        if other != path {
            match ramfs::find(f, other, 0) {
                Some(j) => {
                    let x = if j < i { j } else { j - 1 };
                    assert(h[x] == f[j]);
                    assert forall|y: int| 0 <= y < x implies (#[trigger] h[y]).path != other by {
                        if y < i {
                            assert(h[y] == f[y]);
                        } else {
                            assert(h[y] == f[y + 1]);
                        }
                    }
                    ramfs::lemma_find_is(h, other, 0, x);
                },
                None => {
                    assert forall|y: int| 0 <= y < h.len() implies (#[trigger] h[y]).path != other by {
                        if y < i {
                            assert(h[y] == f[y]);
                        } else {
                            assert(h[y] == f[y + 1]);
                        }
                    }
                },
            }
        }
    }
}

/// A new directory in memory is one from then on; no file and no other directory
/// changes. One that is there is not made again.
pub proof fn law_mkdir_in_memory(fs: FsV, path: Seq<u8>, other: Seq<u8>)
    requires
        !fs.on_disk,
    ensures
        ({
            let (t, ok) = fs.with_dir(path);
            &&& ok <==> !fs.ram.dirs.contains(path)
            &&& t.ram.dirs.contains(path)
            &&& other != path ==> (t.ram.dirs.contains(other) <==> fs.ram.dirs.contains(other))
            &&& t.ram.files == fs.ram.files
            &&& !ok ==> t == fs
            &&& t == (FsV { ram: t.ram, ..fs })
        }),
{
    let a = fs.ram.dirs;
    let b = a.push(path);
    assert(b[a.len() as int] == path);
    if a.contains(other) {
        let i = choose|i: int| 0 <= i < a.len() && a[i] == other;
        assert(b[i] == other);
    }
    if b.contains(other) && other != path {
        let i = choose|i: int| 0 <= i < b.len() && b[i] == other;
        assert(a[i] == other);
    }
}

/// A link in memory gives a file's bytes a second name that was not taken, and
/// leaves the first.
pub proof fn law_link_in_memory(fs: FsV, from: Seq<u8>, to: Seq<u8>, other: Seq<u8>)
    requires
        !fs.on_disk,
    ensures
        ({
            let (t, ok) = fs.linked(from, to);
            &&& ok <==> fs.ram.file(from) is Some && fs.ram.file(to) is None && !fs.ram.dirs.contains(to) && to
                != seq![0x2fu8]
            &&& ok ==> t.ram.file(to) == fs.ram.file(from) && t.ram.file(from) == fs.ram.file(from)
            &&& other != to ==> t.ram.file(other) == fs.ram.file(other)
            &&& !ok ==> t == fs
        }),
{
    if fs.ram.file(from) is Some {
        ramfs::law_write_then_read(fs.ram, to, fs.ram.file(from)->0, other);
        ramfs::law_write_then_read(fs.ram, to, fs.ram.file(from)->0, from);
    }
}

/// A single name: not empty, no slash.
pub open spec fn single(x: Seq<u8>) -> bool {
    x.len() > 0 && forall|k: int| 0 <= k < x.len() ==> #[trigger] x[k] != 0x2f
}

proof fn lemma_entry(p: Seq<u8>, prefix: Seq<u8>, x: Seq<u8>)
    ensures
        ramfs::entry_of(p, prefix) == Some(x) <==> p == prefix + x && single(x),
{
    if ramfs::entry_of(p, prefix) == Some(x) {
        assert(prefix + x =~= p.take(prefix.len() as int) + p.skip(prefix.len() as int));
        assert(p =~= p.take(prefix.len() as int) + p.skip(prefix.len() as int));
        assert forall|k: int| 0 <= k < x.len() implies #[trigger] x[k] != 0x2f by {
            if x[k] == 0x2f {
                assert(x.contains(0x2f));
            }
        }
    }
    if p == prefix + x && single(x) {
        assert(p.take(prefix.len() as int) =~= prefix);
        assert(p.skip(prefix.len() as int) =~= x);
        assert(!x.contains(0x2f));
    }
}

proof fn lemma_file_names(f: Seq<FileV>, prefix: Seq<u8>, n: int, x: Seq<u8>)
    requires
        0 <= n <= f.len(),
    ensures
        ramfs::file_names(f, prefix, n).contains(x) <==> single(x) && exists|i: int|
            0 <= i < n && (#[trigger] f[i]).path == prefix + x,
    decreases n,
{
    if n > 0 {
        lemma_file_names(f, prefix, n - 1, x);
        let r = ramfs::file_names(f, prefix, n - 1);
        let l = ramfs::file_names(f, prefix, n);
        lemma_entry(f[n - 1].path, prefix, x);
        if r.contains(x) {
            let j = choose|j: int| 0 <= j < r.len() && r[j] == x;
            assert(l[j] == x);
        }
        if ramfs::entry_of(f[n - 1].path, prefix) == Some(x) {
            assert(l[r.len() as int] == x);
            assert(f[n - 1].path == prefix + x);
        }
        if l.contains(x) {
            let j = choose|j: int| 0 <= j < l.len() && l[j] == x;
            if j < r.len() {
                assert(r[j] == x);
            }
        }
        if single(x) && exists|i: int| 0 <= i < n && (#[trigger] f[i]).path == prefix + x {
            let i = choose|i: int| 0 <= i < n && (#[trigger] f[i]).path == prefix + x;
            if i < n - 1 {
                assert(r.contains(x));
            }
        }
    }
}

proof fn lemma_dir_names(d: Seq<Seq<u8>>, prefix: Seq<u8>, n: int, x: Seq<u8>)
    requires
        0 <= n <= d.len(),
    ensures
        ramfs::dir_names(d, prefix, n).contains(x.push(0x2f)) <==> single(x) && exists|i: int|
            0 <= i < n && #[trigger] d[i] == prefix + x,
    decreases n,
{
    if n > 0 {
        lemma_dir_names(d, prefix, n - 1, x);
        let r = ramfs::dir_names(d, prefix, n - 1);
        let l = ramfs::dir_names(d, prefix, n);
        let y = x.push(0x2f);
        lemma_entry(d[n - 1], prefix, x);
        if r.contains(y) {
            let j = choose|j: int| 0 <= j < r.len() && r[j] == y;
            assert(l[j] == y);
        }
        if ramfs::entry_of(d[n - 1], prefix) == Some(x) {
            assert(l[r.len() as int] == y);
            assert(d[n - 1] == prefix + x);
        }
        if l.contains(y) {
            let j = choose|j: int| 0 <= j < l.len() && l[j] == y;
            if j < r.len() {
                assert(r[j] == y);
            } else {
                let e = ramfs::entry_of(d[n - 1], prefix)->0;
                assert(e.push(0x2f) == y);
                assert(e =~= e.push(0x2f).drop_last());
                assert(x =~= y.drop_last());
            }
        }
        if single(x) && exists|i: int| 0 <= i < n && #[trigger] d[i] == prefix + x {
            let i = choose|i: int| 0 <= i < n && #[trigger] d[i] == prefix + x;
            if i < n - 1 {
                assert(r.contains(y));
            }
        }
    }
}

/// A directory in memory lists just the names of the files that lie in it, and,
/// with a slash behind them, of the directories that do.
pub proof fn law_listing_in_memory(fs: FsV, dir: Seq<u8>, x: Seq<u8>)
    requires
        !fs.on_disk,
        dir.len() > 0,
        single(x),
    ensures
        ({
            let prefix = if dir.last() == 0x2f { dir } else { dir.push(0x2f) };
            let l = fs.names(dir);
            &&& (exists|i: int| 0 <= i < fs.ram.files.len() && (#[trigger] fs.ram.files[i]).path == prefix + x)
                ==> l.contains(x)
            &&& (exists|i: int| 0 <= i < fs.ram.dirs.len() && #[trigger] fs.ram.dirs[i] == prefix + x) ==> l.contains(
                x.push(0x2f),
            )
            &&& l.contains(x) ==> exists|i: int|
                0 <= i < fs.ram.files.len() && (#[trigger] fs.ram.files[i]).path == prefix + x
            &&& l.contains(x.push(0x2f)) ==> exists|i: int|
                0 <= i < fs.ram.dirs.len() && #[trigger] fs.ram.dirs[i] == prefix + x
        }),
{
    let prefix = if dir.last() == 0x2f { dir } else { dir.push(0x2f) };
    let f = fs.ram.files;
    let d = fs.ram.dirs;
    let a = ramfs::file_names(f, prefix, f.len() as int);
    let b = ramfs::dir_names(d, prefix, d.len() as int);
    let l = fs.names(dir);
    let y = x.push(0x2f);
    assert(l == a + b);
    lemma_file_names(f, prefix, f.len() as int, x);
    lemma_file_names(f, prefix, f.len() as int, y);
    lemma_dir_names(d, prefix, d.len() as int, x);
    assert(y[x.len() as int] == 0x2f);
    if a.contains(x) {
        let i = choose|i: int| 0 <= i < a.len() && a[i] == x;
        assert(l[i] == x);
    }
    if b.contains(y) {
        let i = choose|i: int| 0 <= i < b.len() && b[i] == y;
        assert(l[a.len() + i] == y);
    }
    if l.contains(x) {
        let i = choose|i: int| 0 <= i < l.len() && l[i] == x;
        if i < a.len() {
            assert(a[i] == x);
        } else {
            lemma_ends(d, prefix, d.len() as int, i - a.len());
            assert(b[i - a.len()] == x);
            assert(x[x.len() - 1] != 0x2f);
        }
    }
    if l.contains(y) {
        let i = choose|i: int| 0 <= i < l.len() && l[i] == y;
        if i < a.len() {
            assert(a[i] == y);
            assert(!single(y));
        } else {
            assert(b[i - a.len()] == y);
        }
    }
}

proof fn lemma_ends(d: Seq<Seq<u8>>, prefix: Seq<u8>, n: int, i: int)
    requires
        0 <= n <= d.len(),
        0 <= i < ramfs::dir_names(d, prefix, n).len(),
    ensures
        ramfs::dir_names(d, prefix, n)[i].len() > 0,
        ramfs::dir_names(d, prefix, n)[i].last() == 0x2f,
    decreases n,
{
    if n > 0 {
        let r = ramfs::dir_names(d, prefix, n - 1);
        if i < r.len() {
            lemma_ends(d, prefix, n - 1, i);
        }
    }
}

/// What the kernel brings along stands in for a program that the disk lacks,
/// whatever directory the path names; a file on the disk comes first.
pub proof fn law_programs_stand_in(fs: FsV, dir: Seq<u8>, name: Seq<u8>)
    requires
        fs.on_disk,
        name.len() > 0,
        forall|k: int| 0 <= k < name.len() ==> #[trigger] name[k] != 0x2f,
    ensures
        ({
            let path = dir + seq![0x2fu8] + name;
            match disk::file_at(fs.d, fs.g, path) {
                Some((i, r)) => disk::complete(fs.d, r) ==> fs.whole(path) == Some(disk::content(fs.d, r)),
                None => match fs.whole(path) {
                    Some(v) => exists|i: int|
                        0 <= i < fs.embed.len() && (#[trigger] fs.embed[i]).path == name && fs.embed[i].data == v,
                    None => forall|i: int| 0 <= i < fs.embed.len() ==> (#[trigger] fs.embed[i]).path != name,
                },
            }
        }),
{
    let path = dir + seq![0x2fu8] + name;
    let n = path.len() as int;
    assert forall|k: int| dir.len() < k < n implies #[trigger] path[k] != 0x2f by {
        assert(path[k] == name[k - dir.len() - 1]);
    }
    lemma_last(path, n, dir.len() as int);
    assert(path.skip(dir.len() as int + 1) =~= name);
    ramfs::lemma_find(fs.embed, name, 0);
}

proof fn lemma_last(p: Seq<u8>, n: int, k: int)
    requires
        0 <= k < n <= p.len(),
        p[k] == 0x2f,
        forall|j: int| k < j < n ==> #[trigger] p[j] != 0x2f,
    ensures
        disk::last_slash(p, n) == k,
    decreases n,
{
    if n - 1 > k {
        lemma_last(p, n - 1, k);
    }
}

} // verus!
