//! The file system in memory: a list of files by path and a list of
//! directories.
use vstd::prelude::*;

verus! {

pub struct File {
    pub path: Vec<u8>,
    pub data: Vec<u8>,
}

pub struct RamFs {
    pub files: Vec<File>,
    pub dirs: Vec<Vec<u8>>,
}

#[verifier::ext_equal]
pub struct FileV {
    pub path: Seq<u8>,
    pub data: Seq<u8>,
}

#[verifier::ext_equal]
pub struct RamV {
    pub files: Seq<FileV>,
    pub dirs: Seq<Seq<u8>>,
}

impl View for File {
    type V = FileV;

    open spec fn view(&self) -> FileV {
        FileV { path: self.path@, data: self.data@ }
    }
}

impl View for RamFs {
    type V = RamV;

    open spec fn view(&self) -> RamV {
        RamV {
            files: Seq::new(self.files@.len(), |i: int| self.files@[i]@),
            dirs: Seq::new(self.dirs@.len(), |i: int| self.dirs@[i]@),
        }
    }
}

/// The first file from `i` on with this path.
pub open spec fn find(f: Seq<FileV>, path: Seq<u8>, i: int) -> Option<int>
    decreases f.len() - i,
{
    if i >= f.len() {
        None
    } else if f[i].path == path {
        Some(i)
    } else {
        find(f, path, i + 1)
    }
}

impl RamV {
    pub open spec fn file(self, path: Seq<u8>) -> Option<Seq<u8>> {
        match find(self.files, path, 0) {
            Some(i) => Some(self.files[i].data),
            None => None,
        }
    }

    pub open spec fn with_data(self, i: int, data: Seq<u8>) -> RamV {
        RamV { files: self.files.update(i, FileV { data, ..self.files[i] }), ..self }
    }

    /// The file at a path holds this, and is made where there is none.
    pub open spec fn written(self, path: Seq<u8>, data: Seq<u8>) -> RamV {
        match find(self.files, path, 0) {
            Some(i) => self.with_data(i, data),
            None => RamV { files: self.files.push(FileV { path, data }), ..self },
        }
    }

    /// A path is listed as a directory.
    pub open spec fn is_dir(self, path: Seq<u8>) -> bool {
        self.dirs.contains(path)
    }
}

/// Whether two strings of bytes are equal.
pub fn same(a: &Vec<u8>, b: &[u8]) -> (r: bool)
    ensures
        r == (a@ == b@),
{
    if a.len() != b.len() {
        return false;
    }
    let mut i: usize = 0;
    while i < a.len()
        invariant
            a@.len() == b@.len(),
            i <= a@.len(),
            forall|k: int| 0 <= k < i ==> a@[k] == #[trigger] b@[k],
        decreases a@.len() - i,
    {
        if a[i] != b[i] {
            return false;
        }
        i += 1;
    }
    assert(a@ =~= b@);
    true
}

/// A copy.
pub fn to_vec(b: &[u8]) -> (r: Vec<u8>)
    ensures
        r@ == b@,
{
    let mut r: Vec<u8> = Vec::new();
    let mut i: usize = 0;
    while i < b.len()
        invariant
            i <= b@.len(),
            r@ == b@.take(i as int),
        decreases b@.len() - i,
    {
        r.push(b[i]);
        i += 1;
        assert(r@ =~= b@.take(i as int));
    }
    assert(b@.take(i as int) =~= b@);
    r
}

fn index_of(f: &RamFs, path: &[u8]) -> (r: Option<usize>)
    ensures
        match r {
            Some(i) => i < f.files@.len() && find(f@.files, path@, 0) == Some(i as int),
            None => find(f@.files, path@, 0) is None,
        },
{
    let mut i: usize = 0;
    while i < f.files.len()
        invariant
            i <= f.files@.len(),
            find(f@.files, path@, 0) == find(f@.files, path@, i as int),
        decreases f.files@.len() - i,
    {
        assert(f@.files[i as int] == f.files@[i as int]@);
        if same(&f.files[i].path, path) {
            return Some(i);
        }
        i += 1;
    }
    None
}

/// No files; the root, `/bin` and `/etc`.
pub open spec fn fresh() -> RamV {
    RamV {
        files: Seq::empty(),
        dirs: seq![
            seq![0x2fu8],
            seq![0x2fu8, 0x62u8, 0x69u8, 0x6eu8],
            seq![0x2fu8, 0x65u8, 0x74u8, 0x63u8],
        ],
    }
}

/// A file system with no files.
pub fn init() -> (f: RamFs)
    ensures
        f@ == fresh(),
{
    let mut dirs: Vec<Vec<u8>> = Vec::new();
    let root: [u8; 1] = [0x2f];
    let bin: [u8; 4] = [0x2f, 0x62, 0x69, 0x6e];
    let etc: [u8; 4] = [0x2f, 0x65, 0x74, 0x63];
    dirs.push(to_vec(root.as_slice()));
    dirs.push(to_vec(bin.as_slice()));
    dirs.push(to_vec(etc.as_slice()));
    let f = RamFs { files: Vec::new(), dirs };
    proof {
        assert(f.dirs@[0]@ =~= seq![0x2fu8]);
        assert(f.dirs@[1]@ =~= seq![0x2fu8, 0x62u8, 0x69u8, 0x6eu8]);
        assert(f.dirs@[2]@ =~= seq![0x2fu8, 0x65u8, 0x74u8, 0x63u8]);
        assert(f@.files =~= Seq::empty());
        assert(f@.dirs =~= seq![
            seq![0x2fu8],
            seq![0x2fu8, 0x62u8, 0x69u8, 0x6eu8],
            seq![0x2fu8, 0x65u8, 0x74u8, 0x63u8],
        ]);
    }
    f
}

/// The working directory of a process: always the root.
pub fn cwd_of(pid: usize) -> (r: Vec<u8>)
    ensures
        r@ == seq![0x2fu8],
{
    let mut r: Vec<u8> = Vec::new();
    r.push(0x2f);
    assert(r@ =~= seq![0x2fu8]);
    r
}

/// Replaces the contents of a file, or makes it.
pub fn write_file(f: &mut RamFs, path: &[u8], data: &[u8])
    ensures
        final(f)@ == old(f)@.written(path@, data@),
{
    match index_of(f, path) {
        Some(i) => {
            assert(f@.files[i as int] == f.files@[i as int]@);
            f.files[i].data = to_vec(data);
            assert(f@.files =~= old(f)@.with_data(i as int, data@).files);
            assert(f@.dirs =~= old(f)@.dirs);
        },
        None => {
            f.files.push(File { path: to_vec(path), data: to_vec(data) });
            assert(f@.files =~= old(f)@.files.push(FileV { path: path@, data: data@ }));
            assert(f@.dirs =~= old(f)@.dirs);
        },
    }
}

/// The contents of a file.
pub fn read_file(f: &RamFs, path: &[u8]) -> (r: Option<Vec<u8>>)
    ensures
        match r {
            Some(v) => f@.file(path@) == Some(v@),
            None => f@.file(path@) is None,
        },
{
    match index_of(f, path) {
        Some(i) => {
            assert(f@.files[i as int] == f.files@[i as int]@);
            Some(to_vec(f.files[i].data.as_slice()))
        },
        None => None,
    }
}

/// The size of a file.
pub fn file_len(f: &RamFs, path: &[u8]) -> (r: Option<usize>)
    ensures
        match r {
            Some(n) => f@.file(path@) is Some && n == (f@.file(path@)->0).len(),
            None => f@.file(path@) is None,
        },
{
    match index_of(f, path) {
        Some(i) => {
            assert(f@.files[i as int] == f.files@[i as int]@);
            Some(f.files[i].data.len())
        },
        None => None,
    }
}

/// Bytes of `n` that lie in data of this length from `off` on.
pub open spec fn span(len: nat, off: int, n: nat) -> int {
    if off >= len {
        0
    } else if off + n <= len {
        n as int
    } else {
        len - off
    }
}

/// Reads from a file at an offset; returns how many bytes.
pub fn read_at(f: &RamFs, path: &[u8], off: usize, buf: &mut [u8]) -> (n: usize)
    ensures
        final(buf)@.len() == old(buf)@.len(),
        match f@.file(path@) {
            Some(d) => {
                &&& n == span(d.len(), off as int, old(buf)@.len())
                &&& forall|k: int| 0 <= k < n ==> #[trigger] final(buf)@[k] == d[off + k]
                &&& forall|k: int| n <= k < old(buf)@.len() ==> #[trigger] final(buf)@[k] == old(buf)@[k]
            },
            None => n == 0 && final(buf)@ == old(buf)@,
        },
{
    match index_of(f, path) {
        Some(i) => {
            assert(f@.files[i as int] == f.files@[i as int]@);
            let d = &f.files[i].data;
            let len: usize = buf.len();
            let size: usize = d.len();
            let ghost b0 = buf@;
            let mut n: usize = 0;
            while n < len && off < size && n < size - off
                invariant
                    len == b0.len(),
                    buf@.len() == len,
                    size == d@.len(),
                    n <= len,
                    n == 0 || off + n <= size,
                    forall|k: int| 0 <= k < n ==> #[trigger] buf@[k] == d@[off + k],
                    forall|k: int| n <= k < len ==> #[trigger] buf@[k] == b0[k],
                decreases len - n,
            {
                buf[n] = d[off + n];
                n += 1;
            }
            n
        },
        None => 0,
    }
}

/// Data after `buf` is written at `off`; a gap is filled with zeros.
pub open spec fn put(d: Seq<u8>, off: int, buf: Seq<u8>) -> Seq<u8> {
    let n = if off > d.len() {
        off + buf.len()
    } else if off + buf.len() > d.len() {
        off + buf.len()
    } else {
        d.len() as int
    };
    Seq::new(
        n as nat,
        |k: int|
            if off <= k < off + buf.len() {
                buf[k - off]
            } else if k < d.len() {
                d[k]
            } else {
                0
            },
    )
}

/// Writes to a file at an offset; returns how many bytes. 0 where there is no
/// such file.
pub fn write_at(f: &mut RamFs, path: &[u8], off: usize, buf: &[u8]) -> (n: usize)
    requires
        off + buf@.len() <= usize::MAX,
    ensures
        match find(old(f)@.files, path@, 0) {
            Some(i) => n == buf@.len() && final(f)@ == old(f)@.with_data(
                i,
                put(old(f)@.files[i].data, off as int, buf@),
            ),
            None => n == 0 && final(f)@ == old(f)@,
        },
{
    match index_of(f, path) {
        Some(i) => {
            assert(f@.files[i as int] == f.files@[i as int]@);
            let mut d: Vec<u8> = Vec::new();
            std::mem::swap(&mut d, &mut f.files[i].data);
            let ghost d0 = d@;
            let len: usize = buf.len();
            while d.len() < off
                invariant
                    d@.len() >= d0.len(),
                    d@.len() <= off || d@.len() == d0.len(),
                    forall|k: int|
                        0 <= k < d@.len() ==> #[trigger] d@[k] == if k < d0.len() {
                            d0[k]
                        } else {
                            0
                        },
                decreases off - d@.len(),
            {
                d.push(0);
            }
            let ghost d1 = d@;
            let mut n: usize = 0;
            while n < len
                invariant
                    len == buf@.len(),
                    n <= len,
                    off + len <= usize::MAX,
                    d1.len() >= off,
                    d@.len() == if off + n > d1.len() {
                        (off + n) as nat
                    } else {
                        d1.len()
                    },
                    forall|k: int|
                        0 <= k < d@.len() ==> #[trigger] d@[k] == if off <= k < off + n {
                            buf@[k - off]
                        } else {
                            d1[k]
                        },
                decreases len - n,
            {
                if off + n < d.len() {
                    d.set(off + n, buf[n]);
                } else {
                    d.push(buf[n]);
                }
                n += 1;
            }
            assert(d@ =~= put(d0, off as int, buf@));
            f.files[i].data = d;
            proof {
                let g = old(f)@.with_data(i as int, put(d0, off as int, buf@));
                assert(f@.files =~= g.files);
                assert(f@.dirs =~= g.dirs);
            }
            n
        },
        None => 0,
    }
}

/// Cuts a file to nothing. False where there is no such file.
pub fn truncate(f: &mut RamFs, path: &[u8]) -> (ok: bool)
    ensures
        match find(old(f)@.files, path@, 0) {
            Some(i) => ok && final(f)@ == old(f)@.with_data(i, Seq::empty()),
            None => !ok && final(f)@ == old(f)@,
        },
{
    match index_of(f, path) {
        Some(i) => {
            assert(f@.files[i as int] == f.files@[i as int]@);
            f.files[i].data = Vec::new();
            proof {
                let g = old(f)@.with_data(i as int, Seq::empty());
                assert(f.files@[i as int].data@ =~= Seq::empty());
                assert(f@.files =~= g.files);
                assert(f@.dirs =~= g.dirs);
            }
            true
        },
        None => false,
    }
}

/// Makes a directory. False if the path is listed as one already.
pub fn mkdir(f: &mut RamFs, path: &[u8]) -> (ok: bool)
    ensures
        ok == !old(f)@.is_dir(path@),
        final(f)@ == if ok {
            RamV { dirs: old(f)@.dirs.push(path@), ..old(f)@ }
        } else {
            old(f)@
        },
{
    if has_dir(f, path) {
        return false;
    }
    f.dirs.push(to_vec(path));
    assert(f@.dirs =~= old(f)@.dirs.push(path@));
    assert(f@.files =~= old(f)@.files);
    true
}

fn has_dir(f: &RamFs, path: &[u8]) -> (r: bool)
    ensures
        r == f@.is_dir(path@),
{
    let mut i: usize = 0;
    while i < f.dirs.len()
        invariant
            i <= f.dirs@.len(),
            forall|k: int| 0 <= k < i ==> (#[trigger] f@.dirs[k]) != path@,
        decreases f.dirs@.len() - i,
    {
        assert(f@.dirs[i as int] == f.dirs@[i as int]@);
        if same(&f.dirs[i], path) {
            return true;
        }
        i += 1;
    }
    false
}

/// Removes a file. False where there is none.
pub fn unlink(f: &mut RamFs, path: &[u8]) -> (ok: bool)
    ensures
        match find(old(f)@.files, path@, 0) {
            Some(i) => ok && final(f)@ == (RamV { files: old(f)@.files.remove(i), ..old(f)@ }),
            None => !ok && final(f)@ == old(f)@,
        },
{
    match index_of(f, path) {
        Some(i) => {
            let _ = f.files.remove(i);
            assert(f@.files =~= old(f)@.files.remove(i as int));
            assert(f@.dirs =~= old(f)@.dirs);
            true
        },
        None => false,
    }
}

/// Whether there is a file or directory at a path.
pub fn exists_path(f: &RamFs, path: &[u8]) -> (r: bool)
    ensures
        r == (path@ == seq![0x2fu8] || f@.is_dir(path@) || f@.file(path@) is Some),
{
    if path.len() == 1 && path[0] == 0x2f {
        assert(path@ =~= seq![0x2fu8]);
        return true;
    }
    if has_dir(f, path) {
        return true;
    }
    index_of(f, path).is_some()
}

// ---- listing ----

/// The path with a slash at its end.
pub open spec fn dir_prefix(path: Seq<u8>) -> Seq<u8> {
    if path.len() > 0 && path.last() == 0x2f {
        path
    } else {
        path.push(0x2f)
    }
}

/// What follows the directory's path, if it is a single name.
pub open spec fn entry_of(p: Seq<u8>, prefix: Seq<u8>) -> Option<Seq<u8>> {
    if prefix.len() < p.len() && p.take(prefix.len() as int) == prefix && !p.skip(
        prefix.len() as int,
    ).contains(0x2f) {
        Some(p.skip(prefix.len() as int))
    } else {
        None
    }
}

/// Names of the first `n` files that lie in the directory.
pub open spec fn file_names(f: Seq<FileV>, prefix: Seq<u8>, n: int) -> Seq<Seq<u8>>
    decreases n,
{
    if n <= 0 {
        Seq::empty()
    } else {
        let r = file_names(f, prefix, n - 1);
        match entry_of(f[n - 1].path, prefix) {
            Some(x) => r.push(x),
            None => r,
        }
    }
}

/// Names of the first `n` directories that lie in it, with a slash.
pub open spec fn dir_names(d: Seq<Seq<u8>>, prefix: Seq<u8>, n: int) -> Seq<Seq<u8>>
    decreases n,
{
    if n <= 0 {
        Seq::empty()
    } else {
        let r = dir_names(d, prefix, n - 1);
        match entry_of(d[n - 1], prefix) {
            Some(x) => r.push(x.push(0x2f)),
            None => r,
        }
    }
}

pub open spec fn names_view(v: Seq<Vec<u8>>) -> Seq<Seq<u8>> {
    Seq::new(v.len(), |i: int| v[i]@)
}

fn entry(p: &Vec<u8>, prefix: &Vec<u8>) -> (r: Option<Vec<u8>>)
    ensures
        match r {
            Some(x) => entry_of(p@, prefix@) == Some(x@),
            None => entry_of(p@, prefix@) is None,
        },
{
    let k: usize = prefix.len();
    let n: usize = p.len();
    if k >= n {
        return None;
    }
    let mut i: usize = 0;
    while i < k
        invariant
            k == prefix@.len(),
            n == p@.len(),
            k < n,
            i <= k,
            forall|j: int| 0 <= j < i ==> p@[j] == #[trigger] prefix@[j],
        decreases k - i,
    {
        if p[i] != prefix[i] {
            assert(p@.take(k as int)[i as int] != prefix@[i as int]);
            return None;
        }
        i += 1;
    }
    assert(p@.take(k as int) =~= prefix@);
    let mut r: Vec<u8> = Vec::new();
    let ghost rest = p@.skip(k as int);
    let mut j: usize = k;
    while j < n
        invariant
            n == p@.len(),
            k <= j <= n,
            rest == p@.skip(k as int),
            r@ == rest.take(j - k),
            forall|x: int| 0 <= x < j - k ==> (#[trigger] rest[x]) != 0x2f,
            k == prefix@.len(),
            k < n,
            p@.take(k as int) == prefix@,
        decreases n - j,
    {
        if p[j] == 0x2f {
            assert(rest[j - k] == 0x2f);
            return None;
        }
        r.push(p[j]);
        j += 1;
        assert(r@ =~= rest.take(j - k));
    }
    assert(r@ =~= rest);
    assert(!rest.contains(0x2f));
    Some(r)
}

/// Names in a directory: files first, then directories with a slash.
pub fn list_dir(f: &RamFs, path: &[u8]) -> (out: Vec<Vec<u8>>)
    ensures
        names_view(out@) == file_names(f@.files, dir_prefix(path@), f@.files.len() as int) + dir_names(
            f@.dirs,
            dir_prefix(path@),
            f@.dirs.len() as int,
        ),
{
    let mut prefix = to_vec(path);
    if path.len() == 0 || path[path.len() - 1] != 0x2f {
        prefix.push(0x2f);
    }
    assert(prefix@ == dir_prefix(path@));
    let mut out: Vec<Vec<u8>> = Vec::new();
    let mut i: usize = 0;
    assert(names_view(out@) =~= Seq::empty());
    while i < f.files.len()
        invariant
            i <= f.files@.len(),
            names_view(out@) == file_names(f@.files, prefix@, i as int),
        decreases f.files@.len() - i,
    {
        assert(f@.files[i as int] == f.files@[i as int]@);
        let ghost o = names_view(out@);
        if let Some(x) = entry(&f.files[i].path, &prefix) {
            let ghost xv = x@;
            out.push(x);
            assert(names_view(out@) =~= o.push(xv));
        }
        i += 1;
    }
    let ghost head = names_view(out@);
    let mut j: usize = 0;
    assert(head + dir_names(f@.dirs, prefix@, 0) =~= head);
    while j < f.dirs.len()
        invariant
            j <= f.dirs@.len(),
            names_view(out@) == head + dir_names(f@.dirs, prefix@, j as int),
        decreases f.dirs@.len() - j,
    {
        assert(f@.dirs[j as int] == f.dirs@[j as int]@);
        let ghost o = names_view(out@);
        if let Some(mut x) = entry(&f.dirs[j], &prefix) {
            x.push(0x2f);
            let ghost xv = x@;
            out.push(x);
            proof {
                assert(names_view(out@) =~= o.push(xv));
                assert(o.push(xv) =~= head + dir_names(f@.dirs, prefix@, j + 1));
            }
        }
        j += 1;
    }
    out
}

// ---- laws ----

pub proof fn lemma_find(f: Seq<FileV>, path: Seq<u8>, i: int)
    requires
        0 <= i,
    ensures
        match find(f, path, i) {
            Some(k) => i <= k < f.len() && f[k].path == path && forall|j: int|
                i <= j < k ==> (#[trigger] f[j]).path != path,
            None => forall|j: int| i <= j < f.len() ==> (#[trigger] f[j]).path != path,
        },
    decreases f.len() - i,
{
    if i < f.len() && f[i].path != path {
        lemma_find(f, path, i + 1);
    }
}

pub proof fn lemma_find_is(f: Seq<FileV>, path: Seq<u8>, i: int, k: int)
    requires
        0 <= i <= k < f.len(),
        f[k].path == path,
        forall|j: int| i <= j < k ==> (#[trigger] f[j]).path != path,
    ensures
        find(f, path, i) == Some(k),
    decreases k - i,
{
    if i < k {
        lemma_find_is(f, path, i + 1, k);
    }
}

/// A file reads as it was written, and no other file changes.
pub proof fn law_write_then_read(s: RamV, path: Seq<u8>, data: Seq<u8>, other: Seq<u8>)
    ensures
        s.written(path, data).file(path) == Some(data),
        other != path ==> s.written(path, data).file(other) == s.file(other),
{
    lemma_find(s.files, path, 0);
    lemma_find(s.files, other, 0);
    let t = s.written(path, data);
    let k = match find(s.files, path, 0) {
        Some(i) => i,
        None => s.files.len() as int,
    };
    lemma_find_is(t.files, path, 0, k);
    if other != path {
        match find(s.files, other, 0) {
            Some(j) => {
                lemma_find_is(t.files, other, 0, j);
            },
            None => {
                lemma_find(t.files, other, 0);
            },
        }
    }
}

/// A path as seen from a directory: one that starts with a slash as it is,
/// another below the directory.
pub open spec fn joined(path: Seq<u8>, cwd: Seq<u8>) -> Seq<u8> {
    if path.len() > 0 && path[0] == 0x2f {
        path
    } else {
        dir_prefix(cwd) + path
    }
}

pub fn norm(path: &[u8], cwd: &[u8]) -> (r: Vec<u8>)
    ensures
        r@ == joined(path@, cwd@),
{
    if path.len() > 0 && path[0] == 0x2f {
        return to_vec(path);
    }
    let mut r = to_vec(cwd);
    if cwd.len() == 0 || cwd[cwd.len() - 1] != 0x2f {
        r.push(0x2f);
    }
    let ghost head = r@;
    let mut i: usize = 0;
    assert(head + path@.take(0) =~= head);
    while i < path.len()
        invariant
            i <= path@.len(),
            r@ == head + path@.take(i as int),
        decreases path@.len() - i,
    {
        r.push(path[i]);
        i += 1;
        assert(r@ =~= head + path@.take(i as int));
    }
    assert(path@.take(i as int) =~= path@);
    r
}

/// A file's size fits the machine.
pub proof fn lemma_file_bound(f: &RamFs, path: Seq<u8>)
    ensures
        f@.file(path) matches Some(v) ==> v.len() <= usize::MAX,
{
    lemma_find(f@.files, path, 0);
    if let Some(i) = find(f@.files, path, 0) {
        assert(f@.files[i] == f.files@[i]@);
        assert(f.files@[i].data@.len() == f.files@[i].data.len());
    }
}

} // verus!
