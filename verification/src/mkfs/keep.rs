//! What adding a file leaves alone: everything else on the image.
use crate::mkfs::image;
use crate::mkfs::image::{KIND_DIR, KIND_FILE, MAX_FILES, NAME_LEN, NBLOCKS};
use crate::mkfs::laws;
use crate::mkfs::laws::Parts;
use crate::mkfs::mount;
use crate::mkfs::tight;
use vstd::prelude::*;

verus! {

/// The block is in use, and for no directory.
pub open spec fn apart(d: Seq<u8>, b: int) -> bool {
    &&& laws::first(d) <= b < NBLOCKS
    &&& image::used(d, b)
    &&& forall|j: int|
        image::is_ino(d, j) && image::kind_of(d, j) == KIND_DIR ==> !(#[trigger] laws::in_dir(d, j, b))
}

/// All blocks of a file are such.
pub open spec fn parts_apart(d: Seq<u8>, f: Parts) -> bool {
    &&& forall|j: int| 0 <= j < f.p.len() ==> apart(d, #[trigger] f.p[j])
    &&& forall|m: int| 0 <= m < f.l.len() ==> apart(d, #[trigger] f.l[m])
    &&& f.ind != 0 ==> apart(d, f.ind)
    &&& f.dind != 0 ==> apart(d, f.dind)
}

/// The inode is a file that has its data, in blocks that are no directory's.
pub open spec fn stands(d: Seq<u8>, k: int) -> bool {
    exists|f: Parts, data: Seq<u8>| #[trigger] laws::whole(d, k, f, data) && parts_apart(d, f)
}

/// Every file has its data.
pub open spec fn files_stand(d: Seq<u8>) -> bool {
    forall|k: int|
        #[trigger] image::is_ino(d, k) && image::kind_of(d, k) == KIND_FILE ==> stands(d, k)
}

/// Every name stands for something.
pub open spec fn names_lead(d: Seq<u8>) -> bool {
    forall|j: int, n: Seq<u8>|
        image::is_ino(d, j) && n.len() > 0 && (#[trigger] image::looked_up(d, j, n) is Some) ==> {
            let c = image::looked_up(d, j, n)->0 as int;
            image::is_ino(d, c) && image::kind_of(d, c) != 0
        }
}

/// An image as `Image::new` and any number of added files leave it.
pub open spec fn made(d: Seq<u8>) -> bool {
    tight::built(d) && files_stand(d) && names_lead(d) && d.take(8) == image::magic()
}

/// Names on the image are not longer than an entry's and have no zero.
proof fn lemma_name_plain(d: Seq<u8>, o: int, k: int)
    requires
        0 <= k <= NAME_LEN,
        0 <= o,
        o + NAME_LEN <= d.len(),
    ensures
        k <= image::name_end(d, o, k) <= NAME_LEN,
        forall|x: int| k <= x < image::name_end(d, o, k) ==> #[trigger] d[o + x] != 0,
    decreases NAME_LEN - k,
{
    if k < NAME_LEN && d[o + k] != 0 {
        lemma_name_plain(d, o, k + 1);
    }
}

/// No directory in order has a name that an entry cannot hold.
proof fn lemma_odd_name(d: Seq<u8>, i: int, n: Seq<u8>)
    requires
        laws::tidy(d, i),
        n.len() > 0,
        !laws::name_ok(n),
    ensures
        image::looked_up(d, i, n) is None,
{
    laws::lemma_find(d, i, n, 0);
    if let Some(u) = image::find(d, i, n, 0) {
        laws::lemma_ent(d, i, u);
        let o = image::ent_pos(d, i, u);
        assert(laws::matches_at(d, i, n, u));
        lemma_name_plain(d, o, 0);
        assert forall|x: int| 0 <= x < n.len() implies #[trigger] n[x] != 0 by {
            assert(n[x] == d[o + x]);
        }
    }
}

/// Which inodes are in use, and for what, after a file was added.
proof fn lemma_kinds(d: Seq<u8>, parent: int, name: Seq<u8>, data: Seq<u8>, k: int)
    requires
        tight::built(d),
        image::is_ino(d, parent),
        image::kind_of(d, parent) == KIND_DIR,
        laws::name_ok(name),
        image::looked_up(d, parent, name) is None,
        data.len() <= u32::MAX,
        image::added(d, parent, name, data) is Some,
        image::is_ino(d, k),
    ensures
        image::kind_of(image::added(d, parent, name, data)->0, k) == if k == image::first_ino(d, 1)->0 {
            KIND_FILE
        } else {
            image::kind_of(d, k)
        },
        image::kind_of(d, image::first_ino(d, 1)->0) == 0,
{
    let g = image::added(d, parent, name, data)->0;
    let i = image::first_ino(d, 1)->0;
    assert(laws::tidy(d, parent));
    laws::lemma_added(d, parent, name, data);
    laws::lemma_first_ino(d, 1);
    if k != i && k != parent {
        laws::lemma_slot_kept(d, g, i, parent, k);
        assert(g[image::ino_pos(k)] == d[image::ino_pos(k)]);
    }
}

/// Lookups after a file was added.
proof fn lemma_lookups(d: Seq<u8>, parent: int, name: Seq<u8>, data: Seq<u8>, p: int, n: Seq<u8>)
    requires
        tight::built(d),
        image::is_ino(d, parent),
        image::kind_of(d, parent) == KIND_DIR,
        laws::name_ok(name),
        image::looked_up(d, parent, name) is None,
        data.len() <= u32::MAX,
        image::added(d, parent, name, data) is Some,
        image::is_ino(d, p),
        n.len() > 0,
        p != parent || n != name,
    ensures
        image::looked_up(image::added(d, parent, name, data)->0, p, n) == image::looked_up(d, p, n),
{
    let g = image::added(d, parent, name, data)->0;
    lemma_kinds(d, parent, name, data, p);
    laws::lemma_added(d, parent, name, data);
    assert(laws::tidy(d, parent));
    if image::kind_of(d, p) == KIND_DIR {
        assert(laws::tidy(d, p));
        if p != parent {
            tight::lemma_dirs_apart(d, p, parent);
            laws::law_add_keeps_dirs(d, parent, name, data, p, n);
        } else if !laws::name_ok(n) {
            lemma_odd_name(d, parent, n);
            lemma_odd_name(g, parent, n);
        }
    }
}

/// Another file keeps its data and its blocks.
proof fn lemma_other_stands(d: Seq<u8>, parent: int, name: Seq<u8>, data: Seq<u8>, k: int)
    requires
        tight::built(d),
        image::is_ino(d, parent),
        image::kind_of(d, parent) == KIND_DIR,
        laws::name_ok(name),
        image::looked_up(d, parent, name) is None,
        data.len() <= u32::MAX,
        image::added(d, parent, name, data) is Some,
        image::is_ino(d, k),
        image::kind_of(d, k) == KIND_FILE,
        stands(d, k),
    ensures
        stands(image::added(d, parent, name, data)->0, k),
        image::content(image::added(d, parent, name, data)->0, k) == image::content(d, k),
{
    let g = image::added(d, parent, name, data)->0;
    let i = image::first_ino(d, 1)->0;
    let (f, old_data) = choose|f: Parts, old_data: Seq<u8>| #[trigger]
        laws::whole(d, k, f, old_data) && parts_apart(d, f);
    assert(laws::tidy(d, parent));
    laws::lemma_added(d, parent, name, data);
    laws::lemma_first_ino(d, 1);
    laws::lemma_slot_kept(d, g, i, parent, k);
    assert forall|j: int| 0 <= j < f.p.len() implies laws::own_block(d, #[trigger] f.p[j], parent) by {
        assert(apart(d, f.p[j]));
    }
    assert forall|m: int| 0 <= m < f.l.len() implies laws::own_block(d, #[trigger] f.l[m], parent) by {
        assert(apart(d, f.l[m]));
    }
    assert(laws::held(d, f, parent));
    laws::law_add_keeps(d, parent, name, data, k, f, old_data);
    laws::lemma_content(d, k, f, old_data);
    laws::lemma_whole_kept(d, g, k, f, old_data);
    assert forall|b: int| #[trigger] apart(d, b) implies apart(g, b) by {
        lemma_still_apart(d, parent, name, data, b);
    }
    assert(parts_apart(g, f)) by {
        assert forall|j: int| 0 <= j < f.p.len() implies apart(g, #[trigger] f.p[j]) by {
            assert(apart(d, f.p[j]));
        }
        assert forall|m: int| 0 <= m < f.l.len() implies apart(g, #[trigger] f.l[m]) by {
            assert(apart(d, f.l[m]));
        }
    }
}

/// A block that was no directory's is none after a file was added.
proof fn lemma_still_apart(d: Seq<u8>, parent: int, name: Seq<u8>, data: Seq<u8>, b: int)
    requires
        tight::built(d),
        image::is_ino(d, parent),
        image::kind_of(d, parent) == KIND_DIR,
        laws::name_ok(name),
        image::looked_up(d, parent, name) is None,
        data.len() <= u32::MAX,
        image::added(d, parent, name, data) is Some,
        apart(d, b),
    ensures
        apart(image::added(d, parent, name, data)->0, b),
{
    let g = image::added(d, parent, name, data)->0;
    assert(laws::tidy(d, parent));
    laws::lemma_added(d, parent, name, data);
    assert(image::used(g, b));
    assert forall|j: int| image::is_ino(g, j) && image::kind_of(g, j) == KIND_DIR implies !(#[trigger] laws::in_dir(
        g,
        j,
        b,
    )) by {
        lemma_kinds(d, parent, name, data, j);
        assert(!laws::in_dir(d, j, b));
        if j != parent {
            assert(laws::tidy(d, j));
            tight::lemma_dirs_apart(d, j, parent);
            laws::law_add_keeps_dirs(d, parent, name, data, j, name);
        }
    }
}

/// The added file has its data in blocks that are no directory's.
proof fn lemma_new_stands(d: Seq<u8>, parent: int, name: Seq<u8>, data: Seq<u8>)
    requires
        tight::built(d),
        image::is_ino(d, parent),
        image::kind_of(d, parent) == KIND_DIR,
        laws::name_ok(name),
        image::looked_up(d, parent, name) is None,
        data.len() <= u32::MAX,
        image::added(d, parent, name, data) is Some,
    ensures
        stands(image::added(d, parent, name, data)->0, image::first_ino(d, 1)->0),
{
    let g = image::added(d, parent, name, data)->0;
    let i = image::first_ino(d, 1)->0;
    assert(laws::tidy(d, parent));
    laws::lemma_added(d, parent, name, data);
    let f = choose|f: Parts| #[trigger] laws::whole(g, i, f, data) && laws::fresh_parts(d, g, f, parent);
    assert forall|b: int| #[trigger] laws::fresh_block(d, g, b, parent) implies apart(g, b) by {
        assert forall|j: int| image::is_ino(g, j) && image::kind_of(g, j) == KIND_DIR implies !(
        #[trigger] laws::in_dir(g, j, b)) by {
            lemma_kinds(d, parent, name, data, j);
            if j != parent {
                assert(laws::tidy(d, j));
                tight::lemma_dirs_apart(d, j, parent);
                laws::law_add_keeps_dirs(d, parent, name, data, j, name);
                if laws::in_dir(d, j, b) {
                    let s = choose|s: int|
                        0 <= s < image::ent_count(d, j) / 16 && #[trigger] laws::dir_block(d, j, s) == b;
                    assert(image::used(d, laws::dir_block(d, j, s)));
                }
            }
        }
    }
    assert(parts_apart(g, f)) by {
        assert forall|j: int| 0 <= j < f.p.len() implies apart(g, #[trigger] f.p[j]) by {
            assert(laws::fresh_block(d, g, f.p[j], parent));
        }
        assert forall|m: int| 0 <= m < f.l.len() implies apart(g, #[trigger] f.l[m]) by {
            assert(laws::fresh_block(d, g, f.l[m], parent));
        }
    }
}

/// Adding a file leaves everything else as it was: every other name in every
/// directory leads where it led and reads as it read, every block that was in
/// use is in use, and the image still has its label.
pub proof fn law_add_keeps_all(d: Seq<u8>, parent: int, name: Seq<u8>, data: Seq<u8>, p: int, n: Seq<u8>)
    requires
        made(d),
        image::is_ino(d, parent),
        image::kind_of(d, parent) == KIND_DIR,
        laws::name_ok(name),
        image::looked_up(d, parent, name) is None,
        data.len() <= u32::MAX,
        image::added(d, parent, name, data) is Some,
        image::is_ino(d, p),
        n.len() > 0,
        p != parent || n != name,
    ensures
        ({
            let g = image::added(d, parent, name, data)->0;
            &&& image::looked_up(g, p, n) == image::looked_up(d, p, n)
            &&& image::file_read(g, p, n) == image::file_read(d, p, n)
            &&& forall|x: int| 0 <= x < NBLOCKS && image::used(d, x) ==> #[trigger] image::used(g, x)
            &&& g.take(8) == image::magic()
        }),
{
    let g = image::added(d, parent, name, data)->0;
    assert(laws::tidy(d, parent));
    laws::lemma_added(d, parent, name, data);
    assert(g.take(8) =~= d.take(8));
    lemma_lookups(d, parent, name, data, p, n);
    if let Some(c) = image::looked_up(d, p, n) {
        assert(image::is_ino(d, c as int) && image::kind_of(d, c as int) != 0);
        lemma_kinds(d, parent, name, data, c as int);
        if image::kind_of(d, c as int) == KIND_FILE {
            lemma_other_stands(d, parent, name, data, c as int);
        }
    }
}

/// Adding a file under a new name keeps an image one that was made so.
pub proof fn law_add_keeps_made(d: Seq<u8>, parent: int, name: Seq<u8>, data: Seq<u8>)
    requires
        made(d),
        image::is_ino(d, parent),
        image::kind_of(d, parent) == KIND_DIR,
        laws::name_ok(name),
        image::looked_up(d, parent, name) is None,
        data.len() <= u32::MAX,
        image::added(d, parent, name, data) is Some,
    ensures
        made(image::added(d, parent, name, data)->0),
{
    let g = image::added(d, parent, name, data)->0;
    let i = image::first_ino(d, 1)->0;
    tight::law_add_keeps_built(d, parent, name, data);
    assert(laws::tidy(d, parent));
    laws::lemma_added(d, parent, name, data);
    lemma_new_stands(d, parent, name, data);
    assert(g.take(8) =~= d.take(8));
    assert forall|k: int| #[trigger] image::is_ino(g, k) && image::kind_of(g, k) == KIND_FILE implies stands(g, k) by {
        assert(image::is_ino(d, k));
        lemma_kinds(d, parent, name, data, k);
        if k != i {
            lemma_other_stands(d, parent, name, data, k);
        }
    }
    assert forall|j: int, n: Seq<u8>|
        image::is_ino(g, j) && n.len() > 0 && (#[trigger] image::looked_up(g, j, n) is Some) implies {
        let c = image::looked_up(g, j, n)->0 as int;
        image::is_ino(g, c) && image::kind_of(g, c) != 0
    } by {
        lemma_kinds(d, parent, name, data, i);
        if j != parent || n != name {
            lemma_lookups(d, parent, name, data, j, n);
            assert(image::looked_up(d, j, n) is Some);
            lemma_kinds(d, parent, name, data, image::looked_up(d, j, n)->0 as int);
        }
    }
}

/// An empty image is such.
pub proof fn law_fresh_made(nfiles: int)
    requires
        0 <= nfiles <= MAX_FILES,
    ensures
        made(image::fresh(nfiles)),
{
    let d = image::fresh(nfiles);
    tight::law_fresh_built(nfiles);
    laws::law_fresh(nfiles);
    let b = mount::lemma_fresh_bytes(nfiles);
    assert(d.take(8) =~= image::magic());
    assert(image::ino_pos(1) == 1536 && image::ino_pos(2) == 1600);
    assert forall|k: int| #[trigger] image::is_ino(d, k) && k >= 3 implies image::kind_of(d, k) == 0 by {
        image::lemma_ino_room(d, k);
        assert(image::ino_pos(k) == 1536 + (k - 1) * 64);
    }
    assert forall|j: int, n: Seq<u8>|
        image::is_ino(d, j) && n.len() > 0 && (#[trigger] image::looked_up(d, j, n) is Some) implies {
        let c = image::looked_up(d, j, n)->0 as int;
        image::is_ino(d, c) && image::kind_of(d, c) != 0
    } by {
        if j == 1 {
            if !laws::name_ok(n) {
                lemma_odd_name(d, 1, n);
            }
        } else if j == 2 {
            assert(image::ent_count(d, 2) == 0);
            assert(image::find(d, 2, n, 0) is None);
        }
    }
}

} // verus!
