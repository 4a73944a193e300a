//! Where the blocks of a file come from: a write stops short only at the end of
//! the disk or of what a file can hold.
use crate::fs::dev::DevV;
use crate::fs::disk;
use crate::fs::disk::{Geo, InoV};
use crate::fs::sound;
use vstd::prelude::*;

verus! {

/// Every block of the disk is taken.
pub open spec fn full(d: DevV, g: Geo) -> bool {
    forall|b: u32| b < g.nblocks ==> #[trigger] disk::taken(d, g, b)
}

/// What is taken first is the lowest block that is free; none is just where all
/// are taken.
pub proof fn law_lowest_free_block(d: DevV, g: Geo, from: u32)
    ensures
        match disk::first_free(d, g, from) {
            Some(b) => from <= b < g.nblocks && !disk::taken(d, g, b) && forall|x: u32|
                from <= x < b ==> #[trigger] disk::taken(d, g, x),
            None => forall|x: u32| from <= x < g.nblocks ==> #[trigger] disk::taken(d, g, x),
        },
    decreases g.nblocks - from,
{
    if from < g.nblocks {
        law_lowest_free_block(d, g, (from + 1) as u32);
    }
}

proof fn lemma_put_short(d: DevV, g: Geo, i: u32, r: InoV, off: int, buf: Seq<u8>, n: int)
    requires
        0 <= off,
        0 <= n <= buf.len(),
        off + buf.len() <= u32::MAX,
    ensures
        ({
            let (e, q, m) = disk::put_bytes(d, g, i, r, off, buf, n);
            &&& n <= m <= buf.len()
            &&& m < buf.len() ==> (off + m) / 512 >= 136 || full(e, g)
        }),
    decreases buf.len() - n,
{
    if n < buf.len() {
        let pos = off + n;
        let (e, q, b) = disk::grown(d, g, i, r, (pos / 512) as u32);
        law_lowest_free_block(d, g, 0);
        law_lowest_free_block(disk::listed(d, g, i, r).0, g, 0);
        if let Some(x) = b {
            let p = disk::part(buf, n, pos);
            let f = e.put(x, disk::over(e.at(x as int), pos % 512, p));
            lemma_put_short(f, g, i, q, off, buf, (n + p.len()) as int);
        }
    }
}

/// A write to a file of a sound disk writes all its bytes, unless the file
/// reaches its greatest length or no block is left.
pub proof fn law_write_falls_short_only_when_full(d: DevV, g: Geo, path: Seq<u8>, off: int, buf: Seq<u8>)
    requires
        sound::sound(d, g),
        disk::file_at(d, g, path) is Some,
        0 <= off,
        off + buf.len() <= u32::MAX,
    ensures
        ({
            let (i, r) = disk::file_at(d, g, path)->0;
            let (e, n) = disk::file_put(d, g, i, r, off, buf);
            &&& 0 <= n <= buf.len()
            &&& n < buf.len() ==> off + n >= 136 * 512 || full(e, g)
        }),
{
    let (i, r) = disk::file_at(d, g, path)->0;
    let (e, q, n) = disk::put_bytes(d, g, i, r, off, buf, 0);
    lemma_put_short(d, g, i, r, off, buf, 0);
    sound::lemma_put_bytes(d, g, i, off, buf, 0);
    let f = disk::file_put(d, g, i, r, off, buf).0;
    if n < buf.len() && full(e, g) {
        let s = disk::ino_sector(g, i);
        assert(sound::is_itab(g, s) && sound::is_meta(g, s));
        sound::lemma_ino_put(e, g, i, InoV { size: (off + n) as u32, ..q });
        assert forall|b: u32| b < g.nblocks implies #[trigger] disk::taken(f, g, b) by {
            assert(disk::taken(e, g, b));
            assert(sound::is_map(g, disk::map_sector(g, b)));
            assert(!sound::is_itab(g, disk::map_sector(g, b)));
        }
    }
}

} // verus!
