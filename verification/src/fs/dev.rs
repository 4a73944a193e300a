//! The block device as the kernel knows it: its sectors, and the writes that
//! are to reach it, in order.
use vstd::prelude::*;

verus! {

/// Bytes of a sector.
pub const SECTOR: usize = 512;

pub struct Dev {
    /// A device was found and set up.
    pub ready: bool,
    pub secs: Vec<[u8; SECTOR]>,
    /// Writes made since they were last taken, oldest first.
    pub log: Vec<(u32, [u8; SECTOR])>,
}

#[verifier::ext_equal]
pub struct DevV {
    pub ready: bool,
    pub secs: Seq<Seq<u8>>,
    pub log: Seq<(u32, Seq<u8>)>,
}

impl View for Dev {
    type V = DevV;

    open spec fn view(&self) -> DevV {
        DevV {
            ready: self.ready,
            secs: Seq::new(self.secs@.len(), |i: int| self.secs@[i]@),
            log: Seq::new(self.log@.len(), |i: int| (self.log@[i].0, self.log@[i].1@)),
        }
    }
}

/// A sector of zeros.
pub open spec fn zeros() -> Seq<u8> {
    Seq::new(SECTOR as nat, |i: int| 0u8)
}

impl DevV {
    /// The sector can be read and written.
    pub open spec fn has(self, lba: int) -> bool {
        self.ready && 0 <= lba < self.secs.len()
    }

    /// What a read of the sector gives; zeros where it fails.
    pub open spec fn at(self, lba: int) -> Seq<u8> {
        if self.has(lba) {
            self.secs[lba]
        } else {
            zeros()
        }
    }

    /// After a write of the sector.
    pub open spec fn put(self, lba: u32, data: Seq<u8>) -> DevV {
        if self.has(lba as int) {
            DevV {
                secs: self.secs.update(lba as int, data),
                log: self.log.push((lba, data)),
                ..self
            }
        } else {
            self
        }
    }

    pub open spec fn wf(self) -> bool {
        forall|i: int| 0 <= i < self.secs.len() ==> (#[trigger] self.secs[i]).len() == SECTOR
    }
}

/// A device with these sectors; none of them where there is no device.
pub fn new(secs: Vec<[u8; SECTOR]>, ready: bool) -> (d: Dev)
    ensures
        d@.wf(),
        d@ == (DevV { ready, secs: Seq::new(secs@.len(), |i: int| secs@[i]@), log: Seq::empty() }),
{
    let d = Dev { ready, secs, log: Vec::new() };
    assert(d@.log =~= Seq::empty());
    d
}

/// Another device that holds the same.
pub fn copy(d: &Dev) -> (c: Dev)
    ensures
        c@ == d@,
{
    let n: usize = d.secs.len();
    let mut secs: Vec<[u8; SECTOR]> = Vec::new();
    let mut i: usize = 0;
    while i < n
        invariant
            n == d.secs@.len(),
            i <= n,
            secs@ == d.secs@.take(i as int),
        decreases n - i,
    {
        secs.push(d.secs[i]);
        assert(secs@ =~= d.secs@.take(i + 1));
        i += 1;
    }
    let l: usize = d.log.len();
    let mut log: Vec<(u32, [u8; SECTOR])> = Vec::new();
    let mut j: usize = 0;
    while j < l
        invariant
            l == d.log@.len(),
            j <= l,
            log@ == d.log@.take(j as int),
        decreases l - j,
    {
        log.push(d.log[j]);
        assert(log@ =~= d.log@.take(j + 1));
        j += 1;
    }
    let c = Dev { ready: d.ready, secs, log };
    assert(c@ =~= d@);
    c
}

pub fn is_ready(d: &Dev) -> (r: bool)
    ensures
        r == d@.ready,
{
    d.ready
}

/// Sectors of the device; 0 without one.
pub fn capacity_sectors(d: &Dev) -> (n: u64)
    ensures
        n == if d@.ready {
            d@.secs.len()
        } else {
            0
        },
{
    if d.ready {
        d.secs.len() as u64
    } else {
        0
    }
}

/// Reads a sector. False, with `out` as it was, where there is none.
pub fn read_block(d: &Dev, lba: u32, out: &mut [u8; SECTOR]) -> (ok: bool)
    ensures
        ok == d@.has(lba as int),
        final(out)@ == if ok {
            d@.secs[lba as int]
        } else {
            old(out)@
        },
{
    if d.ready && (lba as u64) < d.secs.len() as u64 {
        *out = d.secs[lba as usize];
        true
    } else {
        false
    }
}

/// Writes a sector. False where there is none.
pub fn write_block(d: &mut Dev, lba: u32, data: &[u8; SECTOR]) -> (ok: bool)
    ensures
        ok == old(d)@.has(lba as int),
        final(d)@ == old(d)@.put(lba, data@),
{
    if d.ready && (lba as u64) < d.secs.len() as u64 {
        d.secs.set(lba as usize, *data);
        d.log.push((lba, *data));
        proof {
            assert(d@.secs =~= old(d)@.secs.update(lba as int, data@));
            assert(d@.log =~= old(d)@.log.push((lba, data@)));
        }
        true
    } else {
        false
    }
}

/// Hands out the writes that have not reached the device yet.
pub fn take_log(d: &mut Dev) -> (r: Vec<(u32, [u8; SECTOR])>)
    ensures
        r@ == old(d).log@,
        final(d)@ == (DevV { log: Seq::empty(), ..old(d)@ }),
{
    let mut r: Vec<(u32, [u8; SECTOR])> = Vec::new();
    std::mem::swap(&mut r, &mut d.log);
    proof {
        assert(d@.log =~= Seq::empty());
        assert(d@.secs =~= old(d)@.secs);
    }
    r
}

/// Little-endian word at `o`.
pub open spec fn word(b: Seq<u8>, o: int) -> u32 {
    (b[o] + b[o + 1] * 0x100 + b[o + 2] * 0x1_0000 + b[o + 3] * 0x100_0000) as u32
}

/// Byte `k` of a little-endian word.
pub open spec fn byte(v: u32, k: int) -> u8 {
    (if k == 0 {
        v as int % 256
    } else if k == 1 {
        v as int / 0x100 % 256
    } else if k == 2 {
        v as int / 0x1_0000 % 256
    } else {
        v as int / 0x100_0000 % 256
    }) as u8
}

pub open spec fn le4(v: u32) -> Seq<u8> {
    Seq::new(4, |k: int| byte(v, k))
}

/// The bytes with a little-endian word stored at `o`.
pub open spec fn with_word(b: Seq<u8>, o: int, v: u32) -> Seq<u8> {
    Seq::new(
        b.len(),
        |i: int|
            if o <= i < o + 4 {
                byte(v, i - o)
            } else {
                b[i]
            },
    )
}

/// A word stored is the word read, and words elsewhere are as before.
pub proof fn law_word_stored(b: Seq<u8>, o: int, v: u32, p: int)
    requires
        0 <= o,
        o + 4 <= b.len(),
        0 <= p,
        p + 4 <= b.len(),
    ensures
        word(with_word(b, o, v), o) == v,
        p + 4 <= o || o + 4 <= p ==> word(with_word(b, o, v), p) == word(b, p),
{
    let c = with_word(b, o, v);
    assert(c[o] == byte(v, 0) && c[o + 1] == byte(v, 1) && c[o + 2] == byte(v, 2) && c[o + 3] == byte(
        v,
        3,
    ));
}

/// Reads a little-endian word.
pub fn r32(b: &[u8], o: usize) -> (v: u32)
    requires
        o + 4 <= b@.len(),
    ensures
        v == word(b@, o as int),
{
    let n: usize = b.len();
    assert(o + 4 <= n);
    b[o] as u32 + b[o + 1] as u32 * 0x100 + b[o + 2] as u32 * 0x1_0000 + b[o + 3] as u32 * 0x100_0000
}

/// Stores a little-endian word.
pub fn w32(b: &mut [u8], o: usize, v: u32)
    requires
        o + 4 <= old(b)@.len(),
    ensures
        final(b)@ == with_word(old(b)@, o as int, v),
{
    let n: usize = b.len();
    assert(o + 4 <= n);
    b[o] = (v % 256) as u8;
    b[o + 1] = (v / 0x100 % 256) as u8;
    b[o + 2] = (v / 0x1_0000 % 256) as u8;
    b[o + 3] = (v / 0x100_0000 % 256) as u8;
    assert(b@ =~= with_word(old(b)@, o as int, v));
}

/// Stores a little-endian word in a sector.
pub fn put32(b: &mut [u8; SECTOR], o: usize, v: u32)
    requires
        o + 4 <= SECTOR,
    ensures
        final(b)@ == with_word(old(b)@, o as int, v),
{
    b[o] = (v % 256) as u8;
    b[o + 1] = (v / 0x100 % 256) as u8;
    b[o + 2] = (v / 0x1_0000 % 256) as u8;
    b[o + 3] = (v / 0x100_0000 % 256) as u8;
    assert(b@ =~= with_word(old(b)@, o as int, v));
}

/// Reads a little-endian word of a sector.
pub fn get32(b: &[u8; SECTOR], o: usize) -> (v: u32)
    requires
        o + 4 <= SECTOR,
    ensures
        v == word(b@, o as int),
{
    b[o] as u32 + b[o + 1] as u32 * 0x100 + b[o + 2] as u32 * 0x1_0000 + b[o + 3] as u32 * 0x100_0000
}

} // verus!
