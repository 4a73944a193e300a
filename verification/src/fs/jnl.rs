//! A write-ahead journal at the end of the disk.
//!
//! The journal has a header sector with its generation, then slots of two
//! sectors. A record has a description and the data of one sector; a commit
//! closes a transaction. Replay applies records outside transactions, and
//! transactions whose records are all there, in the order they were made.
use crate::fs::dev;
use crate::fs::dev::{Dev, DevV, SECTOR};
use vstd::prelude::*;

verus! {

/// Slots used at most.
pub const NREC: usize = 256;

/// Records a transaction holds at most before it is committed in part.
pub const CHUNK: u32 = 200;

pub const MAGIC_A: u32 = 0x4a52_4e41;

pub const MAGIC_C: u32 = 0x4a52_4e43;

pub const MAGIC_H: u32 = 0x4a52_4e31;

/// Stands for the transaction in a commit's checksum.
pub const COMMIT_TX: u32 = 0xffff_ffff;

// ---- checksum ----

/// `k` steps of the checksum's shift register.
pub open spec fn crc_bits(crc: u32, k: int) -> u32
    decreases k,
{
    if k <= 0 {
        crc
    } else {
        let c = crc_bits(crc, k - 1);
        (c >> 1) ^ (if c & 1 != 0 {
            0xedb8_8320u32
        } else {
            0
        })
    }
}

/// The register after the bytes.
pub open spec fn crc_run(crc: u32, b: Seq<u8>) -> u32
    decreases b.len(),
{
    if b.len() == 0 {
        crc
    } else {
        crc_bits(crc_run(crc, b.drop_last()) ^ (b.last() as u32), 8)
    }
}

/// CRC-32 of the bytes.
pub open spec fn crc_of(b: Seq<u8>) -> u32 {
    !crc_run(0xffff_ffff, b)
}

/// The checksum of a record: sequence number, sector, transaction and data.
pub open spec fn sum(seq: u32, lba: u32, tx: u32, data: Seq<u8>) -> u32 {
    crc_of(dev::le4(seq) + dev::le4(lba) + dev::le4(tx) + data)
}

fn crc_byte(crc: u32, b: u8) -> (r: u32)
    ensures
        r == crc_bits(crc ^ (b as u32), 8),
{
    let c0: u32 = crc ^ (b as u32);
    let mut c: u32 = c0;
    let mut k: usize = 0;
    while k < 8
        invariant
            k <= 8,
            c == crc_bits(c0, k as int),
        decreases 8 - k,
    {
        let m: u32 = if c & 1 != 0 {
            0xedb8_8320
        } else {
            0
        };
        c = (c >> 1) ^ m;
        k += 1;
    }
    c
}

proof fn lemma_run_push(crc: u32, b: Seq<u8>, x: u8)
    ensures
        crc_run(crc, b.push(x)) == crc_bits(crc_run(crc, b) ^ (x as u32), 8),
{
    assert(b.push(x).drop_last() =~= b);
}

/// Feeds the four bytes of a word.
fn crc_word(crc: u32, v: u32, Ghost(done): Ghost<Seq<u8>>, Ghost(c0): Ghost<u32>) -> (r: u32)
    requires
        crc == crc_run(c0, done),
    ensures
        r == crc_run(c0, done + dev::le4(v)),
{
    let a = crc_byte(crc, (v % 256) as u8);
    let b = crc_byte(a, (v / 0x100 % 256) as u8);
    let c = crc_byte(b, (v / 0x1_0000 % 256) as u8);
    let d = crc_byte(c, (v / 0x100_0000 % 256) as u8);
    proof {
        let d1 = done.push(dev::byte(v, 0));
        let d2 = d1.push(dev::byte(v, 1));
        let d3 = d2.push(dev::byte(v, 2));
        let d4 = d3.push(dev::byte(v, 3));
        lemma_run_push(c0, done, dev::byte(v, 0));
        lemma_run_push(c0, d1, dev::byte(v, 1));
        lemma_run_push(c0, d2, dev::byte(v, 2));
        lemma_run_push(c0, d3, dev::byte(v, 3));
        assert(d4 =~= done + dev::le4(v));
    }
    d
}

/// Feeds the bytes of a sector.
fn crc_data(crc: u32, data: &[u8; SECTOR], Ghost(done): Ghost<Seq<u8>>, Ghost(c0): Ghost<u32>) -> (r: u32)
    requires
        crc == crc_run(c0, done),
    ensures
        r == crc_run(c0, done + data@),
{
    let mut c: u32 = crc;
    let mut i: usize = 0;
    assert(done + data@.take(0) =~= done);
    while i < SECTOR
        invariant
            i <= SECTOR,
            c == crc_run(c0, done + data@.take(i as int)),
        decreases SECTOR - i,
    {
        c = crc_byte(c, data[i]);
        proof {
            lemma_run_push(c0, done + data@.take(i as int), data@[i as int]);
            assert((done + data@.take(i as int)).push(data@[i as int]) =~= done + data@.take(i + 1));
        }
        i += 1;
    }
    assert(data@.take(SECTOR as int) =~= data@);
    c
}

/// Checksum of a record.
pub fn jnl_crc(seq: u32, lba: u32, tx: u32, data: &[u8; SECTOR]) -> (r: u32)
    ensures
        r == sum(seq, lba, tx, data@),
{
    let c0: u32 = 0xffff_ffff;
    let ghost e = Seq::<u8>::empty();
    let a = crc_word(c0, seq, Ghost(e), Ghost(c0));
    let b = crc_word(a, lba, Ghost(e + dev::le4(seq)), Ghost(c0));
    let c = crc_word(b, tx, Ghost(e + dev::le4(seq) + dev::le4(lba)), Ghost(c0));
    let d = crc_data(c, data, Ghost(e + dev::le4(seq) + dev::le4(lba) + dev::le4(tx)), Ghost(c0));
    proof {
        assert(e + dev::le4(seq) + dev::le4(lba) + dev::le4(tx) + data@ =~= dev::le4(seq) + dev::le4(lba)
            + dev::le4(tx) + data@);
    }
    !d
}

/// Checksum that binds sequence number, sector and data alone.
pub fn plain_crc(seq: u32, lba: u32, data: &[u8; SECTOR]) -> (r: u32)
    ensures
        r == crc_of(dev::le4(seq) + dev::le4(lba) + data@),
{
    let c0: u32 = 0xffff_ffff;
    let ghost e = Seq::<u8>::empty();
    let a = crc_word(c0, seq, Ghost(e), Ghost(c0));
    let b = crc_word(a, lba, Ghost(e + dev::le4(seq)), Ghost(c0));
    let d = crc_data(b, data, Ghost(e + dev::le4(seq) + dev::le4(lba)), Ghost(c0));
    proof {
        assert(e + dev::le4(seq) + dev::le4(lba) + data@ =~= dev::le4(seq) + dev::le4(lba) + data@);
    }
    !d
}

// ---- the log ----

#[derive(Clone, Copy, PartialEq, Eq, Structural, Debug)]
pub struct Jnl {
    /// First sector of the journal, and how many it has.
    pub jlba: u32,
    pub jb: u32,
    pub on: bool,
    /// Next sequence number; never 0.
    pub next: u32,
    pub gen: u32,
    /// Open transaction: nesting depth, id and records so far.
    pub depth: u32,
    pub tx: u32,
    pub tx_count: u32,
    pub tx_next: u32,
}

/// The number after `n`; 0 is skipped.
pub open spec fn succ(n: u32) -> u32 {
    if n == u32::MAX {
        1
    } else {
        (n + 1) as u32
    }
}

fn next_of(n: u32) -> (r: u32)
    ensures
        r == succ(n),
{
    if n == u32::MAX {
        1
    } else {
        n + 1
    }
}

impl Jnl {
    pub open spec fn slots(self) -> int {
        let n = if self.jb == 0 {
            0
        } else {
            (self.jb - 1) / 2
        };
        if n < NREC {
            n
        } else {
            NREC as int
        }
    }

    /// First sector of a slot.
    pub open spec fn slot_lba(self, s: int) -> int {
        self.jlba + 1 + 2 * s
    }

    /// The journal's sectors have numbers.
    pub open spec fn wf(self) -> bool {
        self.jlba + self.jb <= u32::MAX
    }

    /// The sector is one of the journal's.
    pub open spec fn inside(self, lba: int) -> bool {
        self.jlba <= lba < self.jlba + self.jb
    }
}

/// A journal that is off.
pub fn off() -> (j: Jnl)
    ensures
        j == (Jnl {
            jlba: 0,
            jb: 0,
            on: false,
            next: 0,
            gen: 0,
            depth: 0,
            tx: 0,
            tx_count: 0,
            tx_next: 1,
        }),
        j.wf(),
{
    Jnl { jlba: 0, jb: 0, on: false, next: 0, gen: 0, depth: 0, tx: 0, tx_count: 0, tx_next: 1 }
}

pub fn enabled(j: &Jnl) -> (r: bool)
    ensures
        r == j.on,
{
    j.on
}

fn nslots(j: &Jnl) -> (n: usize)
    ensures
        n == j.slots(),
        n <= NREC,
        n > 0 ==> 2 * n + 1 <= j.jb,
{
    let n: u32 = if j.jb == 0 {
        0
    } else {
        (j.jb - 1) / 2
    };
    if n < NREC as u32 {
        n as usize
    } else {
        NREC
    }
}

// ---- reading records ----

/// A record.
#[verifier::ext_equal]
pub struct RecV {
    pub seq: u32,
    pub lba: u32,
    pub tx: u32,
    pub data: Seq<u8>,
}

#[derive(Clone, Copy)]
pub struct Rec {
    pub seq: u32,
    pub lba: u32,
    pub tx: u32,
    pub data: [u8; SECTOR],
}

impl View for Rec {
    type V = RecV;

    open spec fn view(&self) -> RecV {
        RecV { seq: self.seq, lba: self.lba, tx: self.tx, data: self.data@ }
    }
}

/// What a slot holds.
pub enum SlotV {
    Nothing,
    Data(RecV),
    Commit { tx: u32, count: u32 },
}

pub enum Slot {
    Nothing,
    Data(Rec),
    Commit { tx: u32, count: u32 },
}

impl View for Slot {
    type V = SlotV;

    open spec fn view(&self) -> SlotV {
        match self {
            Slot::Nothing => SlotV::Nothing,
            Slot::Data(r) => SlotV::Data(r@),
            Slot::Commit { tx, count } => SlotV::Commit { tx: *tx, count: *count },
        }
    }
}

/// What the two sectors of a slot say: a record or a commit of generation
/// `gen` whose checksum is right, or nothing.
pub open spec fn slot_of(a: Seq<u8>, b: Seq<u8>, gen: u32) -> SlotV {
    let seq = dev::word(a, 8);
    if dev::word(a, 4) != gen || seq == 0 {
        SlotV::Nothing
    } else if dev::word(a, 0) == MAGIC_C {
        let tx = dev::word(a, 12);
        let count = dev::word(a, 16);
        if tx == 0 || sum(tx, count, COMMIT_TX, dev::zeros()) != dev::word(a, 20) {
            SlotV::Nothing
        } else {
            SlotV::Commit { tx, count }
        }
    } else if dev::word(a, 0) == MAGIC_A {
        let r = RecV { seq, lba: dev::word(a, 12), tx: dev::word(a, 20), data: b };
        if sum(r.seq, r.lba, r.tx, r.data) != dev::word(a, 16) {
            SlotV::Nothing
        } else {
            SlotV::Data(r)
        }
    } else {
        SlotV::Nothing
    }
}

pub open spec fn slot_at(d: DevV, j: Jnl, s: int) -> SlotV {
    slot_of(d.at(j.slot_lba(s)), d.at(j.slot_lba(s) + 1), j.gen)
}

fn raw_read(d: &Dev, lba: u32) -> (r: [u8; SECTOR])
    ensures
        r@ == d@.at(lba as int),
{
    let mut r: [u8; SECTOR] = [0; SECTOR];
    assert(r@ =~= dev::zeros());
    let _ = dev::read_block(d, lba, &mut r);
    r
}

fn zero_sector() -> (r: [u8; SECTOR])
    ensures
        r@ == dev::zeros(),
{
    let r: [u8; SECTOR] = [0; SECTOR];
    assert(r@ =~= dev::zeros());
    r
}

fn read_slot(d: &Dev, j: &Jnl, s: usize) -> (r: Slot)
    requires
        j.wf(),
        s < j.slots(),
    ensures
        r@ == slot_at(d@, *j, s as int),
{
    let base: u32 = j.jlba + 1 + s as u32 * 2;
    let a = raw_read(d, base);
    let magic = dev::get32(&a, 0);
    if magic != MAGIC_A && magic != MAGIC_C {
        return Slot::Nothing;
    }
    if dev::get32(&a, 4) != j.gen {
        return Slot::Nothing;
    }
    let seq = dev::get32(&a, 8);
    if seq == 0 {
        return Slot::Nothing;
    }
    if magic == MAGIC_C {
        let tx = dev::get32(&a, 12);
        let count = dev::get32(&a, 16);
        if tx == 0 || jnl_crc(tx, count, COMMIT_TX, &zero_sector()) != dev::get32(&a, 20) {
            return Slot::Nothing;
        }
        return Slot::Commit { tx, count };
    }
    let lba = dev::get32(&a, 12);
    let crc = dev::get32(&a, 16);
    let tx = dev::get32(&a, 20);
    let b = raw_read(d, base + 1);
    if jnl_crc(seq, lba, tx, &b) != crc {
        return Slot::Nothing;
    }
    Slot::Data(Rec { seq, lba, tx, data: b })
}

// ---- mounting ----

/// A slot of either kind in this generation, checksum aside.
pub open spec fn seq_at(d: DevV, j: Jnl, s: int) -> u32 {
    let a = d.at(j.slot_lba(s));
    if (dev::word(a, 0) == MAGIC_A || dev::word(a, 0) == MAGIC_C) && dev::word(a, 4) == j.gen {
        dev::word(a, 8)
    } else {
        0
    }
}

/// The highest sequence number among the first `n` slots, where one that is
/// half the number space or more ahead of the highest so far is passed over.
pub open spec fn top_seq(d: DevV, j: Jnl, n: int) -> u32
    decreases n,
{
    if n <= 0 {
        0
    } else {
        let m = top_seq(d, j, n - 1);
        let s = seq_at(d, j, n - 1);
        if s > m && (m == 0 || s - m < 0x8000_0000) {
            s
        } else {
            m
        }
    }
}

fn max_seq(d: &Dev, j: &Jnl) -> (r: u32)
    requires
        j.wf(),
    ensures
        r == top_seq(d@, *j, j.slots()),
{
    let n = nslots(j);
    let mut max: u32 = 0;
    let mut s: usize = 0;
    while s < n
        invariant
            n == j.slots(),
            n > 0 ==> 2 * n + 1 <= j.jb,
            j.wf(),
            s <= n,
            max == top_seq(d@, *j, s as int),
        decreases n - s,
    {
        let a = raw_read(d, j.jlba + 1 + s as u32 * 2);
        let magic = dev::get32(&a, 0);
        if (magic == MAGIC_A || magic == MAGIC_C) && dev::get32(&a, 4) == j.gen {
            let seq = dev::get32(&a, 8);
            if seq > max && (max == 0 || seq - max < 0x8000_0000) {
                max = seq;
            }
        }
        s += 1;
    }
    max
}

/// A header sector of a generation.
pub open spec fn header(gen: u32) -> Seq<u8> {
    dev::with_word(dev::with_word(dev::zeros(), 0, MAGIC_H), 4, gen)
}

/// The generation that a header sector names; 1 for a fresh journal.
pub open spec fn header_gen(h: Seq<u8>) -> u32 {
    if dev::word(h, 0) == MAGIC_H && dev::word(h, 4) != 0 {
        dev::word(h, 4)
    } else {
        1
    }
}

/// Finds the journal at mount and continues its sequence. Returns the highest
/// sequence number there; without a journal it stays off.
pub fn init(j: &mut Jnl, d: &mut Dev, jlba: u32, jb: u32) -> (max: u32)
    requires
        jlba + jb <= u32::MAX,
    ensures
        jlba == 0 || jb < 3 ==> max == 0 && final(d)@ == old(d)@ && *final(j) == (Jnl { jlba, jb, ..*old(j) }),
        jlba != 0 && jb >= 3 ==> {
            let h = old(d)@.at(jlba as int);
            let d1 = if dev::word(h, 0) == MAGIC_H {
                old(d)@
            } else {
                old(d)@.put(jlba, header(1))
            };
            let j1 = Jnl { jlba, jb, gen: header_gen(h), ..*old(j) };
            &&& final(d)@ == d1
            &&& max == top_seq(d1, j1, j1.slots())
            &&& *final(j) == (Jnl { on: true, next: succ(max), ..j1 })
        },
        final(j).wf(),
{
    j.jlba = jlba;
    j.jb = jb;
    if jlba == 0 || jb < 3 {
        return 0;
    }
    let h = raw_read(d, jlba);
    let mut gen: u32 = 1;
    if dev::get32(&h, 0) == MAGIC_H {
        let g = dev::get32(&h, 4);
        if g != 0 {
            gen = g;
        }
    } else {
        let mut nh = zero_sector();
        dev::put32(&mut nh, 0, MAGIC_H);
        dev::put32(&mut nh, 4, 1);
        let _ = dev::write_block(d, jlba, &nh);
    }
    j.gen = gen;
    let max = max_seq(d, j);
    j.next = next_of(max);
    j.on = true;
    max
}

// ---- writing records ----

/// First sector of a commit's slot.
pub open spec fn commit_sector(gen: u32, seq: u32, tx: u32, count: u32) -> Seq<u8> {
    let a = dev::with_word(dev::zeros(), 0, MAGIC_C);
    let b = dev::with_word(dev::with_word(a, 4, gen), 8, seq);
    let c = dev::with_word(dev::with_word(b, 12, tx), 16, count);
    dev::with_word(c, 20, sum(tx, count, COMMIT_TX, dev::zeros()))
}

/// First sector of a record's slot.
pub open spec fn record_sector(gen: u32, r: RecV) -> Seq<u8> {
    let a = dev::with_word(dev::zeros(), 0, MAGIC_A);
    let b = dev::with_word(dev::with_word(a, 4, gen), 8, r.seq);
    let c = dev::with_word(
        dev::with_word(b, 12, r.lba),
        16,
        sum(r.seq, r.lba, r.tx, r.data),
    );
    dev::with_word(c, 20, r.tx)
}

/// Slot of a sequence number.
pub open spec fn slot_for(j: Jnl, seq: u32) -> int {
    seq as int % j.slots()
}

/// After a commit of `count` records of transaction `tx` is written.
pub open spec fn committed(j: Jnl, d: DevV, tx: u32, count: u32) -> (Jnl, DevV) {
    if j.slots() == 0 || tx == 0 {
        (j, d)
    } else {
        let base = j.slot_lba(slot_for(j, j.next)) as u32;
        (
            Jnl { next: succ(j.next), ..j },
            d.put(base, commit_sector(j.gen, j.next, tx, count)).put((base + 1) as u32, dev::zeros()),
        )
    }
}

/// After a record of a write is appended: it belongs to the open transaction,
/// if there is one. One that has grown too long is committed first and goes on
/// under another id.
pub open spec fn recorded(j: Jnl, d: DevV, lba: u32, data: Seq<u8>) -> (Jnl, DevV) {
    if !j.on || j.slots() == 0 {
        (j, d)
    } else {
        let seq = j.next;
        let j1 = Jnl { next: succ(seq), ..j };
        let (j2, d2) = if j.depth == 0 {
            (j1, d)
        } else if j.tx_count >= CHUNK {
            committed(
                Jnl { tx: j.tx_next, tx_next: succ(j.tx_next), tx_count: 1, ..j1 },
                d,
                j.tx,
                j.tx_count,
            )
        } else {
            (Jnl { tx_count: (j.tx_count + 1) as u32, ..j1 }, d)
        };
        let r = RecV {
            seq,
            lba,
            tx: if j.depth == 0 {
                0
            } else {
                j2.tx
            },
            data,
        };
        let base = j.slot_lba(slot_for(j, seq)) as u32;
        (j2, d2.put(base, record_sector(j.gen, r)).put((base + 1) as u32, data))
    }
}

fn slot_base(j: &Jnl, seq: u32) -> (base: u32)
    requires
        j.wf(),
        j.slots() > 0,
    ensures
        base == j.slot_lba(slot_for(*j, seq)),
        base < u32::MAX,
        0 <= slot_for(*j, seq) < j.slots(),
{
    let n = nslots(j);
    let slot: u32 = seq % n as u32;
    j.jlba + 1 + slot * 2
}

fn write_commit(j: &mut Jnl, d: &mut Dev, tx: u32, count: u32)
    requires
        old(j).wf(),
    ensures
        (*final(j), final(d)@) == committed(*old(j), old(d)@, tx, count),
        final(j).wf(),
{
    let n = nslots(j);
    if n == 0 || tx == 0 {
        return;
    }
    let seq = j.next;
    let base = slot_base(j, seq);
    j.next = next_of(seq);
    let mut a = zero_sector();
    let crc = jnl_crc(tx, count, COMMIT_TX, &a);
    dev::put32(&mut a, 0, MAGIC_C);
    dev::put32(&mut a, 4, j.gen);
    dev::put32(&mut a, 8, seq);
    dev::put32(&mut a, 12, tx);
    dev::put32(&mut a, 16, count);
    dev::put32(&mut a, 20, crc);
    let _ = dev::write_block(d, base, &a);
    let z = zero_sector();
    let _ = dev::write_block(d, base + 1, &z);
}

/// Appends a record of a write that is about to happen.
pub fn record(j: &mut Jnl, d: &mut Dev, lba: u32, data: &[u8; SECTOR])
    requires
        old(j).wf(),
    ensures
        (*final(j), final(d)@) == recorded(*old(j), old(d)@, lba, data@),
        final(j).wf(),
{
    if !j.on {
        return;
    }
    let n = nslots(j);
    if n == 0 {
        return;
    }
    let seq = j.next;
    let gen = j.gen;
    let base = slot_base(j, seq);
    j.next = next_of(seq);
    let mut tx: u32 = 0;
    if j.depth != 0 {
        if j.tx_count >= CHUNK {
            let t = j.tx;
            let c = j.tx_count;
            j.tx = j.tx_next;
            j.tx_next = next_of(j.tx_next);
            j.tx_count = 1;
            tx = j.tx;
            write_commit(j, d, t, c);
        } else {
            j.tx_count = j.tx_count + 1;
            tx = j.tx;
        }
    }
    let mut a = zero_sector();
    let crc = jnl_crc(seq, lba, tx, data);
    dev::put32(&mut a, 0, MAGIC_A);
    dev::put32(&mut a, 4, gen);
    dev::put32(&mut a, 8, seq);
    dev::put32(&mut a, 12, lba);
    dev::put32(&mut a, 16, crc);
    dev::put32(&mut a, 20, tx);
    let _ = dev::write_block(d, base, &a);
    let _ = dev::write_block(d, base + 1, data);
}

/// Opens a transaction, or one level more of it.
pub fn begin(j: &mut Jnl)
    requires
        old(j).wf(),
        old(j).depth < u32::MAX,
    ensures
        *final(j) == if !old(j).on {
            *old(j)
        } else if old(j).depth == 0 {
            Jnl { depth: 1, tx: old(j).tx_next, tx_next: succ(old(j).tx_next), tx_count: 0, ..*old(j) }
        } else {
            Jnl { depth: (old(j).depth + 1) as u32, ..*old(j) }
        },
        final(j).wf(),
{
    if !j.on {
        return;
    }
    if j.depth == 0 {
        j.tx = j.tx_next;
        j.tx_next = next_of(j.tx_next);
        j.tx_count = 0;
    }
    j.depth = j.depth + 1;
}

/// Closes a level of the transaction; the last writes a commit if there are
/// records to commit.
pub fn commit(j: &mut Jnl, d: &mut Dev)
    requires
        old(j).wf(),
    ensures
        (*final(j), final(d)@) == if !old(j).on || old(j).depth == 0 {
            (*old(j), old(d)@)
        } else if old(j).depth > 1 {
            (Jnl { depth: (old(j).depth - 1) as u32, ..*old(j) }, old(d)@)
        } else if old(j).tx_count > 0 {
            committed(
                Jnl { depth: 0, tx: 0, tx_count: 0, ..*old(j) },
                old(d)@,
                old(j).tx,
                old(j).tx_count,
            )
        } else {
            (Jnl { depth: 0, tx: 0, tx_count: 0, ..*old(j) }, old(d)@)
        },
        final(j).wf(),
{
    if !j.on || j.depth == 0 {
        return;
    }
    j.depth = j.depth - 1;
    if j.depth > 0 {
        return;
    }
    let tx = j.tx;
    let count = j.tx_count;
    j.tx = 0;
    j.tx_count = 0;
    if count > 0 {
        write_commit(j, d, tx, count);
    }
}

/// At a clean shutdown: the next generation, in which no old record counts.
pub fn reset(j: &mut Jnl, d: &mut Dev)
    requires
        old(j).wf(),
    ensures
        (*final(j), final(d)@) == if !old(j).on {
            (*old(j), old(d)@)
        } else {
            (
                Jnl { gen: succ(old(j).gen), next: 1, ..*old(j) },
                old(d)@.put(old(j).jlba, header(succ(old(j).gen))),
            )
        },
        final(j).wf(),
{
    if !j.on {
        return;
    }
    j.gen = next_of(j.gen);
    j.next = 1;
    let mut h = zero_sector();
    dev::put32(&mut h, 0, MAGIC_H);
    dev::put32(&mut h, 4, j.gen);
    let _ = dev::write_block(d, j.jlba, &h);
}

// ---- replay ----

/// Records of transaction `t` among the first `n` slots.
pub open spec fn members(d: DevV, j: Jnl, n: int, t: u32) -> Seq<RecV>
    decreases n,
{
    if n <= 0 {
        Seq::empty()
    } else {
        let m = members(d, j, n - 1, t);
        match slot_at(d, j, n - 1) {
            SlotV::Data(r) if r.tx == t => m.push(r),
            _ => m,
        }
    }
}

/// Records that the last commit of `t` among the first `n` slots counts.
pub open spec fn commit_of(d: DevV, j: Jnl, n: int, t: u32) -> Option<u32>
    decreases n,
{
    if n <= 0 {
        None
    } else {
        match slot_at(d, j, n - 1) {
            SlotV::Commit { tx, count } if tx == t => Some(count),
            _ => commit_of(d, j, n - 1, t),
        }
    }
}

/// The transaction a slot belongs to; 0 is none.
pub open spec fn tx_of(s: SlotV) -> u32 {
    match s {
        SlotV::Data(r) => r.tx,
        SlotV::Commit { tx, .. } => tx,
        SlotV::Nothing => 0,
    }
}

/// Transactions among the first `n` slots, as they first appear.
pub open spec fn order(d: DevV, j: Jnl, n: int) -> Seq<u32>
    decreases n,
{
    if n <= 0 {
        Seq::empty()
    } else {
        let o = order(d, j, n - 1);
        let t = tx_of(slot_at(d, j, n - 1));
        if t == 0 || o.contains(t) {
            o
        } else {
            o.push(t)
        }
    }
}

/// All records of the transaction are there: it was committed, and the commit
/// counts as many.
pub open spec fn whole(d: DevV, j: Jnl, n: int, t: u32) -> bool {
    commit_of(d, j, n, t) == Some(members(d, j, n, t).len() as u32)
}

/// Records of the first `k` transactions that are whole.
pub open spec fn whole_txs(d: DevV, j: Jnl, n: int, k: int) -> Seq<RecV>
    decreases k,
{
    if k <= 0 {
        Seq::empty()
    } else {
        let t = order(d, j, n)[k - 1];
        whole_txs(d, j, n, k - 1) + if whole(d, j, n, t) {
            members(d, j, n, t)
        } else {
            Seq::empty()
        }
    }
}

/// Records to apply: those outside transactions, and those of whole ones.
pub open spec fn chosen(d: DevV, j: Jnl) -> Seq<RecV> {
    let n = j.slots();
    members(d, j, n, 0) + whole_txs(d, j, n, order(d, j, n).len() as int)
}

/// A record among sorted ones, behind those no later than it.
pub open spec fn put_in(s: Seq<RecV>, r: RecV) -> Seq<RecV>
    decreases s.len(),
{
    if s.len() == 0 || s.last().seq <= r.seq {
        s.push(r)
    } else {
        put_in(s.drop_last(), r).push(s.last())
    }
}

/// Records by sequence number; equals keep their order.
pub open spec fn sorted(s: Seq<RecV>) -> Seq<RecV>
    decreases s.len(),
{
    if s.len() == 0 {
        s
    } else {
        put_in(sorted(s.drop_last()), s.last())
    }
}

/// The device after records are applied in order.
pub open spec fn applied(d: DevV, s: Seq<RecV>) -> DevV
    decreases s.len(),
{
    if s.len() == 0 {
        d
    } else {
        applied(d, s.drop_last()).put(s.last().lba, s.last().data)
    }
}

pub open spec fn recs_view(v: Seq<Rec>) -> Seq<RecV> {
    Seq::new(v.len(), |i: int| v[i]@)
}

/// What is known of a transaction while slots are read.
struct Tx {
    id: u32,
    members: Vec<Rec>,
    committed: bool,
    count: u32,
}

spec fn tx_ok(t: Tx, d: DevV, j: Jnl, n: int) -> bool {
    &&& recs_view(t.members@) == members(d, j, n, t.id)
    &&& t.committed == (commit_of(d, j, n, t.id) is Some)
    &&& t.committed ==> commit_of(d, j, n, t.id) == Some(t.count)
}

spec fn txs_ok(v: Seq<Tx>, d: DevV, j: Jnl, n: int) -> bool {
    &&& v.len() == order(d, j, n).len()
    &&& forall|k: int|
        0 <= k < v.len() ==> (#[trigger] v[k]).id == order(d, j, n)[k] && tx_ok(v[k], d, j, n)
}

/// Index of a transaction.
fn find_tx(txs: &Vec<Tx>, id: u32) -> (r: Option<usize>)
    ensures
        match r {
            Some(k) => k < txs@.len() && txs@[k as int].id == id,
            None => forall|k: int| 0 <= k < txs@.len() ==> (#[trigger] txs@[k]).id != id,
        },
{
    let mut k: usize = 0;
    while k < txs.len()
        invariant
            k <= txs@.len(),
            forall|i: int| 0 <= i < k ==> (#[trigger] txs@[i]).id != id,
        decreases txs@.len() - k,
    {
        if txs[k].id == id {
            return Some(k);
        }
        k += 1;
    }
    None
}

/// Transactions that appear are listed, once each; one that does not has no
/// record and no commit.
proof fn lemma_order(d: DevV, j: Jnl, n: int)
    ensures
        order(d, j, n).no_duplicates(),
        forall|t: u32|
            t != 0 && !order(d, j, n).contains(t) ==> (#[trigger] members(d, j, n, t)).len() == 0
                && commit_of(d, j, n, t) is None,
        forall|t: u32| #[trigger] members(d, j, n, t).len() <= (if n <= 0 {
            0
        } else {
            n
        }),
        !order(d, j, n).contains(0),
    decreases n,
{
    if n > 0 {
        lemma_order(d, j, n - 1);
        let o = order(d, j, n - 1);
        let t0 = tx_of(slot_at(d, j, n - 1));
        assert forall|t: u32| t != 0 && !order(d, j, n).contains(t) implies (#[trigger] members(d, j, n, t)).len()
            == 0 && commit_of(d, j, n, t) is None by {
            assert(!o.contains(t)) by {
                if o.contains(t) {
                    let i = choose|i: int| 0 <= i < o.len() && o[i] == t;
                    assert(order(d, j, n)[i] == t);
                }
            }
            assert(members(d, j, n - 1, t).len() == 0);
            if t == t0 {
                assert(order(d, j, n)[order(d, j, n).len() - 1] == t);
            }
        }
        assert forall|t: u32| #[trigger] members(d, j, n, t).len() <= n by {
            assert(members(d, j, n - 1, t).len() <= n - 1 || n - 1 <= 0);
        }
    }
}

/// The highest sequence number to apply.
proof fn lemma_put_in(s: Seq<RecV>, r: RecV, p: int)
    requires
        0 <= p <= s.len(),
        p == 0 || s[p - 1].seq <= r.seq,
        forall|i: int| p <= i < s.len() ==> (#[trigger] s[i]).seq > r.seq,
    ensures
        put_in(s, r) == s.insert(p, r),
    decreases s.len(),
{
    if s.len() == 0 || s.last().seq <= r.seq {
        if p < s.len() {
            assert(s[s.len() - 1].seq > r.seq);
        }
        assert(s.insert(p, r) =~= s.push(r));
    } else {
        let t = s.drop_last();
        assert(p < s.len());
        lemma_put_in(t, r, p);
        assert(t.insert(p, r).push(s.last()) =~= s.insert(p, r));
    }
}

/// Inserts a record into sorted ones.
fn insert_rec(v: &mut Vec<Rec>, r: Rec)
    ensures
        recs_view(final(v)@) == put_in(recs_view(old(v)@), r@),
{
    let mut p: usize = v.len();
    while p > 0 && v[p - 1].seq > r.seq
        invariant
            p <= v@.len(),
            v@ == old(v)@,
            forall|i: int| p <= i < v@.len() ==> (#[trigger] v@[i]).seq > r.seq,
        decreases p,
    {
        p -= 1;
    }
    proof {
        let s = recs_view(v@);
        assert(p > 0 ==> s[p - 1].seq == v@[p - 1].seq);
        assert forall|i: int| p <= i < s.len() implies (#[trigger] s[i]).seq > r@.seq by {
            assert(s[i].seq == v@[i].seq);
        }
        lemma_put_in(s, r@, p as int);
    }
    v.insert(p, r);
    assert(recs_view(v@) =~= recs_view(old(v)@).insert(p as int, r@));
}

/// Sorts further records in.
fn insert_all(v: &mut Vec<Rec>, m: &Vec<Rec>, Ghost(done): Ghost<Seq<RecV>>)
    requires
        recs_view(old(v)@) == sorted(done),
    ensures
        recs_view(final(v)@) == sorted(done + recs_view(m@)),
{
    let mut i: usize = 0;
    let ghost mv = recs_view(m@);
    assert(done + mv.take(0) =~= done);
    while i < m.len()
        invariant
            i <= m@.len(),
            mv == recs_view(m@),
            recs_view(v@) == sorted(done + mv.take(i as int)),
        decreases m@.len() - i,
    {
        insert_rec(v, m[i]);
        proof {
            let t = done + mv.take(i + 1);
            assert(t.drop_last() =~= done + mv.take(i as int));
            assert(t.last() == mv[i as int]);
        }
        i += 1;
    }
    assert(mv.take(i as int) =~= mv);
}

/// The device, the journal and the answer after a replay.
pub open spec fn replayed(d: DevV, j: Jnl) -> (DevV, Jnl, (usize, u32)) {
    let s = sorted(chosen(d, j));
    let max = if s.len() == 0 {
        0
    } else {
        s.last().seq
    };
    (
        applied(d, s),
        if max != 0 && max >= j.next && max - j.next < 0x8000_0000 {
            Jnl { next: succ(max), ..j }
        } else {
            j
        },
        (s.len() as usize, max),
    )
}

/// Applies what the journal holds. Returns how many records there were and the
/// highest sequence number among them; the sequence goes on behind it.
#[verifier::spinoff_prover]
#[verifier::rlimit(60)]
pub fn replay(j: &mut Jnl, d: &mut Dev) -> (r: (usize, u32))
    requires
        old(j).wf(),
    ensures
        (final(d)@, *final(j), r) == replayed(old(d)@, *old(j)),
        final(j).wf(),
{
    let n = nslots(j);
    let ghost d0 = d@;
    let mut legacy: Vec<Rec> = Vec::new();
    let mut txs: Vec<Tx> = Vec::new();
    let mut s: usize = 0;
    assert(recs_view(legacy@) =~= members(d0, *j, 0, 0));
    while s < n
        invariant
            n == j.slots(),
            n > 0 ==> 2 * n + 1 <= j.jb,
            *j == *old(j),
            j.wf(),
            d@ == d0,
            s <= n,
            recs_view(legacy@) == members(d0, *j, s as int, 0),
            txs_ok(txs@, d0, *j, s as int),
        decreases n - s,
    {
        let slot = read_slot(d, j, s);
        let ghost before = txs@;
        proof {
            lemma_order(d0, *j, s as int);
            lemma_order(d0, *j, s + 1);
        }
        match slot {
            Slot::Nothing => {
                proof {
                    lemma_others(before, d0, *j, s as int);
                }
            },
            Slot::Commit { tx, count } => {
                match find_tx(&txs, tx) {
                    Some(k) => {
                        assert(order(d0, *j, s as int)[k as int] == tx);
                        txs[k].committed = true;
                        txs[k].count = count;
                        proof {
                            assert forall|i: int| 0 <= i < txs@.len() implies (#[trigger] txs@[i]).id
                                == order(d0, *j, s + 1)[i] && tx_ok(txs@[i], d0, *j, s + 1) by {
                                assert(before[i].id == order(d0, *j, s as int)[i] && tx_ok(
                                    before[i],
                                    d0,
                                    *j,
                                    s as int,
                                ));
                                if i != k {
                                    assert(before[i].id != tx);
                                }
                            }
                        }
                    },
                    None => {
                        proof {
                            assert(!order(d0, *j, s as int).contains(tx)) by {
                                if order(d0, *j, s as int).contains(tx) {
                                    let i = choose|i: int|
                                        0 <= i < order(d0, *j, s as int).len() && order(
                                            d0,
                                            *j,
                                            s as int,
                                        )[i] == tx;
                                    assert(before[i].id == tx);
                                }
                            }
                        }
                        let empty: Vec<Rec> = Vec::new();
                        txs.push(Tx { id: tx, members: empty, committed: true, count });
                        proof {
                            assert forall|i: int| 0 <= i < txs@.len() implies (#[trigger] txs@[i]).id
                                == order(d0, *j, s + 1)[i] && tx_ok(txs@[i], d0, *j, s + 1) by {
                                if i < before.len() {
                                    assert(before[i].id == order(d0, *j, s as int)[i] && tx_ok(
                                        before[i],
                                        d0,
                                        *j,
                                        s as int,
                                    ));
                                    assert(before[i].id != tx);
                                } else {
                                    assert(members(d0, *j, s as int, tx).len() == 0);
                                    assert(recs_view(txs@[i].members@) =~= members(d0, *j, s + 1, tx));
                                }
                            }
                        }
                    },
                }
            },
            Slot::Data(rec) => {
                if rec.tx == 0 {
                    legacy.push(rec);
                    proof {
                        assert(recs_view(legacy@) =~= members(d0, *j, s + 1, 0));
                        assert forall|i: int| 0 <= i < txs@.len() implies (#[trigger] txs@[i]).id == order(
                            d0,
                            *j,
                            s + 1,
                        )[i] && tx_ok(txs@[i], d0, *j, s + 1) by {
                            assert(before[i].id == order(d0, *j, s as int)[i] && tx_ok(
                                before[i],
                                d0,
                                *j,
                                s as int,
                            ));
                            assert(before[i].id != 0) by {
                                assert(order(d0, *j, s as int).contains(order(d0, *j, s as int)[i]));
                            }
                        }
                    }
                } else {
                    match find_tx(&txs, rec.tx) {
                        Some(k) => {
                            assert(order(d0, *j, s as int)[k as int] == rec.tx);
                            txs[k].members.push(rec);
                            proof {
                                assert forall|i: int| 0 <= i < txs@.len() implies (#[trigger] txs@[i]).id
                                    == order(d0, *j, s + 1)[i] && tx_ok(txs@[i], d0, *j, s + 1) by {
                                    assert(before[i].id == order(d0, *j, s as int)[i] && tx_ok(
                                        before[i],
                                        d0,
                                        *j,
                                        s as int,
                                    ));
                                    if i != k {
                                        assert(before[i].id != rec.tx);
                                    } else {
                                        assert(recs_view(txs@[i].members@) =~= recs_view(
                                            before[i].members@,
                                        ).push(rec@));
                                    }
                                }
                            }
                        },
                        None => {
                            proof {
                                assert(!order(d0, *j, s as int).contains(rec.tx)) by {
                                    if order(d0, *j, s as int).contains(rec.tx) {
                                        let i = choose|i: int|
                                            0 <= i < order(d0, *j, s as int).len() && order(
                                                d0,
                                                *j,
                                                s as int,
                                            )[i] == rec.tx;
                                        assert(before[i].id == rec.tx);
                                    }
                                }
                            }
                            let mut one: Vec<Rec> = Vec::new();
                            one.push(rec);
                            txs.push(Tx { id: rec.tx, members: one, committed: false, count: 0 });
                            proof {
                                assert forall|i: int| 0 <= i < txs@.len() implies (#[trigger] txs@[i]).id
                                    == order(d0, *j, s + 1)[i] && tx_ok(txs@[i], d0, *j, s + 1) by {
                                    if i < before.len() {
                                        assert(before[i].id == order(d0, *j, s as int)[i] && tx_ok(
                                            before[i],
                                            d0,
                                            *j,
                                            s as int,
                                        ));
                                        assert(before[i].id != rec.tx);
                                    } else {
                                        assert(members(d0, *j, s as int, rec.tx).len() == 0);
                                        assert(recs_view(txs@[i].members@) =~= members(
                                            d0,
                                            *j,
                                            s + 1,
                                            rec.tx,
                                        ));
                                    }
                                }
                            }
                        },
                    }
                }
            },
        }
        s += 1;
    }
    let ghost ni = n as int;
    let mut recs: Vec<Rec> = Vec::new();
    assert(recs_view(recs@) =~= sorted(Seq::empty()));
    insert_all(&mut recs, &legacy, Ghost(Seq::empty()));
    let mut k: usize = 0;
    let ghost m0 = members(d0, *j, ni, 0);
    proof {
        lemma_order(d0, *j, ni);
        assert(Seq::<RecV>::empty() + m0 =~= m0 + whole_txs(d0, *j, ni, 0));
    }
    while k < txs.len()
        invariant
            ni == j.slots(),
            ni <= NREC,
            *j == *old(j),
            d@ == d0,
            k <= txs@.len(),
            txs_ok(txs@, d0, *j, ni),
            m0 == members(d0, *j, ni, 0),
            recs_view(recs@) == sorted(m0 + whole_txs(d0, *j, ni, k as int)),
        decreases txs@.len() - k,
    {
        let t = &txs[k];
        proof {
            lemma_order(d0, *j, ni);
            assert(tx_ok(txs@[k as int], d0, *j, ni));
            assert(recs_view(t.members@).len() == members(d0, *j, ni, t.id).len());
        }
        if t.committed && t.members.len() == t.count as usize {
            proof {
                let w = whole_txs(d0, *j, ni, k as int);
                assert(m0 + w + members(d0, *j, ni, t.id) =~= m0 + (w + members(d0, *j, ni, t.id)));
            }
            insert_all(&mut recs, &t.members, Ghost(m0 + whole_txs(d0, *j, ni, k as int)));
        } else {
            proof {
                let w = whole_txs(d0, *j, ni, k as int);
                assert(!whole(d0, *j, ni, t.id));
                assert(w + Seq::<RecV>::empty() =~= w);
            }
        }
        k += 1;
    }
    let ghost sv = recs_view(recs@);
    assert(sv == sorted(chosen(d0, *old(j))));
    let count: usize = recs.len();
    let max: u32 = if count == 0 {
        0
    } else {
        recs[count - 1].seq
    };
    let mut i: usize = 0;
    assert(applied(d0, sv.take(0)) == d0);
    while i < count
        invariant
            count == recs@.len(),
            sv == recs_view(recs@),
            i <= count,
            d@ == applied(d0, sv.take(i as int)),
        decreases count - i,
    {
        let r = recs[i];
        let _ = dev::write_block(d, r.lba, &r.data);
        proof {
            assert(sv.take(i + 1).drop_last() =~= sv.take(i as int));
            assert(sv.take(i + 1).last() == r@);
        }
        i += 1;
    }
    assert(sv.take(i as int) =~= sv);
    if max != 0 && max >= j.next && max - j.next < 0x8000_0000 {
        j.next = next_of(max);
    }
    (count, max)
}

/// An empty slot changes nothing that is known.
proof fn lemma_others(v: Seq<Tx>, d: DevV, j: Jnl, s: int)
    requires
        0 <= s,
        txs_ok(v, d, j, s),
        slot_at(d, j, s) is Nothing,
    ensures
        txs_ok(v, d, j, s + 1),
{
    assert forall|i: int| 0 <= i < v.len() implies (#[trigger] v[i]).id == order(d, j, s + 1)[i] && tx_ok(
        v[i],
        d,
        j,
        s + 1,
    ) by {
        assert(tx_ok(v[i], d, j, s));
    }
}

// ---- laws ----

/// What the last of the records leaves in a sector.
pub open spec fn last_data(s: Seq<RecV>, l: int) -> Option<Seq<u8>>
    decreases s.len(),
{
    if s.len() == 0 {
        None
    } else if s.last().lba == l {
        Some(s.last().data)
    } else {
        last_data(s.drop_last(), l)
    }
}

/// Applying records leaves in each sector what the last record for it holds.
pub proof fn law_last_record_wins(d: DevV, s: Seq<RecV>, l: int)
    requires
        d.has(l),
    ensures
        applied(d, s).has(l),
        applied(d, s).ready == d.ready,
        applied(d, s).secs.len() == d.secs.len(),
        applied(d, s).secs[l] == match last_data(s, l) {
            Some(b) => b,
            None => d.secs[l],
        },
    decreases s.len(),
{
    if s.len() > 0 {
        law_last_record_wins(d, s.drop_last(), l);
    }
}

proof fn lemma_applied_shape(d: DevV, s: Seq<RecV>)
    ensures
        applied(d, s).ready == d.ready,
        applied(d, s).secs.len() == d.secs.len(),
    decreases s.len(),
{
    if s.len() > 0 {
        lemma_applied_shape(d, s.drop_last());
    }
}

/// No record is for a sector of the journal itself.
pub open spec fn outside(j: Jnl, s: Seq<RecV>) -> bool {
    forall|i: int| 0 <= i < s.len() ==> !j.inside(#[trigger] s[i].lba as int)
}

proof fn lemma_untouched(j: Jnl, d: DevV, s: Seq<RecV>, l: int)
    requires
        outside(j, s),
        j.inside(l),
    ensures
        applied(d, s).at(l) == d.at(l),
    decreases s.len(),
{
    if s.len() > 0 {
        assert(outside(j, s.drop_last())) by {
            assert forall|i: int| 0 <= i < s.drop_last().len() implies !j.inside(
                #[trigger] s.drop_last()[i].lba as int,
            ) by {
                assert(s.drop_last()[i] == s[i]);
            }
        }
        lemma_untouched(j, d, s.drop_last(), l);
        assert(s.last() == s[s.len() - 1]);
    }
}

/// The same journal, perhaps at another place in its sequence.
pub open spec fn same_place(j: Jnl, k: Jnl) -> bool {
    k.jlba == j.jlba && k.jb == j.jb && k.gen == j.gen
}

proof fn lemma_same_chosen(j: Jnl, k: Jnl, d: DevV, e: DevV, n: int, t: u32)
    requires
        j.wf(),
        same_place(j, k),
        0 <= n <= j.slots(),
        forall|l: int| j.inside(l) ==> #[trigger] d.at(l) == e.at(l),
    ensures
        members(d, j, n, t) == members(e, k, n, t),
        commit_of(d, j, n, t) == commit_of(e, k, n, t),
        order(d, j, n) == order(e, k, n),
    decreases n,
{
    if n > 0 {
        lemma_same_chosen(j, k, d, e, n - 1, t);
        assert(j.inside(j.slot_lba(n - 1)) && j.inside(j.slot_lba(n - 1) + 1));
        assert(slot_at(d, j, n - 1) == slot_at(e, k, n - 1));
    }
}

proof fn lemma_same_whole(j: Jnl, k: Jnl, d: DevV, e: DevV, x: int)
    requires
        j.wf(),
        same_place(j, k),
        0 <= x <= order(d, j, j.slots()).len(),
        forall|l: int| j.inside(l) ==> #[trigger] d.at(l) == e.at(l),
    ensures
        whole_txs(d, j, j.slots(), x) == whole_txs(e, k, j.slots(), x),
    decreases x,
{
    lemma_same_chosen(j, k, d, e, j.slots(), 0);
    if x > 0 {
        lemma_same_whole(j, k, d, e, x - 1);
        lemma_same_chosen(j, k, d, e, j.slots(), order(d, j, j.slots())[x - 1]);
    }
}

/// Replaying twice is replaying once: the second replay gives the same answer,
/// leaves the journal where it is, and leaves in every sector what the first
/// left, as long as no record is for a sector of the journal itself.
pub proof fn law_replay_idempotent(j: Jnl, d: DevV)
    requires
        j.wf(),
        outside(j, sorted(chosen(d, j))),
    ensures
        ({
            let (e, k, r) = replayed(d, j);
            let (f, i, q) = replayed(e, k);
            &&& q == r
            &&& i == k
            &&& f.ready == e.ready
            &&& f.secs == e.secs
        }),
{
    let s = sorted(chosen(d, j));
    let (e, k, r) = replayed(d, j);
    assert forall|i: int| j.inside(i) implies #[trigger] d.at(i) == e.at(i) by {
        lemma_untouched(j, d, s, i);
    }
    lemma_same_chosen(j, k, d, e, j.slots(), 0);
    lemma_same_whole(j, k, d, e, order(d, j, j.slots()).len() as int);
    assert(chosen(e, k) == chosen(d, j));
    lemma_applied_shape(d, s);
    lemma_applied_shape(e, s);
    let f = applied(e, s);
    assert forall|l: int| 0 <= l < e.secs.len() implies f.secs[l] == e.secs[l] by {
        if d.has(l) {
            law_last_record_wins(d, s, l);
            law_last_record_wins(e, s, l);
        } else {
            lemma_not_ready(e, s);
        }
    }
    assert(f.secs =~= e.secs);
}

/// A device that is not ready takes nothing.
proof fn lemma_not_ready(d: DevV, s: Seq<RecV>)
    requires
        !d.ready,
    ensures
        applied(d, s).secs == d.secs,
        !applied(d, s).ready,
    decreases s.len(),
{
    if s.len() > 0 {
        lemma_not_ready(d, s.drop_last());
    }
}

/// A sequence's part is in the whole.
proof fn lemma_whole_has(d: DevV, j: Jnl, k: int, i: int, r: RecV)
    requires
        0 <= i < k <= order(d, j, j.slots()).len(),
        whole(d, j, j.slots(), order(d, j, j.slots())[i]),
        members(d, j, j.slots(), order(d, j, j.slots())[i]).contains(r),
    ensures
        whole_txs(d, j, j.slots(), k).contains(r),
    decreases k,
{
    let t = order(d, j, j.slots())[k - 1];
    let w = whole_txs(d, j, j.slots(), k - 1);
    let m = members(d, j, j.slots(), t);
    if i == k - 1 {
        let x = choose|x: int| 0 <= x < m.len() && m[x] == r;
        assert((w + m)[w.len() + x] == r);
    } else {
        lemma_whole_has(d, j, k - 1, i, r);
        let x = choose|x: int| 0 <= x < w.len() && w[x] == r;
        assert(whole_txs(d, j, j.slots(), k)[x] == r);
    }
}

proof fn lemma_whole_only(d: DevV, j: Jnl, k: int, r: RecV)
    requires
        0 <= k <= order(d, j, j.slots()).len(),
        whole_txs(d, j, j.slots(), k).contains(r),
    ensures
        r.tx != 0,
        whole(d, j, j.slots(), r.tx),
        members(d, j, j.slots(), r.tx).contains(r),
    decreases k,
{
    let n = j.slots();
    if k > 0 {
        let t = order(d, j, n)[k - 1];
        let w = whole_txs(d, j, n, k - 1);
        let m = members(d, j, n, t);
        let z = whole_txs(d, j, n, k);
        let x = choose|x: int| 0 <= x < z.len() && z[x] == r;
        if x < w.len() {
            assert(w[x] == r);
            lemma_whole_only(d, j, k - 1, r);
        } else {
            assert(whole(d, j, n, t));
            assert(m[x - w.len()] == r);
            lemma_members_tx(d, j, n, t, r);
            lemma_order(d, j, n);
            assert(order(d, j, n).contains(t));
        }
    }
}

proof fn lemma_members_tx(d: DevV, j: Jnl, n: int, t: u32, r: RecV)
    requires
        members(d, j, n, t).contains(r),
    ensures
        r.tx == t,
    decreases n,
{
    if n > 0 {
        let m = members(d, j, n, t);
        let x = choose|x: int| 0 <= x < m.len() && m[x] == r;
        if x < members(d, j, n - 1, t).len() {
            assert(members(d, j, n - 1, t)[x] == r);
            lemma_members_tx(d, j, n - 1, t, r);
        }
    }
}

/// A transaction is replayed whole or not at all: its records are applied if
/// and only if it was committed and the commit counts as many records as are
/// there. A record outside transactions is always applied.
pub proof fn law_all_or_nothing(d: DevV, j: Jnl, r: RecV)
    requires
        j.wf(),
        members(d, j, j.slots(), r.tx).contains(r),
    ensures
        chosen(d, j).contains(r) <==> r.tx == 0 || whole(d, j, j.slots(), r.tx),
{
    let n = j.slots();
    let m = members(d, j, n, 0);
    let w = whole_txs(d, j, n, order(d, j, n).len() as int);
    lemma_order(d, j, n);
    if chosen(d, j).contains(r) {
        let x = choose|x: int| 0 <= x < chosen(d, j).len() && chosen(d, j)[x] == r;
        if x < m.len() {
            assert(m[x] == r);
            lemma_members_tx(d, j, n, 0, r);
        } else {
            assert(w[x - m.len()] == r);
            lemma_whole_only(d, j, order(d, j, n).len() as int, r);
        }
    }
    if r.tx == 0 {
        let x = choose|x: int| 0 <= x < m.len() && m[x] == r;
        assert(chosen(d, j)[x] == r);
    } else if whole(d, j, n, r.tx) {
        assert(order(d, j, n).contains(r.tx));
        let i = choose|i: int| 0 <= i < order(d, j, n).len() && order(d, j, n)[i] == r.tx;
        lemma_whole_has(d, j, order(d, j, n).len() as int, i, r);
        let x = choose|x: int| 0 <= x < w.len() && w[x] == r;
        assert(chosen(d, j)[m.len() + x] == r);
    }
}

/// Sorting loses and adds nothing.
pub proof fn law_sorting_keeps_records(s: Seq<RecV>, r: RecV)
    ensures
        sorted(s).contains(r) == s.contains(r),
        sorted(s).len() == s.len(),
    decreases s.len(),
{
    if s.len() > 0 {
        let t = s.drop_last();
        law_sorting_keeps_records(t, r);
        lemma_put_has(sorted(t), s.last(), r);
        if s.contains(r) {
            let x = choose|x: int| 0 <= x < s.len() && s[x] == r;
            if x < t.len() {
                assert(t[x] == r);
            }
        }
        if t.contains(r) {
            let x = choose|x: int| 0 <= x < t.len() && t[x] == r;
            assert(s[x] == r);
        }
        if s.last() == r {
            assert(s[s.len() - 1] == r);
        }
    }
}

proof fn lemma_put_has(s: Seq<RecV>, y: RecV, r: RecV)
    ensures
        put_in(s, y).contains(r) == (s.contains(r) || y == r),
        put_in(s, y).len() == s.len() + 1,
    decreases s.len(),
{
    let z = put_in(s, y);
    if s.len() == 0 || s.last().seq <= y.seq {
        assert(z == s.push(y));
        assert(z[s.len() as int] == y);
        if s.contains(r) {
            let x = choose|x: int| 0 <= x < s.len() && s[x] == r;
            assert(z[x] == r);
        }
        if z.contains(r) {
            let x = choose|x: int| 0 <= x < z.len() && z[x] == r;
            if x < s.len() {
                assert(s[x] == r);
            }
        }
    } else {
        let t = s.drop_last();
        lemma_put_has(t, y, r);
        let p = put_in(t, y);
        assert(z == p.push(s.last()));
        if z.contains(r) {
            let x = choose|x: int| 0 <= x < z.len() && z[x] == r;
            if x < p.len() {
                assert(p[x] == r);
                if t.contains(r) {
                    let w = choose|w: int| 0 <= w < t.len() && t[w] == r;
                    assert(s[w] == r);
                }
            } else {
                assert(s[s.len() - 1] == r);
            }
        }
        if s.contains(r) || y == r {
            if s.last() == r {
                assert(z[p.len() as int] == r);
            } else {
                if s.contains(r) {
                    let w = choose|w: int| 0 <= w < s.len() && s[w] == r;
                    assert(t[w] == r);
                }
                let x = choose|x: int| 0 <= x < p.len() && p[x] == r;
                assert(z[x] == r);
            }
        }
    }
}

/// Words of a freshly made sector.
proof fn lemma_record_words(gen: u32, r: RecV)
    ensures
        record_sector(gen, r).len() == SECTOR,
        dev::word(record_sector(gen, r), 0) == MAGIC_A,
        dev::word(record_sector(gen, r), 4) == gen,
        dev::word(record_sector(gen, r), 8) == r.seq,
        dev::word(record_sector(gen, r), 12) == r.lba,
        dev::word(record_sector(gen, r), 16) == sum(r.seq, r.lba, r.tx, r.data),
        dev::word(record_sector(gen, r), 20) == r.tx,
{
    let z = dev::zeros();
    let a = dev::with_word(z, 0, MAGIC_A);
    let b = dev::with_word(a, 4, gen);
    let c = dev::with_word(b, 8, r.seq);
    let e = dev::with_word(c, 12, r.lba);
    let f = dev::with_word(e, 16, sum(r.seq, r.lba, r.tx, r.data));
    dev::law_word_stored(z, 0, MAGIC_A, 0);
    dev::law_word_stored(a, 4, gen, 0);
    dev::law_word_stored(b, 8, r.seq, 0);
    dev::law_word_stored(b, 8, r.seq, 4);
    dev::law_word_stored(c, 12, r.lba, 0);
    dev::law_word_stored(c, 12, r.lba, 4);
    dev::law_word_stored(c, 12, r.lba, 8);
    let y = sum(r.seq, r.lba, r.tx, r.data);
    dev::law_word_stored(e, 16, y, 0);
    dev::law_word_stored(e, 16, y, 4);
    dev::law_word_stored(e, 16, y, 8);
    dev::law_word_stored(e, 16, y, 12);
    dev::law_word_stored(f, 20, r.tx, 0);
    dev::law_word_stored(f, 20, r.tx, 4);
    dev::law_word_stored(f, 20, r.tx, 8);
    dev::law_word_stored(f, 20, r.tx, 12);
    dev::law_word_stored(f, 20, r.tx, 16);
}

/// A record that was written is read back from its slot: same sector, same
/// data, same transaction.
pub proof fn law_record_reads_back(j: Jnl, d: DevV, lba: u32, data: Seq<u8>)
    requires
        j.wf(),
        j.on,
        j.slots() > 0,
        j.next != 0,
        d.has(j.slot_lba(slot_for(j, j.next))),
        d.has(j.slot_lba(slot_for(j, j.next)) + 1),
    ensures
        ({
            let (k, e) = recorded(j, d, lba, data);
            slot_at(e, k, slot_for(j, j.next)) == SlotV::Data(
                RecV {
                    seq: j.next,
                    lba,
                    tx: if j.depth == 0 {
                        0
                    } else {
                        k.tx
                    },
                    data,
                },
            )
        }),
{
    let (k, e) = recorded(j, d, lba, data);
    let r = RecV {
        seq: j.next,
        lba,
        tx: if j.depth == 0 {
            0
        } else {
            k.tx
        },
        data,
    };
    lemma_record_words(j.gen, r);
    assert(0 <= slot_for(j, j.next) < j.slots());
    let base = j.slot_lba(slot_for(j, j.next));
    assert(base + 1 <= u32::MAX);
    assert(e.secs[base] == record_sector(j.gen, r));
    assert(e.secs[base + 1] == data);
}

/// No record counts in a generation that none was made in.
proof fn lemma_reset_voids(j: Jnl, d: DevV, n: int)
    requires
        j.wf(),
        0 <= n <= j.slots(),
        forall|s: int|
            0 <= s < j.slots() ==> dev::word(#[trigger] d.at(j.slot_lba(s)), 4) != succ(j.gen),
    ensures
        ({
            let k = Jnl { gen: succ(j.gen), next: 1, ..j };
            let e = d.put(j.jlba, header(succ(j.gen)));
            &&& forall|t: u32| #[trigger] members(e, k, n, t).len() == 0
            &&& order(e, k, n).len() == 0
        }),
    decreases n,
{
    if n > 0 {
        lemma_reset_voids(j, d, n - 1);
        let k = Jnl { gen: succ(j.gen), next: 1, ..j };
        let e = d.put(j.jlba, header(succ(j.gen)));
        assert(e.at(k.slot_lba(n - 1)) == d.at(j.slot_lba(n - 1)));
        assert(slot_at(e, k, n - 1) is Nothing);
        assert forall|t: u32| #[trigger] members(e, k, n, t).len() == 0 by {
            assert(members(e, k, n - 1, t).len() == 0);
        }
    }
}

/// After a clean shutdown no record counts any more: a replay applies nothing
/// and says so. None may have been of the coming generation.
pub proof fn law_reset_voids(j: Jnl, d: DevV)
    requires
        j.wf(),
        forall|s: int|
            0 <= s < j.slots() ==> dev::word(#[trigger] d.at(j.slot_lba(s)), 4) != succ(j.gen),
    ensures
        ({
            let k = Jnl { gen: succ(j.gen), next: 1, ..j };
            let e = d.put(j.jlba, header(succ(j.gen)));
            replayed(e, k) == (e, k, (0usize, 0u32))
        }),
{
    lemma_reset_voids(j, d, j.slots());
    let k = Jnl { gen: succ(j.gen), next: 1, ..j };
    let e = d.put(j.jlba, header(succ(j.gen)));
    assert(members(e, k, k.slots(), 0).len() == 0);
    assert(chosen(e, k) =~= Seq::empty());
}

} // verus!
