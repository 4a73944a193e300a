//! What the journal is for: what was recorded is there again after a replay.
use crate::fs::dev;
use crate::fs::dev::{Dev, DevV, SECTOR};
use crate::fs::jnl;
use crate::fs::jnl::{Jnl, RecV, SlotV};
use vstd::prelude::*;

verus! {

// ---- order ----

/// No record stands behind a later one.
pub open spec fn in_order(s: Seq<RecV>) -> bool {
    forall|i: int, j: int| 0 <= i < j < s.len() ==> (#[trigger] s[i]).seq <= (#[trigger] s[j]).seq
}

proof fn lemma_put_in(s: Seq<RecV>, r: RecV, b: u32)
    requires
        in_order(s),
    ensures
        in_order(jnl::put_in(s, r)),
        jnl::put_in(s, r).len() == s.len() + 1,
        r.seq <= b && (forall|i: int| 0 <= i < s.len() ==> (#[trigger] s[i]).seq <= b) ==> forall|i: int|
            0 <= i < jnl::put_in(s, r).len() ==> (#[trigger] jnl::put_in(s, r)[i]).seq <= b,
    decreases s.len(),
{
    if s.len() > 0 && s.last().seq > r.seq {
        let t = s.drop_last();
        lemma_put_in(t, r, b);
        lemma_put_in(t, r, s.last().seq);
        assert(forall|i: int| 0 <= i < t.len() ==> (#[trigger] t[i]) == s[i]);
    }
}

/// Records are applied by their numbers, lowest first.
pub proof fn law_replay_is_in_order(s: Seq<RecV>)
    ensures
        in_order(jnl::sorted(s)),
    decreases s.len(),
{
    if s.len() > 0 {
        law_replay_is_in_order(s.drop_last());
        lemma_put_in(jnl::sorted(s.drop_last()), s.last(), 0);
    }
}

proof fn lemma_last(s: Seq<RecV>, l: int, r: RecV)
    requires
        in_order(s),
        s.contains(r),
        r.lba == l,
    ensures
        exists|x: RecV| #[trigger]
            s.contains(x) && x.lba == l && x.seq >= r.seq && jnl::last_data(s, l) == Some(x.data),
    decreases s.len(),
{
    let i = choose|i: int| 0 <= i < s.len() && s[i] == r;
    if s.last().lba == l {
        assert(s[s.len() - 1] == s.last());
        assert(s.contains(s.last()));
        assert(s.last().seq >= r.seq);
    } else {
        let t = s.drop_last();
        assert(t[i] == r);
        assert(in_order(t)) by {
            assert forall|a: int, b: int| 0 <= a < b < t.len() implies (#[trigger] t[a]).seq <= (#[trigger] t[b]).seq by {
                assert(t[a] == s[a] && t[b] == s[b]);
            }
        }
        lemma_last(t, l, r);
        let x = choose|x: RecV| #[trigger]
            t.contains(x) && x.lba == l && x.seq >= r.seq && jnl::last_data(t, l) == Some(x.data);
        let k = choose|k: int| 0 <= k < t.len() && t[k] == x;
        assert(s[k] == x);
        assert(s.contains(x));
    }
}

/// After a replay a sector holds what the latest record for it holds.
pub proof fn law_latest_record_stands(d: DevV, j: Jnl, r: RecV, l: int)
    requires
        d.has(l),
        jnl::chosen(d, j).contains(r),
        r.lba == l,
        forall|q: RecV| #[trigger] jnl::chosen(d, j).contains(q) && q.lba == l ==> q.seq < r.seq || q == r,
    ensures
        jnl::replayed(d, j).0.secs[l] == r.data,
        jnl::replayed(d, j).0.has(l),
{
    let c = jnl::chosen(d, j);
    let s = jnl::sorted(c);
    law_replay_is_in_order(c);
    jnl::law_sorting_keeps_records(c, r);
    jnl::law_last_record_wins(d, s, l);
    lemma_last(s, l, r);
    let x = choose|x: RecV| #[trigger]
        s.contains(x) && x.lba == l && x.seq >= r.seq && jnl::last_data(s, l) == Some(x.data);
    jnl::law_sorting_keeps_records(c, x);
}

proof fn lemma_no_data(s: Seq<RecV>, l: int)
    requires
        forall|q: RecV| #[trigger] s.contains(q) ==> q.lba != l,
    ensures
        jnl::last_data(s, l) is None,
    decreases s.len(),
{
    if s.len() > 0 {
        let t = s.drop_last();
        assert(s.contains(s.last())) by {
            assert(s[s.len() - 1] == s.last());
        }
        assert forall|q: RecV| #[trigger] t.contains(q) implies q.lba != l by {
            let i = choose|i: int| 0 <= i < t.len() && t[i] == q;
            assert(s[i] == q);
            assert(s.contains(q));
        }
        lemma_no_data(t, l);
    }
}

/// A sector that no record is for is as it was.
pub proof fn law_other_sectors_stay(d: DevV, j: Jnl, l: int)
    requires
        d.has(l),
        forall|q: RecV| #[trigger] jnl::chosen(d, j).contains(q) ==> q.lba != l,
    ensures
        jnl::replayed(d, j).0.secs[l] == d.secs[l],
{
    let c = jnl::chosen(d, j);
    let s = jnl::sorted(c);
    assert forall|q: RecV| #[trigger] s.contains(q) implies q.lba != l by {
        jnl::law_sorting_keeps_records(c, q);
    }
    lemma_no_data(s, l);
    jnl::law_last_record_wins(d, s, l);
}

// ---- what is recorded is found ----

proof fn lemma_member(d: DevV, j: Jnl, n: int, s: int, r: RecV)
    requires
        0 <= s < n,
        jnl::slot_at(d, j, s) == SlotV::Data(r),
    ensures
        jnl::members(d, j, n, r.tx).contains(r),
    decreases n,
{
    let m = jnl::members(d, j, n, r.tx);
    let p = jnl::members(d, j, n - 1, r.tx);
    if s == n - 1 {
        assert(m == p.push(r));
        assert(m[p.len() as int] == r);
    } else {
        lemma_member(d, j, n - 1, s, r);
        let i = choose|i: int| 0 <= i < p.len() && p[i] == r;
        assert(m[i] == r);
    }
}

/// A write that was recorded is not lost: after a replay its sector holds the
/// data, unless a later record is for it.
pub proof fn law_recorded_write_is_recovered(j: &mut Jnl, d: &mut Dev, lba: u32, data: &[u8; SECTOR], u: ())
    requires
        old(j).wf(),
        old(j).on,
        old(j).depth == 0,
        old(j).slots() > 0,
        old(j).next != 0,
        old(d)@.has(lba as int),
        old(d)@.has(old(j).slot_lba(old(j).next as int % old(j).slots())),
        old(d)@.has(old(j).slot_lba(old(j).next as int % old(j).slots()) + 1),
        call_ensures(jnl::record, (j, d, lba, data), u),
        forall|q: RecV| #[trigger]
            jnl::chosen(final(d)@, *final(j)).contains(q) && q.lba == lba ==> q.seq < old(j).next || (q.seq == old(j).next
                && q.tx == 0 && q.data == data@),
    ensures
        jnl::replayed(final(d)@, *final(j)).0.secs[lba as int] == data@,
{
    let j0 = *old(j);
    let s = jnl::slot_for(j0, j0.next);
    jnl::law_record_reads_back(j0, old(d)@, lba, data@);
    let r = RecV { seq: j0.next, lba, tx: 0, data: data@ };
    let e = final(d)@;
    let k = *final(j);
    assert(0 <= s < k.slots());
    lemma_member(e, k, k.slots(), s, r);
    jnl::law_all_or_nothing(e, k, r);
    assert forall|q: RecV| #[trigger] jnl::chosen(e, k).contains(q) && q.lba == lba implies q.seq < r.seq || q == r by {}
    law_latest_record_stands(e, k, r, lba as int);
}

// ---- transactions ----

proof fn lemma_other_slot(d: DevV, e: DevV, j: Jnl, k: Jnl, s: int, t: int, a: Seq<u8>, b: Seq<u8>)
    requires
        j.wf(),
        0 <= s < j.slots(),
        0 <= t < j.slots(),
        s != t,
        k.jlba == j.jlba && k.jb == j.jb && k.gen == j.gen,
        e == d.put(j.slot_lba(t) as u32, a).put((j.slot_lba(t) as u32 + 1) as u32, b),
    ensures
        jnl::slot_at(e, k, s) == jnl::slot_at(d, j, s),
{
    assert(j.slot_lba(t) + 1 <= u32::MAX);
    assert(e.at(k.slot_lba(s)) == d.at(j.slot_lba(s)));
    assert(e.at(k.slot_lba(s) + 1) == d.at(j.slot_lba(s) + 1));
}

/// With one slot changed from what is no record of `tx` to one, there is one
/// more.
proof fn lemma_one_more(d: DevV, e: DevV, j: Jnl, k: Jnl, n: int, t: int, tx: u32)
    requires
        0 <= t,
        forall|s: int| 0 <= s < n && s != t ==> #[trigger] jnl::slot_at(e, k, s) == jnl::slot_at(d, j, s),
        !(jnl::slot_at(d, j, t) is Data && (jnl::slot_at(d, j, t)->Data_0).tx == tx),
    ensures
        jnl::members(e, k, n, tx).len() == jnl::members(d, j, n, tx).len() + if t < n && jnl::slot_at(e, k, t) is Data && (
        jnl::slot_at(e, k, t)->Data_0).tx == tx {
            1int
        } else {
            0
        },
    decreases n,
{
    if n > 0 {
        lemma_one_more(d, e, j, k, n - 1, t, tx);
        if n - 1 != t {
            assert(jnl::slot_at(e, k, n - 1) == jnl::slot_at(d, j, n - 1));
        }
    }
}

/// The count of a transaction is how many records of it the journal holds.
pub open spec fn counts(j: Jnl, d: DevV) -> bool {
    j.depth > 0 && j.tx != 0 && jnl::members(d, j, j.slots(), j.tx).len() == j.tx_count
}

/// The slot that comes next holds nothing of the open transaction.
pub open spec fn clear(j: Jnl, d: DevV) -> bool {
    let s = j.next as int % j.slots();
    &&& j.wf() && j.on && j.slots() > 0 && j.next != 0
    &&& d.has(j.slot_lba(s)) && d.has(j.slot_lba(s) + 1)
    &&& !(jnl::slot_at(d, j, s) is Data && (jnl::slot_at(d, j, s)->Data_0).tx == j.tx)
    &&& !(jnl::slot_at(d, j, s) is Commit && (jnl::slot_at(d, j, s)->tx) == j.tx)
}

/// A record of an open transaction is counted.
pub proof fn law_record_is_counted(j: &mut Jnl, d: &mut Dev, lba: u32, data: &[u8; SECTOR], u: ())
    requires
        counts(*old(j), old(d)@),
        clear(*old(j), old(d)@),
        old(j).tx_count < 200,
        call_ensures(jnl::record, (j, d, lba, data), u),
    ensures
        counts(*final(j), final(d)@),
        final(j).tx == old(j).tx,
        final(j).tx_count == old(j).tx_count + 1,
{
    let j0 = *old(j);
    let k = *final(j);
    let e = final(d)@;
    let t = jnl::slot_for(j0, j0.next);
    jnl::law_record_reads_back(j0, old(d)@, lba, data@);
    let r = RecV { seq: j0.next, lba, tx: j0.tx, data: data@ };
    assert(0 <= t < j0.slots());
    assert forall|s: int| 0 <= s < j0.slots() && s != t implies #[trigger] jnl::slot_at(e, k, s) == jnl::slot_at(
        old(d)@,
        j0,
        s,
    ) by {
        lemma_other_slot(old(d)@, e, j0, k, s, t, jnl::record_sector(j0.gen, r), data@);
    }
    lemma_one_more(old(d)@, e, j0, k, j0.slots(), t, j0.tx);
}

proof fn lemma_commit_words(gen: u32, seq: u32, tx: u32, count: u32)
    ensures
        ({
            let a = jnl::commit_sector(gen, seq, tx, count);
            &&& dev::word(a, 0) == jnl::MAGIC_C
            &&& dev::word(a, 4) == gen
            &&& dev::word(a, 8) == seq
            &&& dev::word(a, 12) == tx
            &&& dev::word(a, 16) == count
            &&& dev::word(a, 20) == jnl::sum(tx, count, jnl::COMMIT_TX, dev::zeros())
        }),
{
    let z = dev::zeros();
    let a = dev::with_word(z, 0, jnl::MAGIC_C);
    let b = dev::with_word(a, 4, gen);
    let c = dev::with_word(b, 8, seq);
    let e = dev::with_word(c, 12, tx);
    let f = dev::with_word(e, 16, count);
    let y = jnl::sum(tx, count, jnl::COMMIT_TX, z);
    dev::law_word_stored(z, 0, jnl::MAGIC_C, 0);
    dev::law_word_stored(a, 4, gen, 0);
    dev::law_word_stored(b, 8, seq, 0);
    dev::law_word_stored(b, 8, seq, 4);
    dev::law_word_stored(c, 12, tx, 0);
    dev::law_word_stored(c, 12, tx, 4);
    dev::law_word_stored(c, 12, tx, 8);
    dev::law_word_stored(e, 16, count, 0);
    dev::law_word_stored(e, 16, count, 4);
    dev::law_word_stored(e, 16, count, 8);
    dev::law_word_stored(e, 16, count, 12);
    dev::law_word_stored(f, 20, y, 0);
    dev::law_word_stored(f, 20, y, 4);
    dev::law_word_stored(f, 20, y, 8);
    dev::law_word_stored(f, 20, y, 12);
    dev::law_word_stored(f, 20, y, 16);
}

proof fn lemma_only_commit(d: DevV, j: Jnl, n: int, t: int, tx: u32, count: u32)
    requires
        0 <= t < n,
        jnl::slot_at(d, j, t) == (SlotV::Commit { tx, count }),
        forall|s: int|
            0 <= s < n && s != t ==> !((#[trigger] jnl::slot_at(d, j, s)) is Commit && (jnl::slot_at(d, j, s)->tx) == tx),
    ensures
        jnl::commit_of(d, j, n, tx) == Some(count),
    decreases n,
{
    if n - 1 != t {
        assert(!(jnl::slot_at(d, j, n - 1) is Commit && (jnl::slot_at(d, j, n - 1)->tx) == tx));
        lemma_only_commit(d, j, n - 1, t, tx, count);
    }
}

/// A transaction that is committed is whole: every record of it is replayed.
/// One that is not committed is not.
pub proof fn law_commit_makes_whole(j: &mut Jnl, d: &mut Dev, u: (), r: RecV)
    requires
        counts(*old(j), old(d)@),
        clear(*old(j), old(d)@),
        old(j).depth == 1,
        old(j).tx_count > 0,
        forall|s: int|
            0 <= s < old(j).slots() ==> !((#[trigger] jnl::slot_at(old(d)@, *old(j), s)) is Commit && (jnl::slot_at(
                old(d)@,
                *old(j),
                s,
            )->tx) == old(j).tx),
        jnl::members(old(d)@, *old(j), old(j).slots(), old(j).tx).contains(r),
        r.tx == old(j).tx,
        call_ensures(jnl::commit, (j, d), u),
    ensures
        jnl::chosen(final(d)@, *final(j)).contains(r),
        !jnl::chosen(old(d)@, *old(j)).contains(r),
        final(j).depth == 0,
{
    let j0 = *old(j);
    let k = *final(j);
    let d0 = old(d)@;
    let e = final(d)@;
    let n = j0.slots();
    let t = jnl::slot_for(j0, j0.next);
    assert(0 <= t < n);
    let a = jnl::commit_sector(j0.gen, j0.next, j0.tx, j0.tx_count);
    lemma_commit_words(j0.gen, j0.next, j0.tx, j0.tx_count);
    assert forall|s: int| 0 <= s < n && s != t implies #[trigger] jnl::slot_at(e, k, s) == jnl::slot_at(d0, j0, s) by {
        lemma_other_slot(d0, e, j0, k, s, t, a, dev::zeros());
    }
    let base = j0.slot_lba(t);
    assert(base + 1 <= u32::MAX);
    assert(e.at(base) == a);
    assert(jnl::slot_at(e, k, t) == (SlotV::Commit { tx: j0.tx, count: j0.tx_count }));
    lemma_one_more(d0, e, j0, k, n, t, j0.tx);
    lemma_only_commit(e, k, n, t, j0.tx, j0.tx_count);
    assert(jnl::whole(e, k, n, j0.tx));
    lemma_same_members(d0, e, j0, k, n, t, j0.tx);
    jnl::law_all_or_nothing(e, k, r);
    lemma_no_commit(d0, j0, n, j0.tx);
    jnl::law_all_or_nothing(d0, j0, r);
}

proof fn lemma_no_commit(d: DevV, j: Jnl, n: int, tx: u32)
    requires
        forall|s: int| 0 <= s < n ==> !((#[trigger] jnl::slot_at(d, j, s)) is Commit && (jnl::slot_at(d, j, s)->tx) == tx),
    ensures
        jnl::commit_of(d, j, n, tx) is None,
    decreases n,
{
    if n > 0 {
        assert(!(jnl::slot_at(d, j, n - 1) is Commit && (jnl::slot_at(d, j, n - 1)->tx) == tx));
        lemma_no_commit(d, j, n - 1, tx);
    }
}

proof fn lemma_same_members(d: DevV, e: DevV, j: Jnl, k: Jnl, n: int, t: int, tx: u32)
    requires
        forall|s: int| 0 <= s < n && s != t ==> #[trigger] jnl::slot_at(e, k, s) == jnl::slot_at(d, j, s),
        !(jnl::slot_at(d, j, t) is Data && (jnl::slot_at(d, j, t)->Data_0).tx == tx),
        !(jnl::slot_at(e, k, t) is Data && (jnl::slot_at(e, k, t)->Data_0).tx == tx),
    ensures
        jnl::members(e, k, n, tx) == jnl::members(d, j, n, tx),
    decreases n,
{
    if n > 0 {
        lemma_same_members(d, e, j, k, n - 1, t, tx);
        if n - 1 != t {
            assert(jnl::slot_at(e, k, n - 1) == jnl::slot_at(d, j, n - 1));
        }
    }
}

/// A transaction starts with a number of its own and nothing counted; one
/// within another is part of it.
pub proof fn law_begin(j: &mut Jnl, u: ())
    requires
        old(j).on,
        old(j).depth < u32::MAX,
        call_ensures(jnl::begin, (j,), u),
    ensures
        final(j).depth == old(j).depth + 1,
        old(j).depth == 0 ==> final(j).tx == old(j).tx_next && final(j).tx_count == 0 && final(j).tx_next != final(j).tx
            && final(j).tx_next != 0,
        old(j).depth > 0 ==> final(j).tx == old(j).tx && final(j).tx_count == old(j).tx_count,
        final(j).next == old(j).next,
{
}

} // verus!
