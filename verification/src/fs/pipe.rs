//! Pipes: byte queues of fixed size.
use vstd::prelude::*;

verus! {

/// Bytes a pipe holds.
pub const CAP: usize = 1024;

pub struct Pipe {
    pub buf: [u8; CAP],
    /// Where the next byte is read and written, and how many wait.
    pub r: usize,
    pub w: usize,
    pub n: usize,
}

impl Pipe {
    pub open spec fn wf(&self) -> bool {
        self.r < CAP && self.n <= CAP && self.w == (self.r + self.n) % (CAP as int)
    }
}

impl View for Pipe {
    type V = Seq<u8>;

    /// Bytes that wait, oldest first.
    open spec fn view(&self) -> Seq<u8> {
        Seq::new(self.n as nat, |k: int| self.buf@[(self.r + k) % (CAP as int)])
    }
}

/// All pipes.
pub struct Pipes {
    pub v: Vec<Pipe>,
}

impl Pipes {
    pub open spec fn wf(&self) -> bool {
        forall|i: int| 0 <= i < self.v@.len() ==> (#[trigger] self.v@[i]).wf()
    }
}

impl View for Pipes {
    type V = Seq<Seq<u8>>;

    open spec fn view(&self) -> Seq<Seq<u8>> {
        Seq::new(self.v@.len(), |i: int| self.v@[i]@)
    }
}

/// No pipes.
pub fn init() -> (p: Pipes)
    ensures
        p.wf(),
        p@ == Seq::<Seq<u8>>::empty(),
{
    let p = Pipes { v: Vec::new() };
    assert(p@ =~= Seq::empty());
    p
}

/// Makes an empty pipe; both ends have its number.
pub fn create(p: &mut Pipes) -> (r: (usize, usize))
    requires
        old(p).wf(),
    ensures
        final(p).wf(),
        r.0 == old(p)@.len(),
        r.1 == old(p)@.len(),
        final(p)@ == old(p)@.push(Seq::empty()),
{
    let id: usize = p.v.len();
    p.v.push(Pipe { buf: [0; CAP], r: 0, w: 0, n: 0 });
    proof {
        assert(p.v@[id as int]@ =~= Seq::empty());
        assert(p@ =~= old(p)@.push(Seq::empty()));
    }
    (id, id)
}

fn put(p: &mut Pipe, b: u8)
    requires
        old(p).wf(),
        old(p).n < CAP,
    ensures
        final(p).wf(),
        final(p)@ == old(p)@.push(b),
{
    p.buf[p.w] = b;
    p.w = if p.w + 1 < CAP {
        p.w + 1
    } else {
        0
    };
    p.n = p.n + 1;
    assert(p@ =~= old(p)@.push(b));
}

fn take(p: &mut Pipe) -> (b: u8)
    requires
        old(p).wf(),
        old(p).n > 0,
    ensures
        final(p).wf(),
        b == old(p)@[0],
        final(p)@ == old(p)@.skip(1),
{
    let b = p.buf[p.r];
    p.r = if p.r + 1 < CAP {
        p.r + 1
    } else {
        0
    };
    p.n = p.n - 1;
    assert(p@ =~= old(p)@.skip(1));
    b
}

/// Bytes that go in at once.
pub open spec fn fit(len: nat, room: int) -> int {
    if len <= room {
        len as int
    } else {
        room
    }
}

/// Writes what fits; returns how much. 0 for a pipe that does not exist.
pub fn write(p: &mut Pipes, id: usize, buf: &[u8]) -> (n: usize)
    requires
        old(p).wf(),
    ensures
        final(p).wf(),
        id >= old(p)@.len() ==> n == 0 && final(p)@ == old(p)@,
        id < old(p)@.len() ==> {
            &&& n == fit(buf@.len(), CAP - old(p)@[id as int].len())
            &&& final(p)@ == old(p)@.update(id as int, old(p)@[id as int] + buf@.take(n as int))
        },
{
    if id >= p.v.len() {
        return 0;
    }
    let ghost c0 = p@[id as int];
    let len: usize = buf.len();
    let mut n: usize = 0;
    assert(c0 + buf@.take(0) =~= c0);
    assert(p@ =~= old(p)@.update(id as int, c0 + buf@.take(0)));
    while n < len && p.v[id].n < CAP
        invariant
            p.wf(),
            id < p.v@.len(),
            len == buf@.len(),
            n <= len,
            c0 == old(p)@[id as int],
            old(p)@.len() == p.v@.len(),
            c0.len() + n <= CAP,
            p@ == old(p)@.update(id as int, c0 + buf@.take(n as int)),
        decreases len - n,
    {
        let ghost v1 = p.v@;
        let ghost p1 = p@;
        assert(p1[id as int] == v1[id as int]@);
        put(&mut p.v[id], buf[n]);
        n += 1;
        proof {
            assert(p.v@ == v1.update(id as int, p.v@[id as int]));
            assert(p@ =~= p1.update(id as int, p.v@[id as int]@));
            assert(buf@.take(n as int) =~= buf@.take(n - 1).push(buf@[n - 1]));
            assert(p@[id as int] =~= c0 + buf@.take(n as int));
            assert(p@ =~= old(p)@.update(id as int, c0 + buf@.take(n as int)));
        }
    }
    assert(p@[id as int] == p.v@[id as int]@);
    n
}

/// Reads what there is, as much as `buf` holds; returns how much. 0 for a pipe
/// that does not exist.
pub fn read(p: &mut Pipes, id: usize, buf: &mut [u8]) -> (n: usize)
    requires
        old(p).wf(),
    ensures
        final(p).wf(),
        final(buf)@.len() == old(buf)@.len(),
        id >= old(p)@.len() ==> n == 0 && final(p)@ == old(p)@ && final(buf)@ == old(buf)@,
        id < old(p)@.len() ==> {
            &&& n == fit(old(p)@[id as int].len(), old(buf)@.len() as int)
            &&& final(p)@ == old(p)@.update(id as int, old(p)@[id as int].skip(n as int))
            &&& final(buf)@ == old(p)@[id as int].take(n as int) + old(buf)@.skip(n as int)
        },
{
    if id >= p.v.len() {
        return 0;
    }
    let ghost c0 = p@[id as int];
    let ghost b0 = buf@;
    let len: usize = buf.len();
    let mut n: usize = 0;
    assert(c0.skip(0) =~= c0);
    assert(p@ =~= old(p)@.update(id as int, c0.skip(0)));
    assert(buf@ =~= c0.take(0) + b0.skip(0));
    while n < len && p.v[id].n > 0
        invariant
            p.wf(),
            id < p.v@.len(),
            len == b0.len(),
            buf@.len() == len,
            n <= len,
            c0 == old(p)@[id as int],
            old(p)@.len() == p.v@.len(),
            n <= c0.len(),
            p@ == old(p)@.update(id as int, c0.skip(n as int)),
            buf@ == c0.take(n as int) + b0.skip(n as int),
        decreases len - n,
    {
        let ghost v1 = p.v@;
        let ghost p1 = p@;
        assert(p1[id as int] == v1[id as int]@);
        let b = take(&mut p.v[id]);
        buf[n] = b;
        n += 1;
        proof {
            assert(p.v@ == v1.update(id as int, p.v@[id as int]));
            assert(p@ =~= p1.update(id as int, p.v@[id as int]@));
            assert(c0.skip(n - 1).skip(1) =~= c0.skip(n as int));
            assert(p@ =~= old(p)@.update(id as int, c0.skip(n as int)));
            assert(buf@ =~= c0.take(n as int) + b0.skip(n as int));
        }
    }
    assert(p@[id as int] == p.v@[id as int]@);
    n
}

/// Bytes that wait in a pipe; 0 for one that does not exist.
pub fn avail(p: &Pipes, id: usize) -> (n: usize)
    ensures
        n == if id < p@.len() {
            p@[id as int].len()
        } else {
            0
        },
{
    if id >= p.v.len() {
        return 0;
    }
    assert(p@[id as int] == p.v@[id as int]@);
    p.v[id].n
}

/// What a pipe takes of a write, and gives to a read.
pub open spec fn accepted(c: Seq<u8>, buf: Seq<u8>) -> Seq<u8> {
    buf.take(fit(buf.len(), CAP - c.len()))
}

pub open spec fn given(c: Seq<u8>, len: nat) -> Seq<u8> {
    c.take(fit(c.len(), len as int))
}

/// A pipe hands bytes on in order and loses none: what was read, followed by
/// what waits, is what was taken, and each write and each read keeps this.
pub proof fn law_fifo(got: Seq<u8>, waiting: Seq<u8>, taken: Seq<u8>, buf: Seq<u8>, len: nat)
    requires
        got + waiting == taken,
        waiting.len() <= CAP,
    ensures
        got + (waiting + accepted(waiting, buf)) == taken + accepted(waiting, buf),
        (waiting + accepted(waiting, buf)).len() <= CAP,
        (got + given(waiting, len)) + waiting.skip(given(waiting, len).len() as int) == taken,
{
    assert(got + (waiting + accepted(waiting, buf)) =~= taken + accepted(waiting, buf));
    assert((got + given(waiting, len)) + waiting.skip(given(waiting, len).len() as int) =~= taken);
}

} // verus!
