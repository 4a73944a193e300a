//! What is typed and what the board makes of it; what a task's calls do to it.
use crate::eos::shell;
use crate::eos::shell::Machine;
use crate::eos::task::{EosV, MAX_TASKS};
use crate::eos::text;
use crate::eos::trap;
use vstd::prelude::*;

verus! {

/// A character that can be shown.
pub open spec fn printable(c: u8) -> bool {
    0x20 <= c < 0x7f
}

/// The line after keys.
pub open spec fn typed(line: Seq<u8>, keys: Seq<u8>) -> Seq<u8>
    decreases keys.len(),
{
    if keys.len() == 0 {
        line
    } else {
        typed(shell::edited(line, keys[0]), keys.skip(1))
    }
}

/// What is shown for keys.
pub open spec fn echoed(line: Seq<u8>, keys: Seq<u8>) -> Seq<u8>
    decreases keys.len(),
{
    if keys.len() == 0 {
        Seq::empty()
    } else {
        shell::shown(line, keys[0]) + echoed(shell::edited(line, keys[0]), keys.skip(1))
    }
}

/// Characters that are typed are the line, in order, and are shown as they are;
/// beyond the longest line they do not count.
pub proof fn law_typing(line: Seq<u8>, keys: Seq<u8>)
    requires
        line.len() <= 128,
        forall|i: int| 0 <= i < keys.len() ==> printable(#[trigger] keys[i]),
    ensures
        line.len() + keys.len() <= 128 ==> typed(line, keys) == line + keys && echoed(line, keys) == keys,
        line.len() + keys.len() > 128 ==> typed(line, keys) == line + keys.take(128 - line.len()),
    decreases keys.len(),
{
    if keys.len() > 0 {
        let rest = keys.skip(1);
        assert(printable(keys[0]));
        assert forall|i: int| 0 <= i < rest.len() implies printable(#[trigger] rest[i]) by {
            assert(rest[i] == keys[i + 1]);
        }
        let l = shell::edited(line, keys[0]);
        law_typing(l, rest);
        if line.len() + keys.len() <= 128 {
            assert(l + rest =~= line + keys);
            assert(seq![keys[0]] + rest =~= keys);
        } else if line.len() < 128 {
            assert(l + rest.take(128 - l.len()) =~= line + keys.take(128 - line.len()));
        } else {
            assert(l == line);
            if rest.len() > 0 {
                assert(line + rest.take(0) =~= line);
            }
            assert(line + keys.take(0) =~= line);
            assert(line + rest =~= line + rest);
            if rest.len() == 0 {
                assert(line + rest =~= line);
            }
        }
    } else {
        assert(line + keys =~= line);
    }
}

/// Enter ends the line and starts a new one; other keys that cannot be shown do
/// nothing.
pub proof fn law_control_keys(line: Seq<u8>, c: u8)
    requires
        !printable(c),
    ensures
        c == 0x0d || c == 0x0a ==> shell::edited(line, c).len() == 0 && shell::shown(line, c) == seq![0x0au8],
        c != 0x0d && c != 0x0a && c != 0x08 && c != 0x7f ==> shell::edited(line, c) == line && shell::shown(line, c).len()
            == 0,
        (c == 0x08 || c == 0x7f) && line.len() > 0 ==> shell::edited(line, c) == line.take(line.len() - 1)
            && shell::shown(line, c) == seq![0x08u8, 0x20u8, 0x08u8],
        (c == 0x08 || c == 0x7f) && line.len() == 0 ==> shell::edited(line, c) == line && shell::shown(line, c).len()
            == 0,
{
    if line.len() > 0 {
        assert(line.drop_last() =~= line.take(line.len() - 1));
    }
}

// ---- commands ----

pub open spec fn blank(c: u8) -> bool {
    c == 0x20 || 0x09 <= c <= 0x0d
}

pub open spec fn blanks(s: Seq<u8>) -> bool {
    forall|i: int| 0 <= i < s.len() ==> blank(#[trigger] s[i])
}

/// Starts and ends with something.
pub open spec fn tight(s: Seq<u8>) -> bool {
    s.len() > 0 && !blank(s[0]) && !blank(s.last())
}

proof fn lemma_past(s: Seq<u8>, i: int, j: int)
    requires
        0 <= i <= j <= s.len(),
        forall|k: int| i <= k < j ==> blank(#[trigger] s[k]),
        j == s.len() || !blank(s[j]),
    ensures
        shell::past_spaces(s, i) == j,
    decreases j - i,
{
    if i < j {
        assert(blank(s[i]));
        lemma_past(s, i + 1, j);
    }
}

proof fn lemma_before(s: Seq<u8>, n: int, j: int)
    requires
        0 <= j <= n <= s.len(),
        forall|k: int| j <= k < n ==> blank(#[trigger] s[k]),
        j == 0 || !blank(s[j - 1]),
    ensures
        shell::before_spaces(s, n) == j,
    decreases n,
{
    if j < n {
        assert(blank(s[n - 1]));
        lemma_before(s, n - 1, j);
    }
}

proof fn lemma_word(s: Seq<u8>, i: int, j: int)
    requires
        0 <= i <= j <= s.len(),
        forall|k: int| i <= k < j ==> !blank(#[trigger] s[k]),
        j == s.len() || blank(s[j]),
    ensures
        shell::word_end(s, i) == j,
    decreases j - i,
{
    if i < j {
        assert(!blank(s[i]));
        lemma_word(s, i + 1, j);
    }
}

proof fn lemma_trim(a: Seq<u8>, s: Seq<u8>, b: Seq<u8>)
    requires
        blanks(a),
        blanks(b),
        tight(s),
    ensures
        shell::trim(a + s + b) == s,
{
    let t = a + s + b;
    let n = a.len() as int;
    assert forall|k: int| 0 <= k < n implies blank(#[trigger] t[k]) by {
        assert(t[k] == a[k]);
    }
    assert(t[n] == s[0]);
    lemma_past(t, 0, n);
    let u = t.skip(n);
    assert(u =~= s + b);
    assert forall|k: int| s.len() <= k < u.len() implies blank(#[trigger] u[k]) by {
        assert(u[k] == b[k - s.len()]);
    }
    assert(u[s.len() - 1] == s.last());
    lemma_before(u, u.len() as int, s.len() as int);
    assert(u.take(s.len() as int) =~= s);
}

/// Blanks around a command do not matter.
pub proof fn law_blanks_do_not_matter(e: EosV, m: Machine, a: Seq<u8>, s: Seq<u8>, b: Seq<u8>)
    requires
        blanks(a),
        blanks(b),
        tight(s),
    ensures
        shell::answered(e, m, a + s + b) == shell::answered(e, m, s),
{
    lemma_trim(a, s, b);
    lemma_trim(Seq::empty(), s, Seq::empty());
    assert(Seq::<u8>::empty() + s + Seq::<u8>::empty() =~= s);
}

/// A line of blanks is no command.
pub proof fn law_empty_line(e: EosV, m: Machine, a: Seq<u8>)
    requires
        blanks(a),
    ensures
        shell::answered(e, m, a).text.len() == 0,
        shell::answered(e, m, a).after.len() == 0,
        shell::answered(e, m, a).act is Nothing,
{
    lemma_past(a, 0, a.len() as int);
    let t = a.skip(a.len() as int);
    assert(t.len() == 0);
    lemma_before(t, 0, 0);
}

/// The first word is the command: with another that is none of the list, the
/// answer names it and nothing is done.
pub proof fn law_words_of_a_command(w: Seq<u8>, gap: Seq<u8>, rest: Seq<u8>)
    requires
        w.len() > 0,
        forall|i: int| 0 <= i < w.len() ==> !blank(#[trigger] w[i]),
        blanks(gap),
        gap.len() > 0,
        tight(rest),
    ensures
        shell::head(w + gap + rest) == w,
        shell::head(w) == w,
        shell::trim_start((w + gap + rest).skip(w.len() as int)) == rest,
{
    let s = w + gap + rest;
    let n = w.len() as int;
    assert forall|k: int| 0 <= k < n implies !blank(#[trigger] s[k]) by {
        assert(s[k] == w[k]);
    }
    assert(s[n] == gap[0]);
    lemma_word(s, 0, n);
    lemma_word(w, 0, n);
    assert(s.take(n) =~= w);
    assert(w.take(n) =~= w);
    let t = s.skip(n);
    assert(t =~= gap + rest);
    assert forall|k: int| 0 <= k < gap.len() implies blank(#[trigger] t[k]) by {
        assert(t[k] == gap[k]);
    }
    assert(t[gap.len() as int] == rest[0]);
    lemma_past(t, 0, gap.len() as int);
    assert(t.skip(gap.len() as int) =~= rest);
}

/// Echo prints what follows it, and a line end.
pub proof fn law_echo(e: EosV, m: Machine, w: Seq<u8>, gap: Seq<u8>, rest: Seq<u8>)
    requires
        w == text::b("echo"),
        w != text::b("help") && w != text::b("info") && w != text::b("ps") && w != text::b("ticks"),
        w.len() > 0,
        forall|i: int| 0 <= i < w.len() ==> !blank(#[trigger] w[i]),
        blanks(gap),
        gap.len() > 0,
        tight(rest),
    ensures
        ({
            let r = shell::answered(e, m, w + gap + rest);
            &&& r.text == rest + text::b("\n")
            &&& r.act is Nothing
            &&& r.after.len() == 0
        }),
{
    let s = w + gap + rest;
    law_words_of_a_command(w, gap, rest);
    assert(tight(s)) by {
        assert(s[0] == w[0]);
        assert(s.last() == rest.last());
    }
    lemma_trim(Seq::empty(), s, Seq::empty());
    assert(Seq::<u8>::empty() + s + Seq::<u8>::empty() =~= s);
}

/// Only three commands do more than answer.
pub proof fn law_commands_that_act(e: EosV, m: Machine, line: Seq<u8>)
    ensures
        ({
            let r = shell::answered(e, m, line);
            let h = shell::head(shell::trim(line));
            &&& r.act is Yield ==> h == text::b("yield")
            &&& r.act is Fault ==> h == text::b("fault")
            &&& r.act is PowerOff ==> h == text::b("poweroff")
        }),
{
}

// ---- calls of a task ----

/// A call goes on behind its instruction, of two bytes or four, and changes only
/// the registers of its answer: the character or none, the ticks in two halves,
/// the task's number.
pub proof fn law_task_calls(e: EosV, f: EosV, insn: u16, input: Option<u8>, i: int)
    requires
        e.wf(),
        trap::framed(e, f, insn, input),
        0 <= i < 32,
    ensures
        ({
            let c = e.current as int;
            let a = e.tasks[c].frame;
            let b = f.tasks[c].frame;
            let nr = a.regs@[17];
            &&& insn & 3 == 3 ==> b.mepc == a.mepc.wrapping_add(4)
            &&& insn & 3 != 3 ==> b.mepc == a.mepc.wrapping_add(2)
            &&& b.mstatus == a.mstatus
            &&& i != 10 && i != 11 ==> b.regs@[i] == a.regs@[i]
            &&& nr == 2 ==> b.regs@[10] == match input {
                Some(x) => x as int,
                None => 0xffff_ffff,
            }
            &&& nr == 3 ==> b.regs@[10] + b.regs@[11] * 0x1_0000_0000 == e.ticks
            &&& nr == 4 ==> b.regs@[10] == e.current
            &&& nr != 2 && nr != 3 && nr != 4 ==> b.regs@[10] == a.regs@[10]
            &&& nr != 3 ==> b.regs@[11] == a.regs@[11]
            &&& forall|k: int| 0 <= k < MAX_TASKS && k != c ==> #[trigger] f.tasks[k] == e.tasks[k]
            &&& f.ticks == e.ticks && f.current == e.current
        }),
{
    assert(e.tasks[e.current as int].frame.regs@.len() == 32);
}

/// A tick counts and asks for the next a hundredth of a second later; a switch
/// goes to the next task in turn that is alive, and counts it.
pub proof fn law_tick_and_switch(e: EosV)
    requires
        e.wf(),
        e.ticks < u64::MAX,
        e.next_at + 100_000 <= u64::MAX,
    ensures
        e.ticked().ticks == e.ticks + 1,
        e.ticked().next_at == e.next_at + 100_000,
        e.ticked().tasks == e.tasks,
        ({
            let c = e.current as int;
            let n = (c + 1) % 3;
            let f = e.switched();
            e.tasks[n].alive ==> f.current == n && f.tasks[n].runs == e.tasks[n].runs.wrapping_add(1) && forall|k: int|
                0 <= k < MAX_TASKS && k != n ==> #[trigger] f.tasks[k] == e.tasks[k]
        }),
{
}

} // verus!
