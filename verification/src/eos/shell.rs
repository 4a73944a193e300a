//! The shell: a line editor and commands.
use crate::eos::clint::{TICK_HZ, TICK_INTERVAL, TIMEBASE_HZ};
use crate::eos::task::{Eos, EosV, Task, MAX_TASKS};
use crate::eos::text;
use crate::eos::uart::UART_BASE;
use crate::user::fmt;
use vstd::prelude::*;

verus! {

// ---- line editor ----

pub const LINE: usize = 128;

pub struct Shell {
    pub buf: [u8; LINE],
    pub len: usize,
}

impl View for Shell {
    type V = Seq<u8>;

    /// The line so far.
    open spec fn view(&self) -> Seq<u8> {
        self.buf@.take(self.len as int)
    }
}

impl Shell {
    pub open spec fn wf(&self) -> bool {
        self.len <= LINE
    }

    pub fn new() -> (s: Shell)
        ensures
            s.wf(),
            s@ == Seq::<u8>::empty(),
    {
        let s = Shell { buf: [0; LINE], len: 0 };
        assert(s@ =~= Seq::empty());
        s
    }
}

/// What a key leads to: bytes to show, and a line to execute.
pub struct Key {
    pub echo: Vec<u8>,
    pub line: Option<Vec<u8>>,
}

pub open spec fn is_enter(c: u8) -> bool {
    c == 0x0d || c == 0x0a
}

pub open spec fn is_erase(c: u8) -> bool {
    c == 0x08 || c == 0x7f
}

/// The line after a key.
pub open spec fn edited(line: Seq<u8>, c: u8) -> Seq<u8> {
    if is_enter(c) {
        Seq::empty()
    } else if is_erase(c) {
        if line.len() > 0 {
            line.drop_last()
        } else {
            line
        }
    } else if 0x20 <= c < 0x7f && line.len() < LINE {
        line.push(c)
    } else {
        line
    }
}

/// What is shown for a key: an erased character is overwritten.
pub open spec fn shown(line: Seq<u8>, c: u8) -> Seq<u8> {
    if is_enter(c) {
        seq![0x0au8]
    } else if is_erase(c) {
        if line.len() > 0 {
            seq![0x08u8, 0x20u8, 0x08u8]
        } else {
            Seq::empty()
        }
    } else if 0x20 <= c < 0x7f && line.len() < LINE {
        seq![c]
    } else {
        Seq::empty()
    }
}

/// One key.
pub fn key(s: &mut Shell, c: u8) -> (k: Key)
    requires
        old(s).wf(),
    ensures
        final(s).wf(),
        final(s)@ == edited(old(s)@, c),
        k.echo@ == shown(old(s)@, c),
        match k.line {
            Some(v) => is_enter(c) && v@ == old(s)@,
            None => !is_enter(c),
        },
{
    let mut echo: Vec<u8> = Vec::new();
    if c == 0x0d || c == 0x0a {
        echo.push(0x0a);
        let mut v: Vec<u8> = Vec::new();
        let mut i: usize = 0;
        while i < s.len
            invariant
                s.wf(),
                *s == *old(s),
                i <= s.len,
                v@ == s.buf@.take(i as int),
            decreases s.len - i,
        {
            v.push(s.buf[i]);
            i += 1;
            assert(v@ =~= s.buf@.take(i as int));
        }
        s.len = 0;
        assert(s@ =~= Seq::empty());
        assert(echo@ =~= seq![0x0au8]);
        return Key { echo, line: Some(v) };
    }
    if c == 0x08 || c == 0x7f {
        if s.len > 0 {
            s.len = s.len - 1;
            echo.push(0x08);
            echo.push(0x20);
            echo.push(0x08);
            assert(s@ =~= old(s)@.drop_last());
            assert(echo@ =~= seq![0x08u8, 0x20u8, 0x08u8]);
        }
    } else if c >= 0x20 && c < 0x7f {
        if s.len < LINE {
            let i: usize = s.len;
            s.buf[i] = c;
            s.len = i + 1;
            echo.push(c);
            assert(s@ =~= old(s)@.push(c));
            assert(echo@ =~= seq![c]);
        }
    }
    assert(echo@ =~= shown(old(s)@, c));
    Key { echo, line: None }
}

// ---- words ----

pub open spec fn is_space(c: u8) -> bool {
    0x09 <= c <= 0x0d || c == 0x20
}

/// Index of the first byte from `i` on that is no space.
pub open spec fn past_spaces(s: Seq<u8>, i: int) -> int
    decreases s.len() - i,
{
    if i < s.len() && is_space(s[i]) {
        past_spaces(s, i + 1)
    } else {
        i
    }
}

/// Length without the spaces at the end, of the first `n` bytes.
pub open spec fn before_spaces(s: Seq<u8>, n: int) -> int
    decreases n,
{
    if n > 0 && is_space(s[n - 1]) {
        before_spaces(s, n - 1)
    } else {
        n
    }
}

/// Index of the first space from `i` on, or the end.
pub open spec fn word_end(s: Seq<u8>, i: int) -> int
    decreases s.len() - i,
{
    if i < s.len() && !is_space(s[i]) {
        word_end(s, i + 1)
    } else {
        i
    }
}

/// Without spaces at the start.
pub open spec fn trim_start(s: Seq<u8>) -> Seq<u8> {
    s.skip(past_spaces(s, 0))
}

/// Without spaces at either end.
pub open spec fn trim(s: Seq<u8>) -> Seq<u8> {
    let t = trim_start(s);
    t.take(before_spaces(t, t.len() as int))
}

pub open spec fn head(s: Seq<u8>) -> Seq<u8> {
    s.take(word_end(s, 0))
}

proof fn lemma_past(s: Seq<u8>, i: int)
    requires
        0 <= i <= s.len(),
    ensures
        i <= past_spaces(s, i) <= s.len(),
    decreases s.len() - i,
{
    if i < s.len() && is_space(s[i]) {
        lemma_past(s, i + 1);
    }
}

proof fn lemma_word(s: Seq<u8>, i: int)
    requires
        0 <= i <= s.len(),
    ensures
        i <= word_end(s, i) <= s.len(),
    decreases s.len() - i,
{
    if i < s.len() && !is_space(s[i]) {
        lemma_word(s, i + 1);
    }
}

fn skip_spaces<'a>(s: &'a [u8]) -> (r: &'a [u8])
    ensures
        r@ == trim_start(s@),
{
    let n: usize = s.len();
    let mut i: usize = 0;
    while i < n && (s[i] == 0x20 || (s[i] >= 0x09 && s[i] <= 0x0d))
        invariant
            n == s@.len(),
            i <= n,
            past_spaces(s@, 0) == past_spaces(s@, i as int),
        decreases n - i,
    {
        i += 1;
    }
    let r = vstd::slice::slice_subrange(s, i, n);
    assert(r@ =~= trim_start(s@));
    r
}

fn trimmed<'a>(s: &'a [u8]) -> (r: &'a [u8])
    ensures
        r@ == trim(s@),
{
    let t = skip_spaces(s);
    let mut n: usize = t.len();
    let ghost n0 = n as int;
    while n > 0 && (t[n - 1] == 0x20 || (t[n - 1] >= 0x09 && t[n - 1] <= 0x0d))
        invariant
            n <= t@.len(),
            n0 == t@.len(),
            before_spaces(t@, n0) == before_spaces(t@, n as int),
        decreases n,
    {
        n -= 1;
    }
    let r = vstd::slice::slice_subrange(t, 0, n);
    assert(r@ =~= trim(s@));
    r
}

fn first_word<'a>(s: &'a [u8]) -> (r: &'a [u8])
    ensures
        r@ == head(s@),
{
    let n: usize = s.len();
    let mut i: usize = 0;
    while i < n && !(s[i] == 0x20 || (s[i] >= 0x09 && s[i] <= 0x0d))
        invariant
            n == s@.len(),
            i <= n,
            word_end(s@, 0) == word_end(s@, i as int),
        decreases n - i,
    {
        i += 1;
    }
    let r = vstd::slice::slice_subrange(s, 0, i);
    assert(r@ =~= head(s@));
    r
}

// ---- commands ----

pub const HELP: &'static str = "commands:\n  help            - this list\n  info            - hart / build / memory map\n  ps              - task list\n  ticks           - timer ticks + uptime\n  echo <text>     - print text\n  yield           - voluntarily yield CPU\n  whoami          - current task id\n  timer           - raw mtime / mtimecmp\n  fault           - trigger illegal-insn trap (halts)\n  poweroff        - exit QEMU (SiFive test device)\n  clear           - clear screen\n";

/// What to do between the two texts of a command.
#[derive(Clone, Copy, PartialEq, Eq, Structural, Debug)]
pub enum Do {
    Nothing,
    Yield,
    /// Execute an illegal instruction.
    Fault,
    /// Turn the machine off.
    PowerOff,
}

/// What a command shows, what it does, and what it shows after that.
pub struct Reply {
    pub text: Vec<u8>,
    pub act: Do,
    pub after: Vec<u8>,
}

#[verifier::ext_equal]
pub struct ReplyV {
    pub text: Seq<u8>,
    pub act: Do,
    pub after: Seq<u8>,
}

impl View for Reply {
    type V = ReplyV;

    open spec fn view(&self) -> ReplyV {
        ReplyV { text: self.text@, act: self.act, after: self.after@ }
    }
}

/// Start and end of a part of memory.
#[derive(Clone, Copy, PartialEq, Eq, Structural, Debug)]
pub struct Area {
    pub lo: u32,
    pub hi: u32,
}

/// What the commands report of the machine.
#[derive(Clone, Copy, PartialEq, Eq, Structural, Debug)]
pub struct Machine {
    pub hart: u32,
    pub code: Area,
    pub rodata: Area,
    pub data: Area,
    pub bss: Area,
    pub boot_stack: Area,
    /// The timer's count, and the count it interrupts at.
    pub time: u64,
    pub alarm: u64,
}

pub open spec fn area_line(name: &str, a: Area) -> Seq<u8> {
    text::b(name) + text::addr(a.lo) + text::b("..") + text::addr(a.hi) + text::b("\n")
}

fn say_area(out: &mut Vec<u8>, name: &str, a: Area)
    ensures
        final(out)@ == old(out)@ + area_line(name, a),
{
    text::say(out, name);
    text::say_addr(out, a.lo);
    text::say(out, "..");
    text::say_addr(out, a.hi);
    text::say(out, "\n");
    assert(out@ =~= old(out)@ + area_line(name, a));
}

pub open spec fn hart_line(m: Machine) -> Seq<u8> {
    text::b("embed-os 0.1.0 rv32imac, hart=") + text::dec(m.hart as int) + text::b("\n")
}

pub open spec fn area_lines(m: Machine) -> Seq<u8> {
    area_line("  .text   ", m.code) + area_line("  .rodata ", m.rodata) + area_line(
        "  .data   ",
        m.data,
    ) + area_line("  .bss    ", m.bss) + area_line("  bootstk ", m.boot_stack)
}

pub open spec fn clock_line() -> Seq<u8> {
    text::b("  timebase ") + text::dec(TIMEBASE_HZ as int) + text::b(" Hz, tick ") + text::dec(
        TICK_HZ as int,
    ) + text::b(" Hz (") + text::dec(TICK_INTERVAL as int) + text::b(" cycles)\n")
}

pub open spec fn console_line() -> Seq<u8> {
    text::b("  console uart=0x") + fmt::digits(UART_BASE as nat, 16) + text::b(
        " (ns16550a, polling)\n",
    )
}

pub open spec fn info_text(m: Machine) -> Seq<u8> {
    hart_line(m) + area_lines(m) + clock_line() + console_line()
}

fn say_hart(out: &mut Vec<u8>, m: &Machine)
    ensures
        final(out)@ == old(out)@ + hart_line(*m),
{
    text::say(out, "embed-os 0.1.0 rv32imac, hart=");
    text::say_dec(out, m.hart as u64);
    text::say(out, "\n");
    assert(out@ =~= old(out)@ + hart_line(*m));
}

fn say_areas(out: &mut Vec<u8>, m: &Machine)
    ensures
        final(out)@ == old(out)@ + area_lines(*m),
{
    say_area(out, "  .text   ", m.code);
    say_area(out, "  .rodata ", m.rodata);
    say_area(out, "  .data   ", m.data);
    say_area(out, "  .bss    ", m.bss);
    say_area(out, "  bootstk ", m.boot_stack);
    assert(out@ =~= old(out)@ + area_lines(*m));
}

fn say_clock(out: &mut Vec<u8>)
    ensures
        final(out)@ == old(out)@ + clock_line(),
{
    text::say(out, "  timebase ");
    text::say_dec(out, TIMEBASE_HZ);
    text::say(out, " Hz, tick ");
    text::say_dec(out, TICK_HZ);
    text::say(out, " Hz (");
    text::say_dec(out, TICK_INTERVAL);
    text::say(out, " cycles)\n");
    assert(out@ =~= old(out)@ + clock_line());
}

fn say_console(out: &mut Vec<u8>)
    ensures
        final(out)@ == old(out)@ + console_line(),
{
    text::say(out, "  console uart=0x");
    text::say_num(out, UART_BASE as u64, 16);
    text::say(out, " (ns16550a, polling)\n");
    assert(out@ =~= old(out)@ + console_line());
}

fn say_info(out: &mut Vec<u8>, m: &Machine)
    ensures
        final(out)@ == old(out)@ + info_text(*m),
{
    say_hart(out, m);
    say_areas(out, m);
    say_clock(out);
    say_console(out);
    assert(out@ =~= old(out)@ + info_text(*m));
}

/// Number and name of a task, the current one marked.
pub open spec fn task_name(e: EosV, i: int) -> Seq<u8> {
    let t = e.tasks[i];
    text::b(
        if i == e.current {
            "*"
        } else {
            " "
        },
    ) + text::dec(i) + text::b("  ") + text::b(t.name) + text::padding(
        text::b(t.name).len() as int,
        6,
    )
}

/// Whether a task is alive, and how often it was switched to.
pub open spec fn task_state(t: Task) -> Seq<u8> {
    text::b(" ") + text::dec(
        if t.alive {
            1
        } else {
            0
        },
    ) + text::b("      ") + text::dec(t.runs as int) + text::b("\n")
}

pub open spec fn task_line(e: EosV, i: int) -> Seq<u8> {
    task_name(e, i) + task_state(e.tasks[i])
}

pub open spec fn ps_text(e: EosV) -> Seq<u8> {
    text::b("id  name   alive  runs\n") + task_line(e, 0) + task_line(e, 1) + task_line(e, 2)
}

#[verifier::spinoff_prover]
fn say_task_name(out: &mut Vec<u8>, e: &Eos, i: usize)
    requires
        i < MAX_TASKS,
    ensures
        final(out)@ == old(out)@ + task_name(e@, i as int),
{
    text::say(
        out,
        if i == e.current {
            "*"
        } else {
            " "
        },
    );
    text::say_dec(out, i as u64);
    text::say(out, "  ");
    text::say_padded(out, e.tasks[i].name, 6);
    assert(out@ =~= old(out)@ + task_name(e@, i as int));
}

#[verifier::spinoff_prover]
fn say_task_state(out: &mut Vec<u8>, t: &Task)
    ensures
        final(out)@ == old(out)@ + task_state(*t),
{
    text::say(out, " ");
    text::say_dec(
        out,
        if t.alive {
            1
        } else {
            0
        },
    );
    text::say(out, "      ");
    text::say_dec(out, t.runs as u64);
    text::say(out, "\n");
    assert(out@ =~= old(out)@ + task_state(*t));
}

fn say_task(out: &mut Vec<u8>, e: &Eos, i: usize)
    requires
        i < MAX_TASKS,
    ensures
        final(out)@ == old(out)@ + task_line(e@, i as int),
{
    say_task_name(out, e, i);
    let t = e.tasks[i];
    say_task_state(out, &t);
    assert(out@ =~= old(out)@ + task_line(e@, i as int));
}

pub open spec fn ticks_text(t: u64) -> Seq<u8> {
    text::b("ticks=") + text::dec(t as int) + text::b(" uptime=") + text::dec(t as int / 100) + text::b(".")
        + text::two(t as int % 100) + text::b("s\n")
}

fn say_ticks(out: &mut Vec<u8>, t: u64)
    ensures
        final(out)@ == old(out)@ + ticks_text(t),
{
    text::say(out, "ticks=");
    text::say_dec(out, t);
    text::say(out, " uptime=");
    text::say_dec(out, t / 100);
    text::say(out, ".");
    text::say_two(out, t % 100);
    text::say(out, "s\n");
    assert(out@ =~= old(out)@ + ticks_text(t));
}

pub open spec fn timer_text(m: Machine, t: u64) -> Seq<u8> {
    text::b("mtime=") + text::dec(m.time as int) + text::b(" mtimecmp=") + text::dec(m.alarm as int)
        + text::b(" ticks=") + text::dec(t as int) + text::b("\n")
}

fn say_timer(out: &mut Vec<u8>, m: &Machine, t: u64)
    ensures
        final(out)@ == old(out)@ + timer_text(*m, t),
{
    text::say(out, "mtime=");
    text::say_dec(out, m.time);
    text::say(out, " mtimecmp=");
    text::say_dec(out, m.alarm);
    text::say(out, " ticks=");
    text::say_dec(out, t);
    text::say(out, "\n");
    assert(out@ =~= old(out)@ + timer_text(*m, t));
}

/// The command itself.
pub open spec fn answered(e: EosV, m: Machine, line: Seq<u8>) -> ReplyV {
    let cmd = trim(line);
    let h = head(cmd);
    let only = |t: Seq<u8>| ReplyV { text: t, act: Do::Nothing, after: Seq::empty() };
    if cmd.len() == 0 {
        only(Seq::empty())
    } else if h == text::b("help") {
        only(text::b(HELP))
    } else if h == text::b("info") {
        only(info_text(m))
    } else if h == text::b("ps") {
        only(ps_text(e))
    } else if h == text::b("ticks") {
        only(ticks_text(e.ticks))
    } else if h == text::b("echo") {
        only(trim_start(cmd.skip(h.len() as int)) + text::b("\n"))
    } else if h == text::b("yield") {
        ReplyV {
            text: Seq::empty(),
            act: Do::Yield,
            after: text::b("yielded (task ") + text::dec(e.current as int) + text::b(")\n"),
        }
    } else if h == text::b("whoami") {
        only(text::b("task ") + text::dec(e.current as int) + text::b("\n"))
    } else if h == text::b("timer") {
        only(timer_text(m, e.ticks))
    } else if h == text::b("fault") {
        ReplyV {
            text: text::b("triggering illegal instruction...\n"),
            act: Do::Fault,
            after: text::b("unreachable\n"),
        }
    } else if h == text::b("poweroff") {
        ReplyV {
            text: text::b("poweroff via SiFive test device...\n"),
            act: Do::PowerOff,
            after: Seq::empty(),
        }
    } else if h == text::b("clear") {
        only(text::b("\x1b[2J\x1b[H"))
    } else {
        only(text::b("unknown cmd: \"") + h + text::b("\" (try help)\n"))
    }
}

/// Executes a line: spaces around it do not count, its first word is the
/// command.
pub fn exec_line(e: &Eos, m: &Machine, line: &[u8]) -> (r: Reply)
    requires
        e@.wf(),
        forall|i: int| 0 <= i < line@.len() ==> #[trigger] line@[i] < 0x80,
    ensures
        r@ == answered(e@, *m, line@),
{
    let mut out: Vec<u8> = Vec::new();
    let mut after: Vec<u8> = Vec::new();
    let mut act = Do::Nothing;
    let cmd = trimmed(line);
    let h = first_word(cmd);
    let n: usize = cmd.len();
    if n == 0 {
    } else if text::is_text(h, "help") {
        text::say(&mut out, HELP);
    } else if text::is_text(h, "info") {
        say_info(&mut out, m);
    } else if text::is_text(h, "ps") {
        text::say(&mut out, "id  name   alive  runs\n");
        say_task(&mut out, e, 0);
        say_task(&mut out, e, 1);
        say_task(&mut out, e, 2);
    } else if text::is_text(h, "ticks") {
        say_ticks(&mut out, e.ticks);
    } else if text::is_text(h, "echo") {
        proof {
            lemma_word(cmd@, 0);
        }
        let rest = vstd::slice::slice_subrange(cmd, h.len(), n);
        assert(rest@ =~= cmd@.skip(h@.len() as int));
        text::say_bytes(&mut out, skip_spaces(rest));
        text::say(&mut out, "\n");
    } else if text::is_text(h, "yield") {
        act = Do::Yield;
        text::say(&mut after, "yielded (task ");
        text::say_dec(&mut after, e.current as u64);
        text::say(&mut after, ")\n");
    } else if text::is_text(h, "whoami") {
        text::say(&mut out, "task ");
        text::say_dec(&mut out, e.current as u64);
        text::say(&mut out, "\n");
    } else if text::is_text(h, "timer") {
        say_timer(&mut out, m, e.ticks);
    } else if text::is_text(h, "fault") {
        text::say(&mut out, "triggering illegal instruction...\n");
        act = Do::Fault;
        text::say(&mut after, "unreachable\n");
    } else if text::is_text(h, "poweroff") {
        text::say(&mut out, "poweroff via SiFive test device...\n");
        act = Do::PowerOff;
    } else if text::is_text(h, "clear") {
        text::say(&mut out, "\x1b[2J\x1b[H");
    } else {
        text::say(&mut out, "unknown cmd: \"");
        text::say_bytes(&mut out, h);
        text::say(&mut out, "\" (try help)\n");
    }
    let r = Reply { text: out, act, after };
    assert(r@ =~= answered(e@, *m, line@));
    r
}

/// Typing printable characters that fit and then Enter executes what was
/// typed; an erased character is as if it had not been typed.
pub proof fn law_typed_then_erased(line: Seq<u8>, c: u8)
    requires
        line.len() < LINE,
        0x20 <= c < 0x7f,
    ensures
        edited(edited(line, c), 0x7f) == line,
        edited(edited(line, c), 0x08) == line,
{
    assert(line.push(c).drop_last() =~= line);
}

} // verus!
