//! Strings a program is started with, and two small programs.
use crate::eos::text;
use crate::user::argv;
use crate::user::fmt;
use vstd::prelude::*;

verus! {

/// Longest argument that is looked at.
pub const ARG_CAP: usize = 256;

/// Longest setting of the environment that is looked at.
pub const ENV_CAP: usize = 128;

/// Most settings an environment can have.
pub const ENV_MAX: usize = 16;

/// Longest line of the counting program.
pub const LINE: usize = 96;

/// Largest count.
pub const MOST: usize = 1000;

// ---- strings ----

/// Length of a string that ends with a zero, or is cut at `cap`.
pub open spec fn str_end(s: Seq<u8>, cap: int, k: int) -> int
    decreases s.len() - k,
{
    if k < cap && k < s.len() && s[k] != 0 {
        str_end(s, cap, k + 1)
    } else {
        k
    }
}

pub open spec fn str_of(s: Seq<u8>, cap: int) -> Seq<u8> {
    s.take(str_end(s, cap, 0))
}

proof fn lemma_str_end(s: Seq<u8>, cap: int, k: int)
    requires
        0 <= k <= s.len(),
    ensures
        k <= str_end(s, cap, k) <= s.len(),
    decreases s.len() - k,
{
    if k < cap && k < s.len() && s[k] != 0 {
        lemma_str_end(s, cap, k + 1);
    }
}

fn cut(s: &Vec<u8>, cap: usize) -> (r: Vec<u8>)
    ensures
        r@ == str_of(s@, cap as int),
{
    let mut r: Vec<u8> = Vec::new();
    let mut k: usize = 0;
    while k < cap && k < s.len() && s[k] != 0
        invariant
            k <= s@.len(),
            str_end(s@, cap as int, 0) == str_end(s@, cap as int, k as int),
            r@ == s@.take(k as int),
        decreases s@.len() - k,
    {
        r.push(s[k]);
        k += 1;
        assert(r@ =~= s@.take(k as int));
    }
    r
}

/// The views of strings.
pub open spec fn texts(v: Seq<Vec<u8>>) -> Seq<Seq<u8>> {
    v.map_values(|s: Vec<u8>| s@)
}

/// Argument `i`.
pub open spec fn arg(v: Seq<Seq<u8>>, i: int) -> Option<Seq<u8>> {
    if 0 <= i < v.len() {
        Some(str_of(v[i], ARG_CAP as int))
    } else {
        None
    }
}

pub fn argv_str(argv: &Vec<Vec<u8>>, i: usize) -> (r: Option<Vec<u8>>)
    ensures
        match r {
            Some(s) => arg(texts(argv@), i as int) == Some(s@),
            None => arg(texts(argv@), i as int) is None,
        },
{
    if i >= argv.len() {
        return None;
    }
    Some(cut(&argv[i], ARG_CAP))
}

/// How many settings an environment has.
pub fn env_count(env: &Vec<Vec<u8>>) -> (n: usize)
    ensures
        n == env@.len(),
{
    env.len()
}

/// Setting `i`; none of an environment that is too large.
pub open spec fn setting(v: Seq<Seq<u8>>, i: int) -> Option<Seq<u8>> {
    if 0 <= i < v.len() && v.len() <= ENV_MAX {
        Some(str_of(v[i], ENV_CAP as int))
    } else {
        None
    }
}

pub fn env_str(env: &Vec<Vec<u8>>, i: usize) -> (r: Option<Vec<u8>>)
    ensures
        match r {
            Some(s) => setting(texts(env@), i as int) == Some(s@),
            None => setting(texts(env@), i as int) is None,
        },
{
    if i >= env.len() || env.len() > ENV_MAX {
        return None;
    }
    Some(cut(&env[i], ENV_CAP))
}

// ---- a program that repeats its arguments ----

/// The arguments from 1 up to `n`, each behind a space.
pub open spec fn spaced(v: Seq<Seq<u8>>, n: int) -> Seq<u8>
    decreases n,
{
    if n <= 1 {
        Seq::empty()
    } else {
        spaced(v, n - 1) + text::b(" ") + str_of(v[n - 1], ARG_CAP as int)
    }
}

/// One line with all arguments.
pub fn fortune(argv: &Vec<Vec<u8>>) -> (out: Vec<u8>)
    ensures
        out@ == text::b("fortune-sez") + spaced(texts(argv@), argv@.len() as int) + text::b("\n"),
{
    let mut out: Vec<u8> = Vec::new();
    text::say(&mut out, "fortune-sez");
    assert(out@ =~= text::b("fortune-sez") + spaced(texts(argv@), 1));
    let mut i: usize = 1;
    while i < argv.len()
        invariant
            1 <= i,
            i <= argv@.len() || i == 1,
            out@ == text::b("fortune-sez") + spaced(texts(argv@), i as int),
        decreases argv@.len() - i,
    {
        if let Some(s) = argv_str(argv, i) {
            text::say(&mut out, " ");
            text::say_bytes(&mut out, s.as_slice());
        }
        i += 1;
        assert(out@ =~= text::b("fortune-sez") + spaced(texts(argv@), i as int));
    }
    assert(spaced(texts(argv@), i as int) == spaced(texts(argv@), argv@.len() as int));
    text::say(&mut out, "\n");
    out
}

// ---- a program that counts ----

/// One line: number, space, word, and a line end; cut at the longest line.
pub open spec fn line(i: nat, word: Seq<u8>) -> Seq<u8> {
    let all = fmt::digits(i, 10) + text::b(" ") + word + text::b("\n");
    if all.len() <= LINE {
        all
    } else {
        all.take(LINE as int)
    }
}

/// Lines 1 to `n`.
pub open spec fn lines(n: nat, word: Seq<u8>) -> Seq<u8>
    decreases n,
{
    if n == 0 {
        Seq::empty()
    } else {
        lines((n - 1) as nat, word) + line(n, word)
    }
}

/// What a run prints, and the code it ends with.
pub open spec fn counted(v: Seq<Seq<u8>>) -> (Seq<u8>, i32) {
    if v.len() != 3 {
        (text::b("usage: repeat <n> <word>\n"), 1)
    } else {
        let word = str_of(v[2], ARG_CAP as int);
        match argv::dec_of(str_of(v[1], ARG_CAP as int)) {
            None => (text::b("repeat: bad count\n"), 1),
            Some(n) => if n > MOST || word.len() == 0 {
                (text::b("repeat: bad count\n"), 1)
            } else {
                (lines(n as nat, word), 0)
            },
        }
    }
}

fn say_line(out: &mut Vec<u8>, i: usize, word: &Vec<u8>)
    requires
        i <= MOST,
    ensures
        final(out)@ == old(out)@ + line(i as nat, word@),
{
    let mut l: Vec<u8> = Vec::new();
    text::say_num(&mut l, i as u64, 10);
    text::say(&mut l, " ");
    text::say_bytes(&mut l, word.as_slice());
    text::say(&mut l, "\n");
    assert(l@ =~= fmt::digits(i as nat, 10) + text::b(" ") + word@ + text::b("\n"));
    if l.len() > LINE {
        l.truncate(LINE);
    }
    text::say_bytes(out, l.as_slice());
}

/// Prints a word with line numbers: its arguments are how often, and the
/// word.
pub fn repeat(argv: &Vec<Vec<u8>>) -> (r: (Vec<u8>, i32))
    ensures
        (r.0@, r.1) == counted(texts(argv@)),
{
    let mut out: Vec<u8> = Vec::new();
    if argv.len() != 3 {
        text::say(&mut out, "usage: repeat <n> <word>\n");
        assert(out@ =~= text::b("usage: repeat <n> <word>\n"));
        return (out, 1);
    }
    let count = cut(&argv[1], ARG_CAP);
    let word = cut(&argv[2], ARG_CAP);
    let n: usize = match argv::parse_dec(count.as_slice()) {
        Some(n) => n,
        None => {
            text::say(&mut out, "repeat: bad count\n");
            assert(out@ =~= text::b("repeat: bad count\n"));
            return (out, 1);
        },
    };
    if n > MOST || word.len() == 0 {
        text::say(&mut out, "repeat: bad count\n");
        assert(out@ =~= text::b("repeat: bad count\n"));
        return (out, 1);
    }
    let mut i: usize = 0;
    assert(out@ =~= lines(0, word@));
    while i < n
        invariant
            i <= n,
            n <= MOST,
            out@ == lines(i as nat, word@),
        decreases n - i,
    {
        i += 1;
        say_line(&mut out, i, &word);
    }
    (out, 0)
}

} // verus!
