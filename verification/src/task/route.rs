//! Where a path leads, one component after another.
use crate::task::path;
use vstd::prelude::*;

verus! {

/// The path of these names: each behind a slash.
pub open spec fn text(names: Seq<Seq<u8>>) -> Seq<u8>
    decreases names.len(),
{
    if names.len() == 0 {
        Seq::empty()
    } else {
        text(names.drop_last()) + seq![0x2fu8] + names.last()
    }
}

/// No slash in it.
pub open spec fn unbroken(c: Seq<u8>) -> bool {
    forall|k: int| 0 <= k < c.len() ==> #[trigger] c[k] != 0x2f
}

/// A name like any other: not empty, no dot, no two dots.
pub open spec fn ordinary(c: Seq<u8>) -> bool {
    c.len() > 0 && unbroken(c) && !(c.len() == 1 && c[0] == 0x2e) && !(c.len() == 2 && c[0] == 0x2e && c[1] == 0x2e)
}

proof fn lemma_meaning(c: Seq<u8>)
    ensures
        path::noop(c) <==> c.len() == 0 || (c.len() == 1 && c[0] == 0x2e),
        path::dotdot(c) <==> c.len() == 2 && c[0] == 0x2e && c[1] == 0x2e,
{
    if c.len() == 1 && c[0] == 0x2e {
        assert(c =~= seq![0x2eu8]);
    }
    if c.len() == 2 && c[0] == 0x2e && c[1] == 0x2e {
        assert(c =~= seq![0x2eu8, 0x2eu8]);
    }
}

proof fn lemma_slash_is(s: Seq<u8>, i: int, j: int)
    requires
        0 <= i <= j <= s.len(),
        forall|k: int| i <= k < j ==> #[trigger] s[k] != 0x2f,
        j == s.len() || s[j] == 0x2f,
    ensures
        path::slash(s, i) == j,
    decreases j - i,
{
    if i < j {
        lemma_slash_is(s, i + 1, j);
    }
}

proof fn lemma_slash_at(s: Seq<u8>, i: int)
    requires
        0 <= i <= s.len(),
    ensures
        i <= path::slash(s, i) <= s.len(),
        forall|k: int| i <= k < path::slash(s, i) ==> #[trigger] s[k] != 0x2f,
        path::slash(s, i) < s.len() ==> s[path::slash(s, i)] == 0x2f,
    decreases s.len() - i,
{
    if i < s.len() && s[i] != 0x2f {
        lemma_slash_at(s, i + 1);
    }
}

/// One more component behind a slash is one more step.
proof fn lemma_one_more(parts: Seq<Seq<u8>>, a: Seq<u8>, c: Seq<u8>, i: int, base: int)
    requires
        0 <= i <= a.len(),
        unbroken(c),
    ensures
        path::walk(parts, a + seq![0x2fu8] + c, i, base) == path::step(path::walk(parts, a, i, base), c, base),
    decreases a.len() - i,
{
    let s = a + seq![0x2fu8] + c;
    let j = path::slash(a, i);
    lemma_slash_at(a, i);
    assert forall|k: int| i <= k < j implies #[trigger] s[k] != 0x2f by {
        assert(a[k] != 0x2f);
    }
    lemma_slash_is(s, i, j);
    assert(s.subrange(i, j) =~= a.subrange(i, j));
    let p = path::step(parts, a.subrange(i, j), base);
    if j < a.len() {
        lemma_one_more(p, a, c, j + 1, base);
    } else {
        let n = s.len() as int;
        assert forall|k: int| j + 1 <= k < n implies #[trigger] s[k] != 0x2f by {
            assert(c[k - j - 1] != 0x2f);
        }
        lemma_slash_is(s, j + 1, n);
        assert(s.subrange(j + 1, n) =~= c);
        assert(path::walk(p, s, j + 1, base) == path::step(p, c, base));
    }
}

proof fn lemma_single(parts: Seq<Seq<u8>>, c: Seq<u8>, base: int)
    requires
        unbroken(c),
    ensures
        path::walk(parts, c, 0, base) == path::step(parts, c, base),
{
    lemma_slash_is(c, 0, c.len() as int);
    assert(c.subrange(0, c.len() as int) =~= c);
}

/// Where a component leads from a place: nothing and a dot stay, two dots go up
/// unless at the top, a name goes down.
pub open spec fn leads(from: Seq<Seq<u8>>, c: Seq<u8>, to: Seq<Seq<u8>>, top: nat) -> bool {
    if c.len() == 0 || (c.len() == 1 && c[0] == 0x2e) {
        to == from
    } else if c.len() == 2 && c[0] == 0x2e && c[1] == 0x2e {
        if from.len() > top {
            to.len() == from.len() - 1 && to == from.take(from.len() - 1)
        } else {
            to == from
        }
    } else {
        to.len() == from.len() + 1 && to.take(from.len() as int) == from && to.last() == c
    }
}

proof fn lemma_leads(from: Seq<Seq<u8>>, c: Seq<u8>, top: nat)
    ensures
        leads(from, c, path::step(from, c, top as int), top),
{
    lemma_meaning(c);
    let to = path::step(from, c, top as int);
    if ordinary(c) || !(path::noop(c) || path::dotdot(c)) {
        assert(to.take(from.len() as int) =~= from);
    }
    if path::dotdot(c) && from.len() > top {
        assert(to =~= from.take(from.len() - 1));
    }
}

/// A component more leads one step on from where the path led.
pub proof fn law_component_follows(root: Seq<u8>, cwd: Seq<u8>, p: Seq<u8>, c: Seq<u8>)
    requires
        p.len() > 0,
        unbroken(c),
    ensures
        leads(
            path::resolved(root, cwd, p),
            c,
            path::resolved(root, cwd, p + seq![0x2fu8] + c),
            path::jail(root).len(),
        ),
{
    let top = path::jail(root);
    let q = p + seq![0x2fu8] + c;
    let a = path::below(cwd, p);
    assert(path::below(cwd, q) =~= a + seq![0x2fu8] + c);
    lemma_one_more(top, a, c, 0, top.len() as int);
    lemma_leads(path::resolved(root, cwd, p), c, top.len());
}

/// A component alone leads one step on from the working directory.
pub proof fn law_relative_starts_at_the_directory(root: Seq<u8>, cwd: Seq<u8>, c: Seq<u8>)
    requires
        cwd.len() > 0,
        cwd[0] == 0x2f,
        cwd.len() > 1 ==> cwd[1] != 0x2f,
        unbroken(c),
    ensures
        leads(path::resolved(root, cwd, cwd), c, path::resolved(root, cwd, c), path::jail(root).len()),
{
    let top = path::jail(root);
    reveal_with_fuel(path::trim, 3);
    assert(path::trim(cwd) =~= cwd.skip(1));
    lemma_one_more(top, cwd.skip(1), c, 0, top.len() as int);
    lemma_leads(path::resolved(root, cwd, cwd), c, top.len());
}

/// An absolute path starts at the jail, whatever the working directory.
pub proof fn law_absolute_starts_at_the_jail(root: Seq<u8>, cwd: Seq<u8>, c: Seq<u8>)
    requires
        unbroken(c),
    ensures
        leads(path::jail(root), c, path::resolved(root, cwd, seq![0x2fu8] + c), path::jail(root).len()),
{
    let top = path::jail(root);
    assert(path::below(cwd, seq![0x2fu8] + c) =~= c);
    lemma_single(top, c, top.len() as int);
    lemma_leads(top, c, top.len());
}

/// Names lead down from the jail, in order.
pub proof fn law_names_lead_down(root: Seq<u8>, cwd: Seq<u8>, names: Seq<Seq<u8>>)
    requires
        names.len() > 0,
        forall|k: int| 0 <= k < names.len() ==> ordinary(#[trigger] names[k]),
    ensures
        path::resolved(root, cwd, text(names)) == path::jail(root) + names,
    decreases names.len(),
{
    let top = path::jail(root);
    let c = names.last();
    let d = names.drop_last();
    assert(ordinary(names[names.len() - 1]));
    lemma_meaning(c);
    if d.len() == 0 {
        assert(text(d) =~= Seq::empty());
        assert(text(names) =~= seq![0x2fu8] + c);
        assert(path::below(cwd, seq![0x2fu8] + c) =~= c);
        lemma_single(top, c, top.len() as int);
        assert(top + names =~= top.push(c));
    } else {
        assert forall|k: int| 0 <= k < d.len() implies ordinary(#[trigger] d[k]) by {
            assert(d[k] == names[k]);
        }
        law_names_lead_down(root, cwd, d);
        let p = text(d);
        lemma_text(d);
        let a = path::below(cwd, p);
        assert(path::below(cwd, text(names)) =~= a + seq![0x2fu8] + c);
        lemma_one_more(top, a, c, 0, top.len() as int);
        assert(top + names =~= (top + d).push(c));
    }
}

proof fn lemma_text(names: Seq<Seq<u8>>)
    requires
        names.len() > 0,
    ensures
        text(names).len() > 0,
        text(names)[0] == 0x2f,
    decreases names.len(),
{
    if names.len() > 1 {
        lemma_text(names.drop_last());
    } else {
        assert(text(names.drop_last()) =~= Seq::empty());
    }
}

/// What is resolved is spelled as the names behind slashes, or a slash alone.
pub proof fn law_spelling(parts: Seq<Seq<u8>>)
    requires
        text(parts).len() <= 127,
    ensures
        parts.len() > 0 ==> path::spelled(parts) == text(parts),
        parts.len() == 0 ==> path::spelled(parts) == seq![0x2fu8],
{
    if parts.len() > 0 {
        lemma_join(parts);
    } else {
        assert(seq![0x2fu8] + path::join(parts) =~= seq![0x2fu8]);
    }
}

proof fn lemma_join(parts: Seq<Seq<u8>>)
    requires
        parts.len() > 0,
    ensures
        seq![0x2fu8] + path::join(parts) == text(parts),
    decreases parts.len(),
{
    let d = parts.drop_last();
    if d.len() == 0 {
        assert(text(d) =~= Seq::empty());
        assert(text(parts) =~= seq![0x2fu8] + parts[0]);
    } else {
        lemma_join(d);
        assert(text(parts) =~= seq![0x2fu8] + path::join(parts));
    }
}

} // verus!
