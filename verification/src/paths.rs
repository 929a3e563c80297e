//! Paths as text, compared the way `std::path::Path` compares them: by their
//! components. A path's key writes its components in a normal form, so two
//! paths are the same path exactly when their keys are equal.

use vstd::prelude::*;
use crate::text::{push_char, push_str, str_chars, string_from_chars};

verus! {

/// The segments of `s` between slashes: `n` slashes give `n + 1` segments.
pub open spec fn segments(s: Seq<char>) -> Seq<Seq<char>>
    decreases s.len(),
{
    if s.len() == 0 {
        seq![Seq::empty()]
    } else {
        let r = segments(s.drop_last());
        if s.last() == '/' {
            r.push(Seq::empty())
        } else {
            r.update(r.len() - 1, r.last().push(s.last()))
        }
    }
}

/// Whether a segment names a component: neither empty nor `.`.
pub open spec fn is_part(seg: Seq<char>) -> bool {
    seg.len() > 0 && seg != seq!['.']
}

/// The segments that name components, in order.
pub open spec fn kept_parts(segs: Seq<Seq<char>>) -> Seq<Seq<char>>
    decreases segs.len(),
{
    if segs.len() == 0 {
        Seq::empty()
    } else {
        let r = kept_parts(segs.drop_last());
        if is_part(segs.last()) {
            r.push(segs.last())
        } else {
            r
        }
    }
}

/// The named components of a path (`.` and empty segments dropped).
pub open spec fn parts(s: Seq<char>) -> Seq<Seq<char>> {
    kept_parts(segments(s))
}

/// Components joined by slashes.
pub open spec fn join_parts(ps: Seq<Seq<char>>) -> Seq<char>
    decreases ps.len(),
{
    if ps.len() == 0 {
        Seq::empty()
    } else if ps.len() == 1 {
        ps[0]
    } else {
        join_parts(ps.drop_last()) + seq!['/'] + ps.last()
    }
}

/// Whether the path is rooted (starts with `/`).
pub open spec fn is_rooted(s: Seq<char>) -> bool {
    s.len() > 0 && s[0] == '/'
}

/// Whether the path starts with the current directory `.` as a component.
pub open spec fn starts_at_cur_dir(s: Seq<char>) -> bool {
    s == seq!['.'] || (s.len() >= 2 && s[0] == '.' && s[1] == '/')
}

/// The normal form of a path: a leading `/` or `.` component where the path
/// has one, then its named components joined by single slashes.
pub open spec fn path_key(s: Seq<char>) -> Seq<char> {
    if is_rooted(s) {
        seq!['/'] + join_parts(parts(s))
    } else if starts_at_cur_dir(s) {
        if parts(s).len() == 0 {
            seq!['.']
        } else {
            seq!['.', '/'] + join_parts(parts(s))
        }
    } else {
        join_parts(parts(s))
    }
}

/// A path has at least one segment.
proof fn lemma_segments_nonempty(s: Seq<char>)
    ensures
        segments(s).len() >= 1,
    decreases s.len(),
{
    if s.len() > 0 {
        lemma_segments_nonempty(s.drop_last());
    }
}

/// The segments of `a/b` are those of `a`, then those of `b`.
proof fn lemma_segments_concat(a: Seq<char>, b: Seq<char>)
    ensures
        segments(a + seq!['/'] + b) == segments(a) + segments(b),
    decreases b.len(),
{
    let x = a + seq!['/'] + b;
    if b.len() == 0 {
        assert(x.drop_last() =~= a);
        assert(segments(a) + segments(b) =~= segments(a).push(Seq::empty()));
    } else {
        let bd = b.drop_last();
        assert(x.drop_last() =~= a + seq!['/'] + bd);
        lemma_segments_concat(a, bd);
        lemma_segments_nonempty(bd);
        let sa = segments(a);
        let sb = segments(bd);
        if b.last() == '/' {
            assert(sa + segments(b) =~= (sa + sb).push(Seq::empty()));
        } else {
            let r = sa + sb;
            assert(r.last() == sb.last());
            assert(sa + segments(b) =~= r.update(r.len() - 1, r.last().push(b.last())));
        }
    }
}

/// The named components among two runs of segments are those of the first,
/// then those of the second.
proof fn lemma_kept_parts_concat(s1: Seq<Seq<char>>, s2: Seq<Seq<char>>)
    ensures
        kept_parts(s1 + s2) == kept_parts(s1) + kept_parts(s2),
    decreases s2.len(),
{
    if s2.len() == 0 {
        assert(s1 + s2 =~= s1);
        assert(kept_parts(s1) + kept_parts(s2) =~= kept_parts(s1));
    } else {
        assert((s1 + s2).drop_last() =~= s1 + s2.drop_last());
        assert((s1 + s2).last() == s2.last());
        lemma_kept_parts_concat(s1, s2.drop_last());
        if is_part(s2.last()) {
            assert(kept_parts(s1) + kept_parts(s2) =~= (kept_parts(s1) + kept_parts(s2.drop_last())).push(
                s2.last(),
            ));
        }
    }
}

/// The named components of `a/b` are those of `a`, then those of `b`.
proof fn lemma_parts_concat(a: Seq<char>, b: Seq<char>)
    ensures
        parts(a + seq!['/'] + b) == parts(a) + parts(b),
{
    lemma_segments_concat(a, b);
    lemma_kept_parts_concat(segments(a), segments(b));
}

/// Paths are the same path however their components are separated: putting
/// a `.` component between two parts, doubling the slash between them, or
/// (after a non-empty path) adding a trailing slash leaves the key unchanged.
pub proof fn lemma_key_ignores_separators(a: Seq<char>, b: Seq<char>)
    ensures
        path_key(a + seq!['/', '.', '/'] + b) == path_key(a + seq!['/'] + b),
        path_key(a + seq!['/', '/'] + b) == path_key(a + seq!['/'] + b),
        a.len() > 0 ==> path_key(a + seq!['/']) == path_key(a),
{
    let s1 = a + seq!['/'] + b;
    let s2 = a + seq!['/', '.', '/'] + b;
    let s3 = a + seq!['/', '/'] + b;
    let dot_b = seq!['.', '/'] + b;
    let slash_b = seq!['/'] + b;
    assert(s2 =~= a + seq!['/'] + dot_b);
    assert(s3 =~= a + seq!['/'] + slash_b);
    assert(dot_b =~= seq!['.'] + seq!['/'] + b);
    assert(slash_b =~= Seq::<char>::empty() + seq!['/'] + b);
    lemma_parts_concat(a, b);
    lemma_parts_concat(a, dot_b);
    lemma_parts_concat(a, slash_b);
    lemma_parts_concat(seq!['.'], b);
    lemma_parts_concat(Seq::<char>::empty(), b);
    reveal_with_fuel(segments, 2);
    reveal_with_fuel(kept_parts, 2);
    assert(seq!['.'].drop_last() =~= Seq::<char>::empty());
    assert(segments(seq!['.']) =~= seq![seq!['.']]);
    assert(parts(seq!['.']) =~= Seq::<Seq<char>>::empty());
    assert(parts(Seq::<char>::empty()) =~= Seq::<Seq<char>>::empty());
    assert(parts(s2) =~= parts(s1));
    assert(parts(s3) =~= parts(s1));
    if a.len() > 0 {
        assert(s2[0] == a[0] && s3[0] == a[0] && s1[0] == a[0]);
        if a.len() >= 2 {
            assert(s2[1] == a[1] && s3[1] == a[1] && s1[1] == a[1]);
        } else {
            assert(s2[1] == '/' && s3[1] == '/' && s1[1] == '/');
        }
        let t = a + seq!['/'];
        assert(t =~= a + seq!['/'] + Seq::<char>::empty());
        lemma_parts_concat(a, Seq::<char>::empty());
        assert(parts(t) =~= parts(a));
        assert(t[0] == a[0]);
        if a.len() >= 2 {
            assert(t[1] == a[1]);
            assert(a != seq!['.'] && t != seq!['.']);
        } else {
            assert(t[1] == '/');
            assert(t != seq!['.']);
            if a[0] == '.' {
                assert(a =~= seq!['.']);
            }
        }
        assert(is_rooted(t) == is_rooted(a));
        assert(starts_at_cur_dir(t) == starts_at_cur_dir(a));
    } else {
        assert(s1[0] == '/' && s2[0] == '/' && s3[0] == '/');
    }
}

/// Appends `seg` to `out`.
fn push_chars(out: &mut String, seg: &Vec<char>)
    ensures
        final(out)@ == old(out)@ + seg@,
{
    let mut i: usize = 0;
    while i < seg.len()
        invariant
            i <= seg@.len(),
            out@ == old(out)@ + seg@.subrange(0, i as int),
        decreases seg@.len() - i,
    {
        push_char(out, seg[i]);
        assert(seg@.subrange(0, i + 1) =~= seg@.subrange(0, i as int).push(seg@[i as int]));
        i = i + 1;
    }
    assert(seg@.subrange(0, seg@.len() as int) =~= seg@);
}

/// Whether a segment names a component.
fn is_part_exec(seg: &Vec<char>) -> (b: bool)
    ensures
        b == is_part(seg@),
{
    if seg.len() == 0 {
        false
    } else if seg.len() == 1 && seg[0] == '.' {
        assert(seg@ =~= seq!['.']);
        false
    } else {
        assert(seg@.len() != 1 ==> seg@ != seq!['.']);
        assert(seg@.len() == 1 ==> seg@[0] != '.');
        true
    }
}

/// The named components of `s`.
fn path_parts(cs: &Vec<char>) -> (ps: Vec<Vec<char>>)
    ensures
        ps@.len() == parts(cs@).len(),
        forall|i: int| 0 <= i < ps@.len() ==> #[trigger] ps@[i]@ == parts(cs@)[i],
{
    let mut ps: Vec<Vec<char>> = Vec::new();
    let mut cur: Vec<char> = Vec::new();
    let mut i: usize = 0;
    // The segments of the prefix read so far are the finished ones, then `cur`.
    let ghost mut done: Seq<Seq<char>> = Seq::empty();
    while i < cs.len()
        invariant
            i <= cs@.len(),
            segments(cs@.subrange(0, i as int)) == done.push(cur@),
            ps@.len() == kept_parts(done).len(),
            forall|j: int| 0 <= j < ps@.len() ==> #[trigger] ps@[j]@ == kept_parts(done)[j],
        decreases cs@.len() - i,
    {
        let c: char = cs[i];
        assert(cs@.subrange(0, i + 1).drop_last() =~= cs@.subrange(0, i as int));
        if c == '/' {
            let keep = is_part_exec(&cur);
            proof {
                assert(kept_parts(done.push(cur@)).len() == kept_parts(done).len() + if keep { 1int } else { 0int }) by {
                    assert(done.push(cur@).drop_last() =~= done);
                }
                assert(done.push(cur@).drop_last() =~= done);
                done = done.push(cur@);
            }
            if keep {
                let mut fresh: Vec<char> = Vec::new();
                std::mem::swap(&mut fresh, &mut cur);
                ps.push(fresh);
            } else {
                cur = Vec::new();
            }
            assert(cur@ =~= Seq::<char>::empty());
        } else {
            let ghost before = cur@;
            cur.push(c);
            proof {
                assert(done.push(before).update(done.len() as int, before.push(c)) =~= done.push(cur@));
            }
        }
        i = i + 1;
    }
    assert(cs@.subrange(0, cs@.len() as int) =~= cs@);
    let keep = is_part_exec(&cur);
    proof {
        assert(done.push(cur@).drop_last() =~= done);
    }
    if keep {
        ps.push(cur);
    }
    ps
}

/// Appends the components `ps` joined by slashes.
fn push_joined(k: &mut String, ps: &Vec<Vec<char>>, expected: Ghost<Seq<Seq<char>>>)
    requires
        ps@.len() == expected@.len(),
        forall|j: int| 0 <= j < ps@.len() ==> #[trigger] ps@[j]@ == expected@[j],
    ensures
        final(k)@ == old(k)@ + join_parts(expected@),
{
    let ghost prefix = k@;
    let ghost p = expected@;
    let mut i: usize = 0;
    while i < ps.len()
        invariant
            i <= ps@.len(),
            ps@.len() == p.len(),
            forall|j: int| 0 <= j < ps@.len() ==> #[trigger] ps@[j]@ == p[j],
            k@ == prefix + join_parts(p.subrange(0, i as int)),
        decreases ps@.len() - i,
    {
        if i > 0 {
            push_char(k, '/');
        }
        push_chars(k, &ps[i]);
        proof {
            assert(p.subrange(0, i + 1).drop_last() =~= p.subrange(0, i as int));
            if i == 0 {
                assert(k@ =~= prefix + join_parts(p.subrange(0, 1)));
            } else {
                assert(k@ =~= prefix + join_parts(p.subrange(0, i + 1)));
            }
        }
        i = i + 1;
    }
    assert(p.subrange(0, ps@.len() as int) =~= p);
}

/// Whether `cs` starts with the current directory, and is not rooted.
fn cur_dir_start(cs: &Vec<char>) -> (b: bool)
    ensures
        b == (!is_rooted(cs@) && starts_at_cur_dir(cs@)),
{
    let b = (cs.len() == 1 && cs[0] == '.') || (cs.len() >= 2 && cs[0] == '.' && cs[1] == '/');
    proof {
        if cs@.len() == 1 && cs@[0] == '.' {
            assert(cs@ =~= seq!['.']);
        }
    }
    b
}

/// The normal form of the path `s`: two paths are the same path exactly when
/// their keys are equal.
pub fn normalize_path(s: &str) -> (k: String)
    ensures
        k@ == path_key(s@),
{
    let cs = str_chars(s);
    let ps = path_parts(&cs);
    let mut k = String::new();
    let rooted = cs.len() > 0 && cs[0] == '/';
    let cur_dir = cur_dir_start(&cs);
    if rooted {
        push_char(&mut k, '/');
    } else if cur_dir {
        push_char(&mut k, '.');
        if ps.len() > 0 {
            push_char(&mut k, '/');
        }
    }
    push_joined(&mut k, &ps, Ghost(parts(cs@)));
    k
}

/// The key a path is looked up by once a leading `./` is stripped from it.
pub open spec fn lookup_key(s: Seq<char>) -> Seq<char> {
    if !is_rooted(s) && starts_at_cur_dir(s) {
        join_parts(parts(s))
    } else {
        path_key(s)
    }
}

/// The key of `s` with a leading `./` stripped.
pub fn strip_cur_dir_key(s: &str) -> (k: String)
    ensures
        k@ == lookup_key(s@),
{
    let cs = str_chars(s);
    if cur_dir_start(&cs) {
        let ps = path_parts(&cs);
        let mut k = String::new();
        push_joined(&mut k, &ps, Ghost(parts(cs@)));
        k
    } else {
        normalize_path(s)
    }
}


/// The components of a path as `std::path::Path` lists them: the root `/` or a
/// leading `.` where the path has one, then its named components.
pub open spec fn components(s: Seq<char>) -> Seq<Seq<char>> {
    if is_rooted(s) {
        seq![seq!['/']] + parts(s)
    } else if starts_at_cur_dir(s) {
        seq![seq!['.']] + parts(s)
    } else {
        parts(s)
    }
}

/// Whether the path `p` starts with the path `base`, component by component.
pub open spec fn path_starts_with(p: Seq<char>, base: Seq<char>) -> bool {
    components(base).len() <= components(p).len() && components(p).subrange(
        0,
        components(base).len() as int,
    ) == components(base)
}

/// Whether two component lists agree on their first `n` components.
fn same_parts(a: &Vec<Vec<char>>, b: &Vec<Vec<char>>, n: usize) -> (r: bool)
    requires
        n <= a@.len(),
        n <= b@.len(),
    ensures
        r == (forall|i: int| 0 <= i < n ==> #[trigger] a@[i]@ == b@[i]@),
{
    let mut i: usize = 0;
    while i < n
        invariant
            n <= a@.len(),
            n <= b@.len(),
            i <= n,
            forall|j: int| 0 <= j < i ==> #[trigger] a@[j]@ == b@[j]@,
        decreases n - i,
    {
        let x = &a[i];
        let y = &b[i];
        if x.len() != y.len() {
            return false;
        }
        let mut t: usize = 0;
        while t < x.len()
            invariant
                x@.len() == y@.len(),
                t <= x@.len(),
                forall|u: int| 0 <= u < t ==> x@[u] == y@[u],
                i < n,
                n <= a@.len(),
                n <= b@.len(),
                *x == a@[i as int],
                *y == b@[i as int],
                forall|j: int| 0 <= j < i ==> #[trigger] a@[j]@ == b@[j]@,
            decreases x@.len() - t,
        {
            if x[t] != y[t] {
                assert(a@[i as int]@[t as int] != b@[i as int]@[t as int]);
                return false;
            }
            t = t + 1;
        }
        assert(x@ =~= y@);
        i = i + 1;
    }
    true
}

/// The components of `cs`, as `components` lists them.
fn path_components(cs: &Vec<char>) -> (v: Vec<Vec<char>>)
    ensures
        v@.len() == components(cs@).len(),
        forall|i: int| 0 <= i < v@.len() ==> #[trigger] v@[i]@ == components(cs@)[i],
{
    let ps = path_parts(cs);
    let mut v: Vec<Vec<char>> = Vec::new();
    let ghost first: Seq<Seq<char>> = Seq::empty();
    if cs.len() > 0 && cs[0] == '/' {
        v.push(vec!['/']);
        proof {
            first = seq![seq!['/']];
        }
    } else if cur_dir_start(cs) {
        v.push(vec!['.']);
        proof {
            first = seq![seq!['.']];
        }
    }
    assert(components(cs@) == first + parts(cs@));
    let ghost off = v@.len();
    let mut i: usize = 0;
    while i < ps.len()
        invariant
            i <= ps@.len(),
            ps@.len() == parts(cs@).len(),
            forall|j: int| 0 <= j < ps@.len() ==> #[trigger] ps@[j]@ == parts(cs@)[j],
            components(cs@) == first + parts(cs@),
            off == first.len(),
            v@.len() == off + i,
            forall|j: int| 0 <= j < v@.len() ==> #[trigger] v@[j]@ == components(cs@)[j],
        decreases ps@.len() - i,
    {
        let mut seg: Vec<char> = Vec::new();
        let src = &ps[i];
        let mut t: usize = 0;
        while t < src.len()
            invariant
                t <= src@.len(),
                seg@ == src@.subrange(0, t as int),
            decreases src@.len() - t,
        {
            seg.push(src[t]);
            assert(src@.subrange(0, t + 1) =~= src@.subrange(0, t as int).push(src@[t as int]));
            t = t + 1;
        }
        assert(src@.subrange(0, src@.len() as int) =~= src@);
        v.push(seg);
        i = i + 1;
    }
    v
}

/// Whether `p` starts with `base`, component by component, as
/// `std::path::Path::starts_with` decides it.
pub fn starts_with_path(p: &str, base: &str) -> (r: bool)
    ensures
        r == path_starts_with(p@, base@),
{
    let pc = str_chars(p);
    let bc = str_chars(base);
    let pv = path_components(&pc);
    let bv = path_components(&bc);
    let ghost pcs = components(p@);
    let ghost bcs = components(base@);
    if bv.len() > pv.len() {
        return false;
    }
    let r = same_parts(&pv, &bv, bv.len());
    proof {
        if r {
            assert(pcs.subrange(0, bcs.len() as int) =~= bcs) by {
                assert forall|i: int| 0 <= i < bcs.len() implies pcs.subrange(0, bcs.len() as int)[i]
                    == bcs[i] by {
                    assert(pv@[i]@ == bv@[i]@);
                }
            }
        } else {
            let j = choose|j: int| 0 <= j < bv@.len() && !(pv@[j]@ == bv@[j]@);
            if pcs.subrange(0, bcs.len() as int) == bcs {
                assert(pcs.subrange(0, bcs.len() as int)[j] == bcs[j]);
            }
        }
    }
    r
}

/// Where the body of a path starts: after its root `/` or leading `.`.
pub open spec fn body_start(s: Seq<char>) -> int {
    if is_rooted(s) || starts_at_cur_dir(s) {
        1
    } else {
        0
    }
}

/// The path `s` with its trailing separators and trailing `.` components
/// removed, the part before `start` kept.
pub open spec fn trim_end_from(s: Seq<char>, start: int) -> Seq<char>
    decreases s.len(),
{
    if start < 0 || s.len() <= start {
        s
    } else if s.last() == '/' {
        trim_end_from(s.drop_last(), start)
    } else if s.last() == '.' && s.len() - 1 == start {
        trim_end_from(s.drop_last(), start)
    } else if s.last() == '.' && s[s.len() - 2] == '/' {
        trim_end_from(s.subrange(0, s.len() - 2), start)
    } else {
        s
    }
}

/// The path as `std::path::Path::iter().as_path()` gives it back: trailing
/// separators and `.` components removed.
pub open spec fn trimmed_path(s: Seq<char>) -> Seq<char> {
    trim_end_from(s, body_start(s))
}

/// The path with its trailing separators and `.` components removed.
pub fn trim_path(s: &str) -> (t: String)
    ensures
        t@ == trimmed_path(s@),
{
    let cs = str_chars(s);
    let start: usize = if (cs.len() > 0 && cs[0] == '/') || cur_dir_start(&cs) {
        1
    } else {
        0
    };
    assert(start == body_start(cs@));
    let mut n: usize = cs.len();
    let mut more = true;
    assert(cs@.subrange(0, cs@.len() as int) =~= cs@);
    while more && n > start
        invariant
            n <= cs@.len(),
            start <= 1,
            trim_end_from(cs@.subrange(0, n as int), start as int) == trim_end_from(cs@, start as int),
            !more ==> trim_end_from(cs@.subrange(0, n as int), start as int) == cs@.subrange(0, n as int),
        decreases n + if more { 1int } else { 0int },
    {
        let ghost cur = cs@.subrange(0, n as int);
        if cs[n - 1] == '/' {
            assert(cur.drop_last() =~= cs@.subrange(0, n - 1));
            n = n - 1;
        } else if cs[n - 1] == '.' && n - 1 == start {
            assert(cur.drop_last() =~= cs@.subrange(0, n - 1));
            n = n - 1;
        } else if cs[n - 1] == '.' && cs[n - 2] == '/' {
            assert(cur.subrange(0, cur.len() - 2) =~= cs@.subrange(0, n - 2));
            n = n - 2;
        } else {
            more = false;
        }
    }
    let mut out: Vec<char> = Vec::new();
    let mut i: usize = 0;
    while i < n
        invariant
            i <= n <= cs@.len(),
            out@ == cs@.subrange(0, i as int),
        decreases n - i,
    {
        out.push(cs[i]);
        assert(cs@.subrange(0, i + 1) =~= cs@.subrange(0, i as int).push(cs@[i as int]));
        i = i + 1;
    }
    string_from_chars(out.as_slice())
}


/// `name` joined onto `base` the way `PathBuf::join` joins: a rooted `name`
/// replaces the base; otherwise a separator goes between them unless the base
/// is empty or already ends with one.
pub open spec fn path_join(base: Seq<char>, name: Seq<char>) -> Seq<char> {
    if is_rooted(name) {
        name
    } else if base.len() == 0 || base.last() == '/' {
        base + name
    } else {
        base + seq!['/'] + name
    }
}

/// Joining a relative name onto a base path and then taking the base off
/// again gives the name back, its components joined by single slashes: for
/// every base with at least one component that does not end in a separator.
pub proof fn lemma_join_then_after(base: Seq<char>, name: Seq<char>)
    requires
        base.len() > 0,
        base.last() != '/',
        components(base).len() > 0,
        !is_rooted(name),
    ensures
        path_after(path_join(base, name), base) == Some(join_parts(parts(name))),
{
    let p = base + seq!['/'] + name;
    assert(path_join(base, name) == p);
    lemma_parts_concat(base, name);
    assert(p[0] == base[0]);
    if base.len() >= 2 {
        assert(p[1] == base[1]);
        assert(base != seq!['.'] && p != seq!['.']);
    } else {
        assert(p[1] == '/');
        assert(p != seq!['.']);
        if base[0] == '.' {
            assert(base =~= seq!['.']);
        }
    }
    assert(is_rooted(p) == is_rooted(base));
    assert(starts_at_cur_dir(p) == starts_at_cur_dir(base));
    let cb = components(base);
    let cp = components(p);
    assert(cp =~= cb + parts(name));
    assert(cp.subrange(0, cb.len() as int) =~= cb);
    assert(cp.subrange(cb.len() as int, cp.len() as int) =~= parts(name));
}

/// `name` joined onto `base`, as `PathBuf::join` joins.
pub fn join_path(base: &str, name: &str) -> (p: String)
    ensures
        p@ == path_join(base@, name@),
{
    let nc = str_chars(name);
    if nc.len() > 0 && nc[0] == '/' {
        return name.to_string();
    }
    let bc = str_chars(base);
    let mut p = String::new();
    push_str(&mut p, base);
    if bc.len() > 0 && bc[bc.len() - 1] != '/' {
        push_char(&mut p, '/');
    }
    push_str(&mut p, name);
    p
}


/// `p` with the leading components of `base` taken off, where `p` starts with
/// `base`: what is left of `p` with its named components joined by single
/// slashes; where `base` has no components, `p` with its trailing separators
/// and `.` components removed.
pub open spec fn path_after(p: Seq<char>, base: Seq<char>) -> Option<Seq<char>> {
    if !path_starts_with(p, base) {
        None
    } else if components(base).len() == 0 {
        Some(trimmed_path(p))
    } else {
        Some(
            join_parts(
                components(p).subrange(components(base).len() as int, components(p).len() as int),
            ),
        )
    }
}

/// `p` with the leading components of `base` taken off.
pub fn strip_path_prefix(p: &str, base: &str) -> (r: Option<String>)
    ensures
        match path_after(p@, base@) {
            Some(t) => r matches Some(s) && s@ == t,
            None => r is None,
        },
{
    if !starts_with_path(p, base) {
        return None;
    }
    let bc = str_chars(base);
    let bv = path_components(&bc);
    if bv.len() == 0 {
        return Some(trim_path(p));
    }
    let pc = str_chars(p);
    let pv = path_components(&pc);
    let mut rest: Vec<Vec<char>> = Vec::new();
    let k = bv.len();
    let mut i = k;
    let ghost cs = components(p@);
    while i < pv.len()
        invariant
            k <= i <= pv@.len(),
            pv@.len() == cs.len(),
            forall|j: int| 0 <= j < pv@.len() ==> #[trigger] pv@[j]@ == cs[j],
            rest@.len() == i - k,
            forall|j: int| 0 <= j < rest@.len() ==> #[trigger] rest@[j]@ == cs[k + j],
        decreases pv@.len() - i,
    {
        let mut seg: Vec<char> = Vec::new();
        let src = &pv[i];
        let mut t: usize = 0;
        while t < src.len()
            invariant
                t <= src@.len(),
                seg@ == src@.subrange(0, t as int),
            decreases src@.len() - t,
        {
            seg.push(src[t]);
            assert(src@.subrange(0, t + 1) =~= src@.subrange(0, t as int).push(src@[t as int]));
            t = t + 1;
        }
        assert(src@.subrange(0, src@.len() as int) =~= src@);
        rest.push(seg);
        i = i + 1;
    }
    let mut out = String::new();
    push_joined(&mut out, &rest, Ghost(cs.subrange(k as int, cs.len() as int)));
    Some(out)
}

} // verus!
