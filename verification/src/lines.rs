//! Text split into lines as `str::lines` splits it, and lines joined back.

use vstd::prelude::*;

verus! {

/// The first line feed at or after `from`.
pub open spec fn next_newline(s: Seq<char>, from: int) -> Option<int>
    decreases s.len() - from,
{
    if from < 0 || from >= s.len() {
        None
    } else if s[from] == '\n' {
        Some(from)
    } else {
        next_newline(s, from + 1)
    }
}

/// A line without the carriage return that ended it.
pub open spec fn strip_cr(l: Seq<char>) -> Seq<char> {
    if l.len() > 0 && l.last() == '\r' {
        l.drop_last()
    } else {
        l
    }
}

/// The lines of `s` from `pos` on: each ends at a line feed (a carriage return
/// right before it is dropped); the last may end at the end of the text.
pub open spec fn lines_from(s: Seq<char>, pos: int) -> Seq<Seq<char>>
    decreases s.len() - pos,
{
    if pos < 0 || pos >= s.len() {
        Seq::empty()
    } else {
        match next_newline(s, pos) {
            None => seq![s.subrange(pos, s.len() as int)],
            Some(i) => {
                proof {
                    lemma_next_newline_found(s, pos);
                }
                seq![strip_cr(s.subrange(pos, i))] + lines_from(s, i + 1)
            },
        }
    }
}

/// The lines of `s`, as `str::lines` gives them.
pub open spec fn text_lines(s: Seq<char>) -> Seq<Seq<char>> {
    lines_from(s, 0)
}

/// Lines joined by line feeds.
pub open spec fn join_lines(ls: Seq<Seq<char>>) -> Seq<char>
    decreases ls.len(),
{
    if ls.len() == 0 {
        Seq::empty()
    } else if ls.len() == 1 {
        ls[0]
    } else {
        ls[0] + seq!['\n'] + join_lines(ls.drop_first())
    }
}

/// Whether `s` holds no line feed.
pub open spec fn single_line(s: Seq<char>) -> bool {
    forall|i: int| 0 <= i < s.len() ==> s[i] != '\n'
}

/// Whether no carriage return in `s` comes right before a line feed, and `s`
/// does not end with one: such text comes back unchanged from its lines.
pub open spec fn keeps_line_ends(s: Seq<char>) -> bool {
    &&& forall|i: int| 0 <= i < s.len() - 1 && #[trigger] s[i] == '\r' ==> s[i + 1] != '\n'
    &&& (s.len() > 0 ==> s.last() != '\r')
}

/// The first line feed from `from` is at `z` when none comes before it.
pub proof fn lemma_next_newline_at(s: Seq<char>, from: int, z: int)
    requires
        0 <= from <= z < s.len(),
        s[z] == '\n',
        forall|t: int| from <= t < z ==> s[t] != '\n',
    ensures
        next_newline(s, from) == Some(z),
    decreases z - from,
{
    if from < z {
        lemma_next_newline_at(s, from + 1, z);
    }
}

/// There is no line feed from `from` on when none is there.
pub proof fn lemma_next_newline_none(s: Seq<char>, from: int)
    requires
        0 <= from,
        forall|t: int| from <= t < s.len() ==> s[t] != '\n',
    ensures
        next_newline(s, from) is None,
    decreases s.len() - from,
{
    if from < s.len() {
        lemma_next_newline_none(s, from + 1);
    }
}

/// What `next_newline` finds is a line feed with none before it.
pub proof fn lemma_next_newline_found(s: Seq<char>, from: int)
    requires
        0 <= from,
    ensures
        next_newline(s, from) matches Some(z) ==> from <= z < s.len() && s[z] == '\n' && forall|
            t: int,
        | from <= t < z ==> s[t] != '\n',
        next_newline(s, from) is None ==> forall|t: int| from <= t < s.len() ==> s[t] != '\n',
    decreases s.len() - from,
{
    if from < s.len() && s[from] != '\n' {
        lemma_next_newline_found(s, from + 1);
    }
}

/// A line that lies at `pos`, ended by a line feed, is the next line there.
pub proof fn lemma_line_at(s: Seq<char>, pos: int, l: Seq<char>)
    requires
        0 <= pos,
        pos + l.len() < s.len(),
        s.subrange(pos, pos + l.len()) == l,
        single_line(l),
        s[pos + l.len()] == '\n',
    ensures
        lines_from(s, pos) == seq![strip_cr(l)] + lines_from(s, pos + l.len() + 1),
{
    assert forall|t: int| pos <= t < pos + l.len() implies s[t] != '\n' by {
        assert(s.subrange(pos, pos + l.len())[t - pos] == l[t - pos]);
    }
    lemma_next_newline_at(s, pos, pos + l.len());
}

/// Text ended by a line feed, at the end of `s` from `pos`, comes back from
/// its lines where it keeps its line ends.
pub proof fn lemma_join_lines_from(s: Seq<char>, pos: int)
    requires
        0 <= pos < s.len(),
        s.last() == '\n',
        keeps_line_ends(s.subrange(pos, s.len() - 1)),
    ensures
        join_lines(lines_from(s, pos)) == s.subrange(pos, s.len() - 1),
        lines_from(s, pos).len() > 0,
    decreases s.len() - pos,
{
    lemma_next_newline_found(s, pos);
    let m = s.subrange(pos, s.len() - 1);
    match next_newline(s, pos) {
        None => {
            assert(s[s.len() - 1] == '\n');
        },
        Some(i) => {
            let l = s.subrange(pos, i);
            if l.len() > 0 && l.last() == '\r' {
                if i == s.len() - 1 {
                    assert(m.last() == l.last());
                } else {
                    assert(m[i - 1 - pos] == '\r');
                    assert(m[i - pos] == '\n');
                }
            }
            assert(strip_cr(l) == l);
            if i == s.len() - 1 {
                assert(lines_from(s, i + 1) =~= Seq::<Seq<char>>::empty());
                assert(lines_from(s, pos) =~= seq![l]);
                assert(l =~= m);
            } else {
                let rest = s.subrange(i + 1, s.len() - 1);
                assert(rest =~= m.subrange(i + 1 - pos, m.len() as int));
                assert(keeps_line_ends(rest)) by {
                    assert forall|t: int| 0 <= t < rest.len() - 1 && #[trigger] rest[t] == '\r' implies rest[t + 1] != '\n' by {
                        assert(rest[t] == m[t + i + 1 - pos]);
                        assert(rest[t + 1] == m[t + 1 + i + 1 - pos]);
                    }
                    if rest.len() > 0 {
                        assert(rest.last() == m.last());
                    }
                }
                lemma_join_lines_from(s, i + 1);
                let tail = lines_from(s, i + 1);
                let all = lines_from(s, pos);
                assert(all == seq![l] + tail);
                assert(all.len() >= 2);
                assert(all.drop_first() =~= tail);
                assert(join_lines(all) == l + seq!['\n'] + join_lines(tail));
                assert(join_lines(all) =~= m);
            }
        },
    }
}

/// Lines, each followed by a line feed.
pub open spec fn terminated_lines(ls: Seq<Seq<char>>) -> Seq<char>
    decreases ls.len(),
{
    if ls.len() == 0 {
        Seq::empty()
    } else {
        ls[0] + seq!['\n'] + terminated_lines(ls.drop_first())
    }
}

/// The lines of the end of `s` from `pos`, each followed by a line feed, are
/// that text itself where it keeps its line ends, with a line feed added when
/// it is not empty and does not end with one.
pub proof fn lemma_terminated_lines_from(s: Seq<char>, pos: int)
    requires
        0 <= pos <= s.len(),
        keeps_line_ends(s.subrange(pos, s.len() as int)),
    ensures
        terminated_lines(lines_from(s, pos)) == s.subrange(pos, s.len() as int) + (if pos < s.len()
            && s.last() != '\n' {
            seq!['\n']
        } else {
            Seq::<char>::empty()
        }),
    decreases s.len() - pos,
{
    let m = s.subrange(pos, s.len() as int);
    if pos == s.len() {
        assert(m + Seq::<char>::empty() =~= Seq::<char>::empty());
        return;
    }
    lemma_next_newline_found(s, pos);
    match next_newline(s, pos) {
        None => {
            let all = lines_from(s, pos);
            assert(all =~= seq![m]);
            assert(all.drop_first() =~= Seq::<Seq<char>>::empty());
            assert(terminated_lines(Seq::<Seq<char>>::empty()) =~= Seq::<char>::empty());
            assert(terminated_lines(all) =~= m + seq!['\n']);
            assert(s.last() == s[s.len() - 1]);
            assert(s.last() != '\n');
        },
        Some(i) => {
            let l = s.subrange(pos, i);
            if l.len() > 0 && l.last() == '\r' {
                assert(m[i - 1 - pos] == '\r');
                assert(m[i - pos] == '\n');
            }
            assert(strip_cr(l) == l);
            let rest = s.subrange(i + 1, s.len() as int);
            assert(keeps_line_ends(rest)) by {
                assert forall|t: int| 0 <= t < rest.len() - 1 && #[trigger] rest[t] == '\r' implies rest[t + 1] != '\n' by {
                    assert(rest[t] == m[t + i + 1 - pos]);
                    assert(rest[t + 1] == m[t + 1 + i + 1 - pos]);
                }
                if rest.len() > 0 {
                    assert(rest.last() == m.last());
                }
            }
            lemma_terminated_lines_from(s, i + 1);
            let tail = lines_from(s, i + 1);
            let all = lines_from(s, pos);
            assert(all == seq![l] + tail);
            assert(all.drop_first() =~= tail);
            assert(terminated_lines(all) == l + seq!['\n'] + terminated_lines(tail));
            if i + 1 == s.len() {
                assert(s.last() == '\n');
                assert(l + seq!['\n'] + rest =~= m);
            } else {
                assert(l + seq!['\n'] + rest =~= m);
            }
            assert(terminated_lines(all) =~= m + (if pos < s.len() && s.last() != '\n' {
                seq!['\n']
            } else {
                Seq::<char>::empty()
            }));
        },
    }
}

/// The lines of `cs`, as `str::lines` gives them.
pub fn split_lines(cs: &Vec<char>) -> (ls: Vec<Vec<char>>)
    ensures
        ls@.len() == text_lines(cs@).len(),
        forall|i: int| 0 <= i < ls@.len() ==> #[trigger] ls@[i]@ == text_lines(cs@)[i],
{
    let n = cs.len();
    let mut ls: Vec<Vec<char>> = Vec::new();
    let mut pos: usize = 0;
    let ghost mut done: Seq<Seq<char>> = Seq::empty();
    while pos < n
        invariant
            pos <= n,
            n == cs@.len(),
            text_lines(cs@) == done + lines_from(cs@, pos as int),
            ls@.len() == done.len(),
            forall|i: int| 0 <= i < ls@.len() ==> #[trigger] ls@[i]@ == done[i],
        decreases n - pos,
    {
        let mut line: Vec<char> = Vec::new();
        let mut i: usize = pos;
        while i < n && cs[i] != '\n'
            invariant
                pos <= i <= n,
                n == cs@.len(),
                line@ == cs@.subrange(pos as int, i as int),
                next_newline(cs@, pos as int) == next_newline(cs@, i as int),
            decreases n - i,
        {
            line.push(cs[i]);
            assert(cs@.subrange(pos as int, i + 1) =~= cs@.subrange(pos as int, i as int).push(
                cs@[i as int],
            ));
            i = i + 1;
        }
        let ghost l = line@;
        if i < n {
            // The line ended at a line feed; drop a carriage return before it.
            if line.len() > 0 && line[line.len() - 1] == '\r' {
                line.pop();
                assert(line@ =~= strip_cr(l));
            }
            proof {
                assert(next_newline(cs@, i as int) == Some(i as int));
                assert(lines_from(cs@, pos as int) == seq![strip_cr(l)] + lines_from(cs@, i + 1));
                assert(done.push(strip_cr(l)) + lines_from(cs@, i + 1) =~= done + lines_from(cs@, pos as int));
                done = done.push(strip_cr(l));
            }
            ls.push(line);
            pos = i + 1;
        } else {
            proof {
                assert(next_newline(cs@, i as int) is None);
                assert(lines_from(cs@, pos as int) == seq![l]);
                assert(lines_from(cs@, n as int) =~= Seq::<Seq<char>>::empty());
                assert(done.push(l) + lines_from(cs@, n as int) =~= done + lines_from(cs@, pos as int));
                done = done.push(l);
            }
            ls.push(line);
            pos = n;
        }
    }
    proof {
        assert(lines_from(cs@, pos as int) =~= Seq::<Seq<char>>::empty());
        assert(text_lines(cs@) =~= done);
    }
    ls
}

/// The lines `ls[from..]` joined by line feeds.
pub fn join_lines_from(ls: &Vec<Vec<char>>, from: usize) -> (s: Vec<char>)
    requires
        from <= ls@.len(),
    ensures
        s@ == join_lines(Seq::new((ls@.len() - from) as nat, |i: int| ls@[from + i]@)),
{
    let ghost want = Seq::new((ls@.len() - from) as nat, |i: int| ls@[from + i]@);
    let mut s: Vec<char> = Vec::new();
    let n = ls.len();
    if from == n {
        assert(want =~= Seq::<Seq<char>>::empty());
        return s;
    }
    // Built from the back: `s` holds the join of the lines from `k` on.
    let mut k: usize = n - 1;
    let ghost mut tail = seq![ls@[k as int]@];
    let last = &ls[k];
    let mut t: usize = 0;
    while t < last.len()
        invariant
            t <= last@.len(),
            s@ == last@.subrange(0, t as int),
        decreases last@.len() - t,
    {
        s.push(last[t]);
        assert(last@.subrange(0, t + 1) =~= last@.subrange(0, t as int).push(last@[t as int]));
        t = t + 1;
    }
    assert(last@.subrange(0, last@.len() as int) =~= last@);
    while k > from
        invariant
            from <= k < n,
            n == ls@.len(),
            want == Seq::new((ls@.len() - from) as nat, |i: int| ls@[from + i]@),
            tail == want.subrange(k - from, want.len() as int),
            s@ == join_lines(tail),
        decreases k,
    {
        k = k - 1;
        let line = &ls[k];
        let mut next: Vec<char> = Vec::new();
        let mut t: usize = 0;
        while t < line.len()
            invariant
                t <= line@.len(),
                next@ == line@.subrange(0, t as int),
            decreases line@.len() - t,
        {
            next.push(line[t]);
            assert(line@.subrange(0, t + 1) =~= line@.subrange(0, t as int).push(line@[t as int]));
            t = t + 1;
        }
        assert(line@.subrange(0, line@.len() as int) =~= line@);
        next.push('\n');
        let mut u: usize = 0;
        let ghost before = next@;
        while u < s.len()
            invariant
                u <= s@.len(),
                next@ == before + s@.subrange(0, u as int),
            decreases s@.len() - u,
        {
            next.push(s[u]);
            assert(s@.subrange(0, u + 1) =~= s@.subrange(0, u as int).push(s@[u as int]));
            u = u + 1;
        }
        assert(s@.subrange(0, s@.len() as int) =~= s@);
        proof {
            let t2 = seq![line@] + tail;
            assert(t2 =~= want.subrange(k - from, want.len() as int));
            assert(t2.drop_first() =~= tail);
            assert(t2.len() >= 2);
            assert(next@ =~= join_lines(t2));
            tail = t2;
        }
        s = next;
    }
    assert(want.subrange(0, want.len() as int) =~= want);
    s
}


/// The first `c` in `s` at or after `from`.
pub open spec fn find_char(s: Seq<char>, c: char, from: int) -> Option<int>
    decreases s.len() - from,
{
    if from < 0 || from >= s.len() {
        None
    } else if s[from] == c {
        Some(from)
    } else {
        find_char(s, c, from + 1)
    }
}

/// The last `c` in `s`.
pub open spec fn rfind_char(s: Seq<char>, c: char) -> Option<int>
    decreases s.len(),
{
    if s.len() == 0 {
        None
    } else if s.last() == c {
        Some(s.len() - 1)
    } else {
        rfind_char(s.drop_last(), c)
    }
}

/// What `find_char` finds is a `c` with none before it from `from`; where it
/// finds none, there is none.
pub proof fn lemma_find_char(s: Seq<char>, c: char, from: int)
    requires
        0 <= from,
    ensures
        find_char(s, c, from) matches Some(z) ==> from <= z < s.len() && s[z] == c && forall|t: int|
            from <= t < z ==> s[t] != c,
        find_char(s, c, from) is None ==> forall|t: int| from <= t < s.len() ==> s[t] != c,
    decreases s.len() - from,
{
    if from < s.len() && s[from] != c {
        lemma_find_char(s, c, from + 1);
    }
}

/// The first `c` from `from` is at `z` when none comes before it.
pub proof fn lemma_find_char_at(s: Seq<char>, c: char, from: int, z: int)
    requires
        0 <= from <= z < s.len(),
        s[z] == c,
        forall|t: int| from <= t < z ==> s[t] != c,
    ensures
        find_char(s, c, from) == Some(z),
    decreases z - from,
{
    if from < z {
        lemma_find_char_at(s, c, from + 1, z);
    }
}

/// What `rfind_char` finds is a `c` with none after it; where it finds none,
/// there is none.
pub proof fn lemma_rfind_char(s: Seq<char>, c: char)
    ensures
        rfind_char(s, c) matches Some(z) ==> 0 <= z < s.len() && s[z] == c && forall|t: int|
            z < t < s.len() ==> s[t] != c,
        rfind_char(s, c) is None ==> forall|t: int| 0 <= t < s.len() ==> s[t] != c,
    decreases s.len(),
{
    if s.len() > 0 && s.last() != c {
        lemma_rfind_char(s.drop_last(), c);
        assert forall|t: int| 0 <= t < s.len() - 1 implies s.drop_last()[t] == s[t] by {}
    }
}

/// The last `c` is at `z` when none comes after it.
pub proof fn lemma_rfind_char_at(s: Seq<char>, c: char, z: int)
    requires
        0 <= z < s.len(),
        s[z] == c,
        forall|t: int| z < t < s.len() ==> s[t] != c,
    ensures
        rfind_char(s, c) == Some(z),
    decreases s.len(),
{
    if z < s.len() - 1 {
        lemma_rfind_char_at(s.drop_last(), c, z);
    }
}

/// The first `c` in `v` at or after `from`.
pub fn find_char_exec(v: &Vec<char>, c: char, from: usize) -> (r: Option<usize>)
    ensures
        match find_char(v@, c, from as int) {
            Some(z) => r == Some(z as usize),
            None => r is None,
        },
        r matches Some(j) ==> from <= j < v@.len() && find_char(v@, c, from as int) == Some(j as int),
{
    proof {
        lemma_find_char(v@, c, from as int);
    }
    let mut i = from;
    while i < v.len()
        invariant
            from <= i,
            forall|t: int| from <= t < i && t < v@.len() ==> v@[t] != c,
        decreases v@.len() - i,
    {
        if v[i] == c {
            proof {
                lemma_find_char_at(v@, c, from as int, i as int);
            }
            return Some(i);
        }
        i = i + 1;
    }
    None
}

/// The last `c` in `v`.
pub fn rfind_char_exec(v: &Vec<char>, c: char) -> (r: Option<usize>)
    ensures
        match rfind_char(v@, c) {
            Some(z) => r == Some(z as usize),
            None => r is None,
        },
        r matches Some(j) ==> j < v@.len() && rfind_char(v@, c) == Some(j as int),
{
    proof {
        lemma_rfind_char(v@, c);
    }
    let mut i = v.len();
    while i > 0
        invariant
            i <= v@.len(),
            forall|t: int| i <= t < v@.len() ==> v@[t] != c,
        decreases i,
    {
        if v[i - 1] == c {
            proof {
                lemma_rfind_char_at(v@, c, i - 1);
            }
            return Some(i - 1);
        }
        i = i - 1;
    }
    None
}

/// The characters `v[from..to]`.
pub fn sub_chars(v: &Vec<char>, from: usize, to: usize) -> (r: Vec<char>)
    requires
        from <= to <= v@.len(),
    ensures
        r@ == v@.subrange(from as int, to as int),
{
    let mut r: Vec<char> = Vec::new();
    let mut i = from;
    while i < to
        invariant
            from <= i <= to <= v@.len(),
            r@ == v@.subrange(from as int, i as int),
        decreases to - i,
    {
        r.push(v[i]);
        assert(v@.subrange(from as int, i + 1) =~= v@.subrange(from as int, i as int).push(v@[i as int]));
        i = i + 1;
    }
    r
}

} // verus!
