//! Text splitting and joining for the character grids: each input line
//! is a row; a space leaves a cell empty; rendering joins rows with line
//! breaks and is the inverse of parsing for rows without trailing blanks.

use vstd::prelude::*;

verus! {

/// The index of the first line break in `t`, or `t.len()` if there is
/// none.
pub open spec fn find_nl(t: Seq<char>) -> int
    decreases t.len(),
{
    if t.len() == 0 {
        0
    } else if t[0] == '\n' {
        0
    } else {
        1 + find_nl(t.drop_first())
    }
}

/// The lines of `t`: pieces split on line breaks, with a final empty
/// piece after a trailing break dropped.
pub open spec fn split_lines(t: Seq<char>) -> Seq<Seq<char>>
    decreases t.len(),
    via split_lines_dec
{
    if t.len() == 0 {
        Seq::empty()
    } else {
        let i = find_nl(t);
        seq![t.take(i)] + if i == t.len() {
            Seq::empty()
        } else {
            split_lines(t.skip(i + 1))
        }
    }
}

#[via_fn]
proof fn split_lines_dec(t: Seq<char>) {
    lemma_find_nl(t);
}

/// The views of a vector of lines.
pub open spec fn line_views(ls: Seq<Vec<char>>) -> Seq<Seq<char>> {
    Seq::new(ls.len(), |i: int| ls[i]@)
}

/// The length of the longest line; 0 when there are none.
pub open spec fn max_line_len(ls: Seq<Seq<char>>) -> int
    decreases ls.len(),
{
    if ls.len() == 0 {
        0
    } else if ls.last().len() > max_line_len(ls.drop_last()) {
        ls.last().len() as int
    } else {
        max_line_len(ls.drop_last())
    }
}

/// The lines joined by single line breaks, with no trailing break.
pub open spec fn join_lines(ls: Seq<Seq<char>>) -> Seq<char>
    decreases ls.len(),
{
    if ls.len() == 0 {
        Seq::empty()
    } else if ls.len() == 1 {
        ls[0]
    } else {
        join_lines(ls.drop_last()) + seq!['\n'] + ls.last()
    }
}

/// `find_nl` points past a break-free prefix, at a break or the end.
pub proof fn lemma_find_nl(t: Seq<char>)
    ensures
        0 <= find_nl(t) <= t.len(),
        forall|j: int| 0 <= j < find_nl(t) ==> t[j] != '\n',
        find_nl(t) < t.len() ==> t[find_nl(t)] == '\n',
    decreases t.len(),
{
    if t.len() > 0 && t[0] != '\n' {
        lemma_find_nl(t.drop_first());
        assert forall|j: int| 0 <= j < find_nl(t) implies t[j] != '\n' by {
            if j > 0 {
                assert(t.drop_first()[j - 1] != '\n');
            }
        }
        if find_nl(t) < t.len() {
            assert(t.drop_first()[find_nl(t) - 1] == '\n');
        }
    }
}

/// A break-free span ending at a break or the end pins `find_nl` down.
pub proof fn lemma_find_nl_unique(t: Seq<char>, i: int)
    requires
        0 <= i <= t.len(),
        forall|j: int| 0 <= j < i ==> t[j] != '\n',
        i < t.len() ==> t[i] == '\n',
    ensures
        find_nl(t) == i,
    decreases t.len(),
{
    if t.len() > 0 && t[0] != '\n' {
        assert(i > 0);
        let d = t.drop_first();
        assert forall|j: int| 0 <= j < i - 1 implies d[j] != '\n' by {
            assert(t[j + 1] != '\n');
        }
        assert(i - 1 < d.len() ==> d[i - 1] == '\n');
        lemma_find_nl_unique(d, i - 1);
    }
}

/// No line holds a break, and no line but the last is longer than its
/// break-to-break span allows; in particular every line's length is at
/// most the text's.
pub proof fn lemma_max_line_len(ls: Seq<Seq<char>>)
    ensures
        forall|r: int| 0 <= r < ls.len() ==> (#[trigger] ls[r]).len() <= max_line_len(ls),
        ls.len() == 0 ==> max_line_len(ls) == 0,
        max_line_len(ls) >= 0,
        ls.len() > 0 ==> exists|r: int|
            0 <= r < ls.len() && (#[trigger] ls[r]).len() == max_line_len(ls),
    decreases ls.len(),
{
    if ls.len() > 0 {
        lemma_max_line_len(ls.drop_last());
        assert forall|r: int| 0 <= r < ls.len() implies (#[trigger] ls[r]).len() <= max_line_len(
            ls,
        ) by {
            if r < ls.len() - 1 {
                assert(ls.drop_last()[r] == ls[r]);
            }
        }
        if max_line_len(ls) == ls.last().len() {
            assert(ls[ls.len() - 1].len() == max_line_len(ls));
        } else {
            let r = choose|r: int|
                0 <= r < ls.drop_last().len() && (#[trigger] ls.drop_last()[r]).len()
                    == max_line_len(ls.drop_last());
            assert(ls[r].len() == max_line_len(ls));
        }
    }
}


/// Joining after a cons: with a nonempty tail, the head line comes
/// first, then a break, then the joined tail.
proof fn lemma_join_cons(a: Seq<char>, rest: Seq<Seq<char>>)
    requires
        rest.len() >= 1,
    ensures
        join_lines(seq![a] + rest) == a + seq!['\n'] + join_lines(rest),
    decreases rest.len(),
{
    let whole = seq![a] + rest;
    if rest.len() == 1 {
        assert(whole.drop_last() =~= seq![a]);
        assert(whole.last() == rest[0]);
        assert(join_lines(seq![a]) == a);
        assert(join_lines(rest) == rest[0]);
    } else {
        assert(whole.drop_last() =~= seq![a] + rest.drop_last());
        lemma_join_cons(a, rest.drop_last());
        assert(whole.last() == rest.last());
        assert(join_lines(whole) == (a + seq!['\n'] + join_lines(rest.drop_last())) + seq!['\n']
            + rest.last());
        assert(join_lines(rest) == join_lines(rest.drop_last()) + seq!['\n'] + rest.last());
        assert((a + seq!['\n'] + join_lines(rest.drop_last())) + seq!['\n'] + rest.last() =~= a
            + seq!['\n'] + (join_lines(rest.drop_last()) + seq!['\n'] + rest.last()));
    }
}

/// Splitting and rejoining reproduces any text that does not end with a
/// line break: rendering is the inverse of parsing at the line level.
pub proof fn lemma_join_split_lines(t: Seq<char>)
    requires
        t.len() > 0 ==> t.last() != '\n',
    ensures
        join_lines(split_lines(t)) == t,
    decreases t.len(),
{
    lemma_find_nl(t);
    if t.len() == 0 {
        assert(join_lines(split_lines(t)) =~= t);
    } else {
        let i = find_nl(t);
        if i == t.len() {
            assert(split_lines(t) == seq![t.take(i)] + Seq::<Seq<char>>::empty());
            assert(split_lines(t) =~= seq![t.take(i)]);
            assert(join_lines(seq![t.take(i)]) == t.take(i));
            assert(t.take(i) =~= t);
        } else {
            let rest = t.skip(i + 1);
            assert(rest.len() > 0) by {
                if i == t.len() - 1 {
                    assert(t.last() == '\n');
                }
            }
            assert(rest.last() == t.last());
            lemma_join_split_lines(rest);
            assert(split_lines(rest).len() >= 1) by {
                if find_nl(rest) >= rest.len() {
                } else {
                }
            }
            lemma_join_cons(t.take(i), split_lines(rest));
            assert(join_lines(split_lines(t)) == t.take(i) + seq!['\n'] + rest);
            assert(t.take(i) + seq!['\n'] + rest =~= t);
        }
    }
}

/// Appends one character. Relies on `String::push`, which the Rust
/// documentation specifies appends the given `char` to the end of the
/// string.
#[verifier::external_body]
pub(crate) fn push_char(out: &mut String, c: char)
    ensures
        final(out)@ == old(out)@.push(c),
{
    out.push(c);
}

/// The lines of `t`, split on line breaks, as character vectors.
pub fn split_text(t: &str) -> (lines: Vec<Vec<char>>)
    ensures
        line_views(lines@) == split_lines(t@),
{
    let n = t.unicode_len();
    let mut lines: Vec<Vec<char>> = Vec::new();
    let mut pos: usize = 0;
    proof {
        assert(line_views(lines@) =~= Seq::<Seq<char>>::empty());
        assert(t@.skip(0) =~= t@);
    }
    while pos < n
        invariant
            n == t@.len(),
            0 <= pos <= n,
            line_views(lines@) + split_lines(t@.skip(pos as int)) =~= split_lines(t@),
        decreases n - pos,
    {
        let ghost rest = t@.skip(pos as int);
        let mut cur: Vec<char> = Vec::new();
        let mut j: usize = pos;
        while j < n && t.get_char(j) != '\n'
            invariant
                n == t@.len(),
                pos <= j <= n,
                cur@ == t@.subrange(pos as int, j as int),
                forall|m: int| pos <= m < j ==> t@[m] != '\n',
            decreases n - j,
        {
            cur.push(t.get_char(j));
            proof {
                assert(cur@ =~= t@.subrange(pos as int, j + 1));
            }
            j += 1;
        }
        proof {
            assert forall|m: int| 0 <= m < j - pos implies rest[m] != '\n' by {
                assert(t@[pos + m] != '\n');
            }
            if j < n {
                assert(rest[j - pos] == '\n');
            }
            lemma_find_nl_unique(rest, j - pos as int);
            assert(rest.take(j - pos as int) =~= t@.subrange(pos as int, j as int));
            if j < n {
                assert(rest.skip(j - pos + 1) =~= t@.skip(j + 1));
            }
        }
        let ghost lines_pre = lines@;
        lines.push(cur);
        proof {
            assert(line_views(lines@) =~= line_views(lines_pre).push(cur@));
            if j < n {
                assert(split_lines(rest) == seq![cur@] + split_lines(t@.skip(j + 1)));
                assert(line_views(lines@) + split_lines(t@.skip(j + 1)) =~= line_views(lines_pre)
                    + split_lines(rest));
            } else {
                assert(split_lines(rest) == seq![cur@] + Seq::<Seq<char>>::empty());
                assert(t@.skip(n as int) =~= Seq::<char>::empty());
                assert(line_views(lines@) + split_lines(t@.skip(n as int)) =~= line_views(
                    lines_pre,
                ) + split_lines(rest));
            }
        }
        if j < n {
            pos = j + 1;
        } else {
            pos = n;
        }
    }
    proof {
        assert(t@.skip(n as int) =~= Seq::<char>::empty());
        assert(line_views(lines@) =~= split_lines(t@));
    }
    lines
}

/// The given rows joined by single line breaks, with no trailing break.
pub fn join_text(rows: &Vec<Vec<char>>) -> (out: String)
    ensures
        out@ == join_lines(line_views(rows@)),
{
    let ghost ls = line_views(rows@);
    let n = rows.len();
    let mut out = String::new();
    let mut r: usize = 0;
    proof {
        assert(join_lines(ls.take(0)) =~= Seq::<char>::empty());
    }
    while r < n
        invariant
            n == rows@.len(),
            ls == line_views(rows@),
            ls.len() == n,
            0 <= r <= n,
            out@ == join_lines(ls.take(r as int)),
        decreases n - r,
    {
        if r > 0 {
            push_char(&mut out, '\n');
        }
        let row = &rows[r];
        let m = row.len();
        let ghost out_row_start = out@;
        let mut c: usize = 0;
        while c < m
            invariant
                m == row@.len(),
                0 <= c <= m,
                out@ == out_row_start + row@.take(c as int),
            decreases m - c,
        {
            push_char(&mut out, row[c]);
            proof {
                assert(out_row_start + row@.take(c + 1) =~= (out_row_start + row@.take(
                    c as int,
                )).push(row@[c as int]));
            }
            c += 1;
        }
        proof {
            assert(row@.take(m as int) =~= row@);
            assert(ls.take(r + 1).drop_last() =~= ls.take(r as int));
            assert(ls.take(r + 1).last() == ls[r as int]);
            assert(ls[r as int] == row@);
            if r == 0 {
                assert(join_lines(ls.take(1)) == ls.take(1)[0]);
                assert(ls.take(1)[0] == row@);
                assert(out@ =~= join_lines(ls.take(1)));
            } else {
                assert(join_lines(ls.take(r + 1)) == join_lines(ls.take(r as int)) + seq!['\n']
                    + row@);
                assert(out@ =~= join_lines(ls.take(r + 1)));
            }
        }
        r += 1;
    }
    proof {
        assert(ls.take(n as int) =~= ls);
    }
    out
}

} // verus!
