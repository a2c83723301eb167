//! Text-slicing helpers on string slices: dropping or taking a number
//! of leading lines, and splitting on blank lines.

use vstd::prelude::*;

verus! {

use crate::text::{find_nl, lemma_find_nl, lemma_find_nl_unique};

/// The number of line breaks in `t`.
pub open spec fn nl_count(t: Seq<char>) -> int
    decreases t.len(),
{
    if t.len() == 0 {
        0
    } else {
        nl_count(t.drop_last()) + if t.last() == '\n' {
            1int
        } else {
            0int
        }
    }
}

/// The index of the `n`-th line break of `t`, counting from 1.
pub open spec fn nth_nl(t: Seq<char>, n: int) -> int
    recommends
        1 <= n <= nl_count(t),
    decreases n,
{
    if n <= 1 {
        find_nl(t)
    } else {
        let i = find_nl(t);
        i + 1 + nth_nl(t.skip(i + 1), n - 1)
    }
}

/// The index of the first adjacent pair of line breaks, or `t.len()`
/// if there is none.
pub open spec fn find_blank(t: Seq<char>) -> int
    decreases t.len(),
{
    if t.len() < 2 {
        t.len() as int
    } else if t[0] == '\n' && t[1] == '\n' {
        0
    } else {
        1 + find_blank(t.drop_first())
    }
}

/// The pieces of `t` split on blank lines (adjacent pairs of line
/// breaks), leftmost first, empty pieces kept.
pub open spec fn split_blank(t: Seq<char>) -> Seq<Seq<char>>
    decreases t.len(),
    via split_blank_dec
{
    let i = find_blank(t);
    if i >= t.len() {
        seq![t]
    } else {
        seq![t.take(i)] + split_blank(t.skip(i + 2))
    }
}

#[via_fn]
proof fn split_blank_dec(t: Seq<char>) {
    lemma_find_blank(t);
}

/// The views of a vector of owned strings.
pub open spec fn string_views(v: Seq<String>) -> Seq<Seq<char>> {
    Seq::new(v.len(), |i: int| v[i]@)
}

/// `find_blank` points past a blank-free prefix, at a blank pair or
/// the end.
pub proof fn lemma_find_blank(t: Seq<char>)
    ensures
        0 <= find_blank(t) <= t.len(),
        forall|j: int|
            0 <= j < find_blank(t) && j + 1 < t.len() ==> !(#[trigger] t[j] == '\n' && t[j + 1]
                == '\n'),
        find_blank(t) < t.len() ==> find_blank(t) + 1 < t.len() && t[find_blank(t)] == '\n'
            && t[find_blank(t) + 1] == '\n',
    decreases t.len(),
{
    if t.len() >= 2 && !(t[0] == '\n' && t[1] == '\n') {
        lemma_find_blank(t.drop_first());
        assert forall|j: int|
            0 <= j < find_blank(t) && j + 1 < t.len() implies !(#[trigger] t[j] == '\n' && t[j
            + 1] == '\n') by {
            if j > 0 {
                assert(!(t.drop_first()[j - 1] == '\n' && t.drop_first()[j] == '\n'));
            }
        }
        if find_blank(t) < t.len() {
            assert(t.drop_first()[find_blank(t) - 1] == '\n');
            assert(t.drop_first()[find_blank(t)] == '\n');
        }
    }
}

/// A blank-free span ending at a blank pair or the end pins
/// `find_blank` down.
pub proof fn lemma_find_blank_unique(t: Seq<char>, i: int)
    requires
        0 <= i <= t.len(),
        forall|j: int|
            0 <= j < i && j + 1 < t.len() ==> !(#[trigger] t[j] == '\n' && t[j + 1] == '\n'),
        i < t.len() ==> i + 1 < t.len() && t[i] == '\n' && t[i + 1] == '\n',
        i == t.len() - 1 ==> false,
    ensures
        find_blank(t) == i,
    decreases t.len(),
{
    if t.len() >= 2 && !(t[0] == '\n' && t[1] == '\n') {
        assert(i > 0);
        let d = t.drop_first();
        assert forall|j: int|
            0 <= j < i - 1 && j + 1 < d.len() implies !(#[trigger] d[j] == '\n' && d[j + 1]
            == '\n') by {
            assert(!(t[j + 1] == '\n' && t[j + 2] == '\n'));
        }
        lemma_find_blank_unique(d, i - 1);
    } else if t.len() < 2 {
        assert(i != t.len() - 1);
    }
}

/// Prefix break counts never exceed the whole count, and grow by one
/// exactly at a break.
pub proof fn lemma_nl_count_prefix(t: Seq<char>, j: int)
    requires
        0 <= j <= t.len(),
    ensures
        0 <= nl_count(t.take(j)) <= nl_count(t),
        nl_count(t) >= 0,
    decreases t.len(),
{
    if t.len() == 0 {
        assert(t.take(j) =~= t);
    } else if j == t.len() {
        assert(t.take(j) =~= t);
        lemma_nl_count_prefix(t.drop_last(), t.len() - 1);
        assert(t.drop_last().take(t.len() - 1) =~= t.drop_last());
    } else {
        lemma_nl_count_prefix(t.drop_last(), j);
        assert(t.drop_last().take(j) =~= t.take(j));
    }
}

/// Splitting a text splits its break count.
pub proof fn lemma_nl_count_split(t: Seq<char>, a: int)
    requires
        0 <= a <= t.len(),
    ensures
        nl_count(t) == nl_count(t.take(a)) + nl_count(t.skip(a)),
    decreases t.len(),
{
    if a == t.len() {
        assert(t.take(a) =~= t);
        assert(t.skip(a) =~= Seq::<char>::empty());
    } else if t.len() > 0 {
        lemma_nl_count_split(t.drop_last(), a);
        assert(t.drop_last().take(a) =~= t.take(a));
        assert(t.skip(a).drop_last() =~= t.drop_last().skip(a));
        assert(t.skip(a).last() == t.last());
    }
}

/// A text with no break has none in any position.
pub proof fn lemma_nl_count_zero(t: Seq<char>)
    requires
        nl_count(t) == 0,
    ensures
        forall|j: int| 0 <= j < t.len() ==> t[j] != '\n',
    decreases t.len(),
{
    if t.len() > 0 {
        lemma_nl_count_prefix(t.drop_last(), t.len() - 1);
        lemma_nl_count_zero(t.drop_last());
        assert forall|j: int| 0 <= j < t.len() implies t[j] != '\n' by {
            if j < t.len() - 1 {
                assert(t.drop_last()[j] != '\n');
            }
        }
    }
}

/// The position after a break-count of `n - 1`, holding a break, is the
/// `n`-th break.
pub proof fn lemma_nth_nl_unique(t: Seq<char>, n: int, j: int)
    requires
        1 <= n,
        0 <= j < t.len(),
        t[j] == '\n',
        nl_count(t.take(j)) == n - 1,
    ensures
        nth_nl(t, n) == j,
    decreases n,
{
    lemma_find_nl(t);
    if n == 1 {
        lemma_nl_count_zero(t.take(j));
        assert forall|m: int| 0 <= m < j implies t[m] != '\n' by {
            assert(t.take(j)[m] != '\n');
        }
        lemma_find_nl_unique(t, j);
    } else {
        let i = find_nl(t);
        assert(i < j) by {
            if i >= j {
                assert forall|m: int| 0 <= m < j implies t.take(j)[m] != '\n' by {
                    assert(t[m] != '\n');
                }
                lemma_nl_count_zero_converse(t.take(j));
            }
        }
        let d = t.skip(i + 1);
        assert(d[j - i - 1] == '\n');
        assert(nl_count(d.take(j - i - 1)) == n - 2) by {
            lemma_nl_count_split(t.take(j), i + 1);
            assert(t.take(j).take(i + 1) =~= t.take(i + 1));
            assert(t.take(j).skip(i + 1) =~= d.take(j - i - 1));
            assert(nl_count(t.take(i + 1)) == 1) by {
                assert(t.take(i + 1).drop_last() =~= t.take(i));
                assert(t.take(i + 1).last() == t[i]);
                lemma_nl_count_zero_converse(t.take(i));
            }
        }
        lemma_nth_nl_unique(d, n - 1, j - i - 1);
    }
}

/// A break-free text has break count zero.
proof fn lemma_nl_count_zero_converse(t: Seq<char>)
    requires
        forall|j: int| 0 <= j < t.len() ==> t[j] != '\n',
    ensures
        nl_count(t) == 0,
    decreases t.len(),
{
    if t.len() > 0 {
        assert forall|j: int| 0 <= j < t.len() - 1 implies t.drop_last()[j] != '\n' by {
            assert(t[j] != '\n');
        }
        lemma_nl_count_zero_converse(t.drop_last());
    }
}

/// Line-slicing operations on string slices.
pub trait StrExt: View<V = Seq<char>> {
    /// The text after its first `n` lines: the suffix past the `n`-th
    /// line break, or empty when there are fewer breaks. A zero count
    /// is only meaningful on break-free text; elsewhere it is a
    /// contract violation, as the native subtraction would fault.
    fn drop_lines(&self, n: usize) -> (r: &str)
        requires
            n >= 1 || nl_count(self@) == 0,
        ensures
            n >= 1 && nl_count(self@) >= n ==> r@ == self@.skip(nth_nl(self@, n as int) + 1),
            nl_count(self@) < n ==> r@ == Seq::<char>::empty(),
            n == 0 ==> r@ == Seq::<char>::empty(),
    ;

    /// The first `n` lines of the text: the prefix up to the `n`-th
    /// line break, the whole text when there are fewer breaks, and
    /// empty for a zero count.
    fn take_lines(&self, n: usize) -> (r: &str)
        ensures
            n == 0 ==> r@ == Seq::<char>::empty(),
            n >= 1 && nl_count(self@) >= n ==> r@ == self@.take(nth_nl(self@, n as int)),
            n >= 1 && nl_count(self@) < n ==> r@ == self@,
    ;

    /// The pieces of the text split on blank lines, leftmost first.
    fn sdnl(&self) -> (r: Vec<String>)
        ensures
            string_views(r@) == split_blank(self@),
    ;
}

impl StrExt for str {
    fn drop_lines(&self, n: usize) -> (r: &str) {
        let len = self.unicode_len();
        let mut remaining = n;
        let mut j: usize = 0;
        proof {
            assert(self@.take(0) =~= Seq::<char>::empty());
            lemma_nl_count_prefix(self@, 0);
        }
        while j < len
            invariant
                len == self@.len(),
                0 <= j <= len,
                n >= 1 || nl_count(self@) == 0,
                remaining == n - nl_count(self@.take(j as int)),
                remaining >= 1 || n == 0,
            decreases len - j,
        {
            let c = self.get_char(j);
            proof {
                assert(self@.take(j + 1).drop_last() =~= self@.take(j as int));
                assert(self@.take(j + 1).last() == self@[j as int]);
                if n == 0 {
                    lemma_nl_count_zero(self@);
                }
            }
            if c == '\n' {
                remaining -= 1;
                if remaining == 0 {
                    proof {
                        lemma_nth_nl_unique(self@, n as int, j as int);
                        lemma_nl_count_split(self@, j + 1);
                        lemma_nl_count_prefix(self@.skip(j + 1), 0);
                    }
                    return self.substring_char(j + 1, len);
                }
            }
            j += 1;
        }
        proof {
            assert(self@.take(len as int) =~= self@);
            assert(self@.subrange(0, 0) =~= Seq::<char>::empty());
        }
        self.substring_char(0, 0)
    }

    fn take_lines(&self, n: usize) -> (r: &str) {
        if n == 0 {
            proof {
                assert(self@.subrange(0, 0) =~= Seq::<char>::empty());
            }
            return self.substring_char(0, 0);
        }
        let len = self.unicode_len();
        let mut remaining = n;
        let mut j: usize = 0;
        proof {
            assert(self@.take(0) =~= Seq::<char>::empty());
        }
        while j < len
            invariant
                len == self@.len(),
                n >= 1,
                0 <= j <= len,
                remaining == n - nl_count(self@.take(j as int)),
                remaining >= 1,
            decreases len - j,
        {
            let c = self.get_char(j);
            proof {
                assert(self@.take(j + 1).drop_last() =~= self@.take(j as int));
                assert(self@.take(j + 1).last() == self@[j as int]);
            }
            if c == '\n' {
                remaining -= 1;
                if remaining == 0 {
                    proof {
                        lemma_nth_nl_unique(self@, n as int, j as int);
                        lemma_nl_count_split(self@, j + 1);
                        assert(nl_count(self@.take(j + 1)) == n);
                        lemma_nl_count_prefix(self@.skip(j + 1), 0);
                        assert(self@.subrange(0, j as int) =~= self@.take(j as int));
                    }
                    return self.substring_char(0, j);
                }
            }
            j += 1;
        }
        proof {
            assert(self@.take(len as int) =~= self@);
            assert(self@.subrange(0, len as int) =~= self@);
        }
        self.substring_char(0, len)
    }

    fn sdnl(&self) -> (r: Vec<String>) {
        let len = self.unicode_len();
        let mut pieces: Vec<String> = Vec::new();
        let mut pos: usize = 0;
        let mut finished = false;
        proof {
            assert(string_views(pieces@) =~= Seq::<Seq<char>>::empty());
            assert(self@.skip(0) =~= self@);
        }
        while !finished
            invariant
                len == self@.len(),
                0 <= pos <= len,
                !finished ==> string_views(pieces@) + split_blank(self@.skip(pos as int))
                    =~= split_blank(self@),
                finished ==> string_views(pieces@) =~= split_blank(self@),
            decreases len - pos + (if finished {
                0int
            } else {
                1int
            }),
        {
            let ghost rest = self@.skip(pos as int);
            let mut cur = String::new();
            let mut j: usize = pos;
            while j < len && j + 1 < len && !(self.get_char(j) == '\n' && self.get_char(j + 1) == '\n')
                invariant
                    len == self@.len(),
                    pos <= j <= len,
                    cur@ == self@.subrange(pos as int, j as int),
                    forall|m: int|
                        pos <= m < j && m + 1 < len ==> !(#[trigger] self@[m] == '\n' && self@[m
                            + 1] == '\n'),
                decreases len - j,
            {
                let c = self.get_char(j);
                crate::text::push_char(&mut cur, c);
                proof {
                    assert(cur@ =~= self@.subrange(pos as int, j + 1));
                }
                j += 1;
            }
            let matched = j < len && j + 1 < len;
            proof {
                assert forall|m: int|
                    0 <= m < j - pos && m + 1 < rest.len() implies !(#[trigger] rest[m] == '\n'
                    && rest[m + 1] == '\n') by {
                    assert(!(self@[pos + m] == '\n' && self@[pos + m + 1] == '\n'));
                }
                if matched {
                    assert(rest[j - pos] == '\n' && rest[j - pos + 1] == '\n');
                    lemma_find_blank_unique(rest, j - pos as int);
                } else {
                    lemma_find_blank(rest);
                    if find_blank(rest) < rest.len() {
                        let fb = find_blank(rest);
                        assert(self@[pos + fb] == '\n' && self@[pos + fb + 1] == '\n');
                        assert(false);
                    }
                }
                assert(rest.take(j - pos as int) =~= self@.subrange(pos as int, j as int));
            }
            if matched {
                let ghost pieces_pre = pieces@;
                pieces.push(cur);
                proof {
                    assert(string_views(pieces@) =~= string_views(pieces_pre).push(
                        self@.subrange(pos as int, j as int),
                    ));
                    assert(rest.skip(j - pos + 2) =~= self@.skip(j + 2));
                    assert(split_blank(rest) == seq![rest.take(j - pos as int)] + split_blank(
                        self@.skip(j + 2),
                    ));
                    assert(string_views(pieces@) + split_blank(self@.skip(j + 2))
                        =~= string_views(pieces_pre) + split_blank(rest));
                }
                pos = j + 2;
            } else {
                let rest_str = self.substring_char(pos, len);
                let ghost pieces_pre = pieces@;
                let cur2 = String::from_str(rest_str);
                pieces.push(cur2);
                proof {
                    assert(rest_str@ =~= rest);
                    assert(split_blank(rest) == seq![rest]);
                    assert(string_views(pieces@) =~= string_views(pieces_pre).push(rest));
                    assert(string_views(pieces@) =~= string_views(pieces_pre) + split_blank(
                        rest,
                    ));
                }
                finished = true;
                pos = len;
            }
        }
        pieces
    }
}

} // verus!
