//! Verified text utilities: splitting text into lines, trimming whitespace,
//! and character searches.

use vstd::prelude::*;
use vstd::string::*;

verus! {

/// Prepends a partially read first line `cur` to the lines `rest`: glued onto
/// the first line of `rest`, or a line of its own when `rest` has none and
/// `cur` is not empty.
pub open spec fn cons_line(cur: Seq<char>, rest: Seq<Seq<char>>) -> Seq<Seq<char>> {
    if rest.len() == 0 {
        if cur.len() == 0 {
            Seq::empty()
        } else {
            seq![cur]
        }
    } else {
        seq![cur + rest[0]] + rest.skip(1)
    }
}

/// The lines of `s`: split at a line feed or at a carriage return followed by
/// a line feed, the terminator of the final line optional, and no empty line
/// after a final terminator.
pub open spec fn lines_of(s: Seq<char>) -> Seq<Seq<char>>
    decreases s.len(),
{
    if s.len() == 0 {
        Seq::empty()
    } else if s[0] == '\n' {
        seq![Seq::<char>::empty()] + lines_of(s.skip(1))
    } else if s[0] == '\r' && s.len() >= 2 && s[1] == '\n' {
        seq![Seq::<char>::empty()] + lines_of(s.skip(2))
    } else {
        cons_line(seq![s[0]], lines_of(s.skip(1)))
    }
}

/// Gluing nothing onto lines leaves them unchanged.
pub(crate) proof fn lemma_cons_line_nil(rest: Seq<Seq<char>>)
    ensures
        cons_line(Seq::<char>::empty(), rest) == rest,
{
    if rest.len() == 0 {
    } else {
        assert(Seq::<char>::empty() + rest[0] =~= rest[0]);
        assert(cons_line(Seq::<char>::empty(), rest) =~~= rest);
    }
}

/// Gluing one piece and then another is gluing their concatenation.
pub(crate) proof fn lemma_cons_line_assoc(a: Seq<char>, b: Seq<char>, rest: Seq<Seq<char>>)
    requires
        b.len() > 0,
    ensures
        cons_line(a, cons_line(b, rest)) == cons_line(a + b, rest),
{
    if rest.len() == 0 {
        assert(cons_line(b, rest) == seq![b]);
        assert(cons_line(a, seq![b]) =~~= seq![a + b]);
        assert(cons_line(a + b, rest) == seq![a + b]);
    } else {
        let inner = cons_line(b, rest);
        assert(inner == seq![b + rest[0]] + rest.skip(1));
        assert(inner.len() == 1 + rest.skip(1).len());
        assert(inner[0] == b + rest[0]);
        assert(a + (b + rest[0]) =~= (a + b) + rest[0]);
        assert(inner.skip(1) =~~= rest.skip(1));
        assert(cons_line(a, inner) =~~= cons_line(a + b, rest));
    }
}

/// A terminator at the front of the rest closes the partial line `cur`.
pub(crate) proof fn lemma_cons_line_close(cur: Seq<char>, rest: Seq<Seq<char>>)
    ensures
        cons_line(cur, seq![Seq::<char>::empty()] + rest) == seq![cur] + rest,
{
    let whole = seq![Seq::<char>::empty()] + rest;
    assert(whole.len() == 1 + rest.len());
    assert(whole[0] == Seq::<char>::empty());
    assert(cur + whole[0] =~= cur);
    assert(whole.skip(1) =~~= rest);
    assert(cons_line(cur, whole) =~~= seq![cur] + rest);
}

/// Splits `s` into its lines: at a line feed or a carriage return followed by
/// a line feed, with no empty line after a final terminator.
pub fn split_lines(s: &str) -> (r: Vec<String>)
    ensures
        r.deep_view() == lines_of(s@),
{
    let n = s.unicode_len();
    let mut r: Vec<String> = Vec::new();
    let mut start: usize = 0;
    let mut i: usize = 0;
    proof {
        assert(s@.skip(0) =~= s@);
        assert(s@.subrange(0, 0) =~= Seq::<char>::empty());
        lemma_cons_line_nil(lines_of(s@));
        assert(r.deep_view() + cons_line(s@.subrange(0, 0), lines_of(s@.skip(0))) =~~= lines_of(
            s@,
        ));
    }
    while i < n
        invariant
            n == s@.len(),
            start <= i <= n,
            r.deep_view() + cons_line(
                s@.subrange(start as int, i as int),
                lines_of(s@.skip(i as int)),
            ) == lines_of(s@),
        decreases n - i,
    {
        let ghost cur = s@.subrange(start as int, i as int);
        let ghost rest = s@.skip(i as int);
        proof {
            assert(rest.len() == n - i);
            assert(rest[0] == s@[i as int]);
        }
        let c = s.get_char(i);
        if c == '\n' {
            let piece = s.substring_char(start, i);
            let line = piece.to_owned();
            proof {
                assert(rest.skip(1) =~= s@.skip(i + 1));
                assert(lines_of(rest) == seq![Seq::<char>::empty()] + lines_of(s@.skip(i + 1)));
                lemma_cons_line_close(cur, lines_of(s@.skip(i + 1)));
            }
            let ghost old_r = r.deep_view();
            r.push(line);
            proof {
                assert(r.deep_view() =~~= old_r.push(cur));
                assert(s@.subrange(i + 1, i + 1) =~= Seq::<char>::empty());
                lemma_cons_line_nil(lines_of(s@.skip(i + 1)));
                assert(r.deep_view() + cons_line(
                    s@.subrange(i + 1, i + 1),
                    lines_of(s@.skip(i + 1)),
                ) =~~= (old_r + (seq![cur] + lines_of(s@.skip(i + 1)))));
                assert(old_r + (seq![cur] + lines_of(s@.skip(i + 1))) =~~= (old_r + seq![cur])
                    + lines_of(s@.skip(i + 1)));
                assert((old_r + seq![cur]) + lines_of(s@.skip(i + 1)) =~~= old_r + cons_line(
                    cur,
                    lines_of(rest),
                ));
            }
            start = i + 1;
            i = i + 1;
        } else if c == '\r' && i + 1 < n && s.get_char(i + 1) == '\n' {
            proof {
                assert(rest.len() >= 2);
                assert(rest[1] == s@[i + 1]);
            }
            let piece = s.substring_char(start, i);
            let line = piece.to_owned();
            proof {
                assert(rest.skip(2) =~= s@.skip(i + 2));
                assert(lines_of(rest) == seq![Seq::<char>::empty()] + lines_of(s@.skip(i + 2)));
                lemma_cons_line_close(cur, lines_of(s@.skip(i + 2)));
            }
            let ghost old_r = r.deep_view();
            r.push(line);
            proof {
                assert(r.deep_view() =~~= old_r.push(cur));
                assert(s@.subrange(i + 2, i + 2) =~= Seq::<char>::empty());
                lemma_cons_line_nil(lines_of(s@.skip(i + 2)));
                assert(r.deep_view() + cons_line(
                    s@.subrange(i + 2, i + 2),
                    lines_of(s@.skip(i + 2)),
                ) =~~= old_r + (seq![cur] + lines_of(s@.skip(i + 2))));
                assert(old_r + (seq![cur] + lines_of(s@.skip(i + 2))) =~~= old_r + cons_line(
                    cur,
                    lines_of(rest),
                ));
            }
            start = i + 2;
            i = i + 2;
        } else {
            proof {
                assert(lines_of(rest) == cons_line(seq![rest[0]], lines_of(rest.skip(1))));
                assert(rest.skip(1) =~= s@.skip(i + 1));
                lemma_cons_line_assoc(cur, seq![s@[i as int]], lines_of(s@.skip(i + 1)));
                assert(cur + seq![s@[i as int]] =~= s@.subrange(start as int, i + 1));
            }
            i = i + 1;
        }
    }
    let ghost cur = s@.subrange(start as int, n as int);
    proof {
        assert(s@.skip(n as int) =~= Seq::<char>::empty());
        assert(lines_of(s@.skip(n as int)) == Seq::<Seq<char>>::empty());
    }
    if start < n {
        let piece = s.substring_char(start, n);
        let line = piece.to_owned();
        let ghost old_r = r.deep_view();
        r.push(line);
        proof {
            assert(cons_line(cur, Seq::<Seq<char>>::empty()) == seq![cur]);
            assert(r.deep_view() =~~= old_r.push(cur));
            assert(r.deep_view() =~~= old_r + seq![cur]);
        }
    } else {
        proof {
            assert(cur.len() == 0);
            assert(cons_line(cur, Seq::<Seq<char>>::empty()) == Seq::<Seq<char>>::empty());
            assert(r.deep_view() + Seq::<Seq<char>>::empty() =~~= r.deep_view());
        }
    }
    r
}

/// Character-for-character string equality.
pub fn str_eq(a: &str, b: &str) -> (r: bool)
    ensures
        r == (a@ == b@),
{
    let na = a.unicode_len();
    let nb = b.unicode_len();
    if na != nb {
        proof {
            assert(a@ != b@) by {
                if a@ == b@ {
                    assert(a@.len() == b@.len());
                }
            }
        }
        return false;
    }
    let mut i: usize = 0;
    while i < na
        invariant
            na == a@.len(),
            na == b@.len(),
            i <= na,
            forall|k: int| 0 <= k < i ==> a@[k] == b@[k],
        decreases na - i,
    {
        let ca = a.get_char(i);
        let cb = b.get_char(i);
        if ca != cb {
            proof {
                assert(a@ != b@) by {
                    if a@ == b@ {
                        assert(a@[i as int] == b@[i as int]);
                    }
                }
            }
            return false;
        }
        i += 1;
    }
    proof {
        assert(a@ =~= b@);
    }
    true
}

/// ASCII whitespace.
pub open spec fn is_space(c: char) -> bool {
    c == ' ' || c == '\t' || c == '\r' || c == '\n' || c == '\u{c}'
}

/// `s` without its leading and trailing ASCII whitespace.
pub open spec fn trim_spec(s: Seq<char>) -> Seq<char>
    decreases s.len(),
{
    if s.len() == 0 {
        s
    } else if is_space(s[0]) {
        trim_spec(s.skip(1))
    } else if is_space(s.last()) {
        trim_spec(s.drop_last())
    } else {
        s
    }
}

fn is_space_char(c: char) -> (r: bool)
    ensures
        r == is_space(c),
{
    c == ' ' || c == '\t' || c == '\r' || c == '\n' || c == '\u{c}'
}

/// Removes leading and trailing ASCII whitespace.
pub fn trim(s: &str) -> (r: String)
    ensures
        r@ == trim_spec(s@),
{
    let n = s.unicode_len();
    let mut a: usize = 0;
    proof {
        assert(s@.subrange(0, n as int) =~= s@);
    }
    while a < n && is_space_char(s.get_char(a))
        invariant
            n == s@.len(),
            a <= n,
            trim_spec(s@) == trim_spec(s@.subrange(a as int, n as int)),
        decreases n - a,
    {
        proof {
            let part = s@.subrange(a as int, n as int);
            assert(part[0] == s@[a as int]);
            assert(part.skip(1) =~= s@.subrange(a + 1, n as int));
        }
        a += 1;
    }
    let mut b: usize = n;
    while b > a && is_space_char(s.get_char(b - 1))
        invariant
            n == s@.len(),
            a <= b <= n,
            a == n || !is_space(s@[a as int]),
            trim_spec(s@) == trim_spec(s@.subrange(a as int, b as int)),
        decreases b,
    {
        proof {
            let part = s@.subrange(a as int, b as int);
            assert(part[0] == s@[a as int]);
            assert(part.last() == s@[b - 1]);
            assert(part.drop_last() =~= s@.subrange(a as int, b - 1));
        }
        b -= 1;
    }
    proof {
        let part = s@.subrange(a as int, b as int);
        if part.len() > 0 {
            assert(part[0] == s@[a as int]);
            assert(part.last() == s@[b - 1]);
        }
        assert(trim_spec(part) == part);
    }
    let piece = s.substring_char(a, b);
    piece.to_owned()
}

/// The position of the last occurrence of `c` in `s`, or -1 when `c` does not
/// occur.
pub open spec fn last_index_of(s: Seq<char>, c: char) -> int
    decreases s.len(),
{
    if s.len() == 0 {
        -1
    } else if s.last() == c {
        s.len() - 1
    } else {
        last_index_of(s.drop_last(), c)
    }
}

/// `last_index_of` is a position in `s` or -1, and marks an occurrence.
pub proof fn lemma_last_index_of_bounds(s: Seq<char>, c: char)
    ensures
        -1 <= last_index_of(s, c) < s.len(),
        last_index_of(s, c) >= 0 ==> s[last_index_of(s, c)] == c,
    decreases s.len(),
{
    if s.len() == 0 {
    } else if s.last() == c {
    } else {
        lemma_last_index_of_bounds(s.drop_last(), c);
    }
}

/// Finds the last occurrence of `c` in `s`.
pub fn find_last(s: &str, c: char) -> (r: Option<usize>)
    ensures
        r is Some ==> r->Some_0 == last_index_of(s@, c),
        r is None ==> last_index_of(s@, c) == -1,
{
    let n = s.unicode_len();
    let mut i: usize = n;
    proof {
        assert(s@.subrange(0, n as int) =~= s@);
    }
    while i > 0
        invariant
            n == s@.len(),
            i <= n,
            last_index_of(s@, c) == last_index_of(s@.subrange(0, i as int), c),
        decreases i,
    {
        let ghost part = s@.subrange(0, i as int);
        proof {
            assert(part.last() == s@[i - 1]);
        }
        if s.get_char(i - 1) == c {
            return Some(i - 1);
        }
        proof {
            assert(part.drop_last() =~= s@.subrange(0, i - 1));
        }
        i -= 1;
    }
    proof {
        assert(s@.subrange(0, 0) =~= Seq::<char>::empty());
    }
    None
}

} // verus!
