//! Character-level text utilities: splitting a file into lines, splitting a
//! list value on semicolons, and the executable string helpers the parser is
//! built on.

use vstd::prelude::*;
use vstd::string::*;

verus! {

/// Index of the first occurrence of `c` in `s`, or `s.len()` when `c` does
/// not occur.
pub open spec fn find_char(s: Seq<char>, c: char) -> int
    decreases s.len(),
{
    if s.len() == 0 {
        0
    } else if s[0] == c {
        0
    } else {
        1 + find_char(s.skip(1), c)
    }
}

pub proof fn lemma_find_char(s: Seq<char>, c: char)
    ensures
        0 <= find_char(s, c) <= s.len(),
        forall|j: int| 0 <= j < find_char(s, c) ==> s[j] != c,
        find_char(s, c) < s.len() ==> s[find_char(s, c)] == c,
    decreases s.len(),
{
    if s.len() != 0 && s[0] != c {
        lemma_find_char(s.skip(1), c);
        assert forall|j: int| 0 <= j < find_char(s, c) implies s[j] != c by {
            if j > 0 {
                assert(s.skip(1)[j - 1] == s[j]);
            }
        }
        if find_char(s, c) < s.len() {
            assert(s.skip(1)[find_char(s, c) - 1] == s[find_char(s, c)]);
        }
    }
}

/// `find_char` is the only index with the "first occurrence" shape.
pub proof fn lemma_find_char_is(s: Seq<char>, c: char, k: int)
    requires
        0 <= k <= s.len(),
        forall|j: int| 0 <= j < k ==> s[j] != c,
        k < s.len() ==> s[k] == c,
    ensures
        find_char(s, c) == k,
{
    lemma_find_char(s, c);
    let f = find_char(s, c);
    if f < k {
        assert(s[f] != c);
    }
    if f > k {
        assert(s[k] != c);
    }
}

/// Removes a single trailing carriage return, as line splitting does for
/// lines that end in a newline.
pub open spec fn strip_cr(s: Seq<char>) -> Seq<char> {
    if s.len() > 0 && s[s.len() - 1] == '\r' {
        s.drop_last()
    } else {
        s
    }
}

/// The lines of a text: maximal chunks separated by `'\n'`, each stripped of
/// one trailing `'\r'`; a final chunk without a newline is kept as it stands,
/// and a trailing newline produces no empty final line.
pub open spec fn split_lines(s: Seq<char>) -> Seq<Seq<char>>
    decreases s.len(),
{
    if s.len() == 0 {
        Seq::empty()
    } else {
        let k = find_char(s, '\n');
        if !(0 <= k < s.len()) {
            seq![s]
        } else {
            seq![strip_cr(s.take(k))] + split_lines(s.skip(k + 1))
        }
    }
}

/// The non-empty segments of a `';'`-separated list value, in order; empty
/// segments are dropped.
pub open spec fn split_semi(s: Seq<char>) -> Seq<Seq<char>>
    decreases s.len(),
{
    if s.len() == 0 {
        Seq::empty()
    } else {
        let k = find_char(s, ';');
        if !(0 <= k < s.len()) {
            seq![s]
        } else {
            let seg = s.take(k);
            let rest = split_semi(s.skip(k + 1));
            if seg.len() > 0 {
                seq![seg] + rest
            } else {
                rest
            }
        }
    }
}

/// Every segment that semicolon splitting yields is non-empty.
pub proof fn lemma_split_semi_segments_nonempty(s: Seq<char>)
    ensures
        forall|i: int| 0 <= i < split_semi(s).len() ==> split_semi(s)[i].len() > 0,
    decreases s.len(),
{
    if s.len() != 0 {
        let k = find_char(s, ';');
        if 0 <= k < s.len() {
            let seg = s.take(k);
            let rest = split_semi(s.skip(k + 1));
            lemma_split_semi_segments_nonempty(s.skip(k + 1));
            if seg.len() > 0 {
                assert forall|i: int| 0 <= i < split_semi(s).len() implies split_semi(s)[i].len()
                    > 0 by {
                    if i > 0 {
                        assert(split_semi(s)[i] == rest[i - 1]);
                    }
                }
            }
        }
    }
}

/// The Unicode lowercasing of a character sequence, as `str::to_lowercase`
/// computes it; it depends on the characters alone.
pub uninterp spec fn lower_of(s: Seq<char>) -> Seq<char>;

/// Relies on str::to_lowercase: the Unicode lowercase mapping of the
/// characters of `s`, a function of those characters alone.
#[verifier::external_body]
pub fn lowercase(s: &str) -> (r: String)
    ensures
        r@ == lower_of(s@),
{
    s.to_lowercase()
}

/// `s` starts with the prefix `p`.
pub open spec fn starts_with(s: Seq<char>, p: Seq<char>) -> bool {
    p.len() <= s.len() && s.subrange(0, p.len() as int) == p
}

/// Pushing onto a vector pushes the element's deep view onto the deep view.
pub proof fn lemma_deep_view_push<T: DeepView>(a: Vec<T>, b: Vec<T>, x: T)
    requires
        b@ == a@.push(x),
    ensures
        b.deep_view() == a.deep_view().push(x.deep_view()),
{
    assert(b.deep_view() =~= a.deep_view().push(x.deep_view()));
}

/// Character-for-character string equality, decided over the views.
pub fn str_eq(a: &str, b: &str) -> (r: bool)
    ensures
        r == (a@ == b@),
{
    let n = a.unicode_len();
    if n != b.unicode_len() {
        return false;
    }
    let mut i: usize = 0;
    while i < n
        invariant
            n == a@.len(),
            n == b@.len(),
            0 <= i <= n,
            forall|j: int| 0 <= j < i ==> a@[j] == b@[j],
        decreases n - i,
    {
        if a.get_char(i) != b.get_char(i) {
            return false;
        }
        i += 1;
    }
    proof {
        assert(a@ =~= b@);
    }
    true
}

/// Whether `s` starts with `p`, decided over the views.
pub fn str_has_prefix(s: &str, p: &str) -> (r: bool)
    ensures
        r == starts_with(s@, p@),
{
    let n = s.unicode_len();
    let m = p.unicode_len();
    if m > n {
        return false;
    }
    let mut i: usize = 0;
    while i < m
        invariant
            n == s@.len(),
            m == p@.len(),
            m <= n,
            0 <= i <= m,
            forall|j: int| 0 <= j < i ==> s@[j] == p@[j],
        decreases m - i,
    {
        if s.get_char(i) != p.get_char(i) {
            proof {
                assert(s@.subrange(0, p@.len() as int)[i as int] != p@[i as int]);
            }
            return false;
        }
        i += 1;
    }
    proof {
        assert(s@.subrange(0, p@.len() as int) =~= p@);
    }
    true
}

/// The owned suffix of `s` from character position `k` on.
pub fn tail_of(s: &str, k: usize) -> (r: String)
    requires
        k <= s@.len(),
    ensures
        r@ == s@.skip(k as int),
{
    let n = s.unicode_len();
    let t = s.substring_char(k, n);
    t.to_owned()
}

/// Splits a text into its lines, mirroring `split_lines`.
pub fn lines_of<'a>(s: &'a str) -> (r: Vec<&'a str>)
    ensures
        r.deep_view() == split_lines(s@),
{
    let n = s.unicode_len();
    let mut out: Vec<&'a str> = Vec::new();
    let mut pos: usize = 0;
    proof {
        assert(s@.skip(0) =~= s@);
        assert(out.deep_view() + split_lines(s@) =~= split_lines(s@));
    }
    while pos < n
        invariant
            n == s@.len(),
            0 <= pos <= n,
            split_lines(s@) == out.deep_view() + split_lines(s@.skip(pos as int)),
        decreases n - pos,
    {
        let ghost rest = s@.skip(pos as int);
        let mut j: usize = pos;
        while j < n && s.get_char(j) != '\n'
            invariant
                n == s@.len(),
                pos <= j <= n,
                forall|t: int| pos <= t < j ==> s@[t] != '\n',
            decreases n - j,
        {
            j += 1;
        }
        proof {
            assert forall|t: int| 0 <= t < j - pos implies rest[t] != '\n' by {
                assert(rest[t] == s@[pos + t]);
            }
            if (j as int) - (pos as int) < rest.len() {
                assert(rest[j - pos] == s@[j as int]);
            }
            lemma_find_char_is(rest, '\n', j - pos);
        }
        let ghost out0 = out;
        if j == n {
            // no further newline: the rest is one final line, kept as it is
            let line = s.substring_char(pos, n);
            out.push(line);
            proof {
                lemma_deep_view_push(out0, out, line);
                assert(line@ =~= rest);
                assert(split_lines(rest) =~= seq![rest]);
                assert(out.deep_view() + split_lines(s@.skip(n as int)) =~= out0.deep_view()
                    + split_lines(rest));
            }
            pos = n;
        } else {
            // a newline at j ends the line; strip one '\r' before it
            let line_end = if j > pos && s.get_char(j - 1) == '\r' {
                j - 1
            } else {
                j
            };
            let line = s.substring_char(pos, line_end);
            out.push(line);
            proof {
                lemma_deep_view_push(out0, out, line);
                let k = j - pos;
                assert(rest.take(k as int) =~= s@.subrange(pos as int, j as int));
                if j > pos && s@[j - 1] == '\r' {
                    assert(line@ =~= strip_cr(rest.take(k as int)));
                } else {
                    assert(line@ =~= strip_cr(rest.take(k as int)));
                }
                assert(rest.skip(k + 1) =~= s@.skip(j + 1));
                assert(split_lines(rest) == seq![strip_cr(rest.take(k as int))] + split_lines(
                    rest.skip(k + 1),
                ));
                assert(out0.deep_view() + split_lines(rest) =~= out.deep_view() + split_lines(
                    s@.skip(j + 1),
                ));
            }
            pos = j + 1;
        }
    }
    proof {
        assert(s@.skip(pos as int) =~= Seq::<char>::empty());
        assert(out.deep_view() + split_lines(s@.skip(pos as int)) =~= out.deep_view());
    }
    out
}

/// Splits a `';'`-separated list value into its non-empty segments,
/// mirroring `split_semi`.
pub fn split_list(s: &str) -> (r: Vec<String>)
    ensures
        r.deep_view() == split_semi(s@),
{
    let n = s.unicode_len();
    let mut out: Vec<String> = Vec::new();
    let mut pos: usize = 0;
    proof {
        assert(s@.skip(0) =~= s@);
        assert(out.deep_view() + split_semi(s@) =~= split_semi(s@));
    }
    while pos < n
        invariant
            n == s@.len(),
            0 <= pos <= n,
            split_semi(s@) == out.deep_view() + split_semi(s@.skip(pos as int)),
        decreases n - pos,
    {
        let ghost rest = s@.skip(pos as int);
        let mut j: usize = pos;
        while j < n && s.get_char(j) != ';'
            invariant
                n == s@.len(),
                pos <= j <= n,
                forall|t: int| pos <= t < j ==> s@[t] != ';',
            decreases n - j,
        {
            j += 1;
        }
        proof {
            assert forall|t: int| 0 <= t < j - pos implies rest[t] != ';' by {
                assert(rest[t] == s@[pos + t]);
            }
            if (j as int) - (pos as int) < rest.len() {
                assert(rest[j - pos] == s@[j as int]);
            }
            lemma_find_char_is(rest, ';', j - pos);
        }
        let ghost out0 = out;
        if j == n {
            // no further separator: the rest is one final segment
            let seg = s.substring_char(pos, n).to_owned();
            out.push(seg);
            proof {
                lemma_deep_view_push(out0, out, seg);
                assert(seg@ =~= rest);
                assert(split_semi(rest) =~= seq![rest]);
                assert(out.deep_view() + split_semi(s@.skip(n as int)) =~= out0.deep_view()
                    + split_semi(rest));
            }
            pos = n;
        } else {
            if j > pos {
                let seg = s.substring_char(pos, j).to_owned();
                out.push(seg);
                proof {
                    lemma_deep_view_push(out0, out, seg);
                }
            }
            proof {
                let k = j - pos;
                assert(rest.take(k as int) =~= s@.subrange(pos as int, j as int));
                assert(rest.skip(k + 1) =~= s@.skip(j + 1));
                if j > pos {
                    assert(out0.deep_view() + split_semi(rest) =~= out.deep_view() + split_semi(
                        s@.skip(j + 1),
                    ));
                } else {
                    assert(rest.take(k as int).len() == 0);
                    assert(out0.deep_view() + split_semi(rest) =~= out.deep_view() + split_semi(
                        s@.skip(j + 1),
                    ));
                }
            }
            pos = j + 1;
        }
    }
    proof {
        assert(s@.skip(pos as int) =~= Seq::<char>::empty());
        assert(out.deep_view() + split_semi(s@.skip(pos as int)) =~= out.deep_view());
    }
    out
}

} // verus!
