//! Character and line level text primitives shared by the other modules.
//!
//! All text is modelled as `Seq<char>`; compiled code works on `Vec<char>` and
//! converts from and to `String` at the public surface.

use vstd::prelude::*;

verus! {

/// The line separator.
pub open spec fn newline() -> Seq<char> {
    seq!['\n']
}

/// True for the code points that carry the Unicode `White_Space` property.
pub open spec fn is_whitespace(c: char) -> bool {
    ||| '\u{9}' <= c <= '\u{d}'
    ||| c == ' '
    ||| c == '\u{85}'
    ||| c == '\u{a0}'
    ||| c == '\u{1680}'
    ||| '\u{2000}' <= c <= '\u{200a}'
    ||| c == '\u{2028}'
    ||| c == '\u{2029}'
    ||| c == '\u{202f}'
    ||| c == '\u{205f}'
    ||| c == '\u{3000}'
}

/// True for `0` to `9`.
pub open spec fn is_digit(c: char) -> bool {
    '0' <= c <= '9'
}

/// The value of a decimal digit.
pub open spec fn digit_value(c: char) -> int {
    c as u32 - '0' as u32
}

/// A line is blank when it holds nothing but white space.
pub open spec fn is_blank(s: Seq<char>) -> bool {
    forall|i: int| 0 <= i < s.len() ==> is_whitespace(#[trigger] s[i])
}

/// `s` without its leading white space.
pub open spec fn trim_start(s: Seq<char>) -> Seq<char>
    decreases s.len(),
{
    if s.len() > 0 && is_whitespace(s[0]) {
        trim_start(s.drop_first())
    } else {
        s
    }
}

/// `s` without its trailing white space.
pub open spec fn trim_end(s: Seq<char>) -> Seq<char>
    decreases s.len(),
{
    if s.len() > 0 && is_whitespace(s.last()) {
        trim_end(s.drop_last())
    } else {
        s
    }
}

/// `s` without white space at either end.
pub open spec fn trim(s: Seq<char>) -> Seq<char> {
    trim_end(trim_start(s))
}

/// The index of the first line break in `s`, or `s.len()` when there is none.
pub open spec fn first_newline(s: Seq<char>) -> int
    decreases s.len(),
{
    if s.len() == 0 || s[0] == '\n' {
        0
    } else {
        1 + first_newline(s.drop_first())
    }
}

/// True when `s` holds no line break.
pub open spec fn is_line(s: Seq<char>) -> bool {
    forall|i: int| 0 <= i < s.len() ==> #[trigger] s[i] != '\n'
}

/// True when every element of `lines` is free of line breaks.
pub open spec fn all_lines(lines: Seq<Seq<char>>) -> bool {
    forall|i: int| 0 <= i < lines.len() ==> is_line(#[trigger] lines[i])
}

/// The lines of `s`: the pieces between its line breaks. A text without a
/// line break is one line, so the result is never empty.
pub open spec fn split_lines(s: Seq<char>) -> Seq<Seq<char>>
    decreases s.len(),
{
    let i = first_newline(s);
    if 0 <= i < s.len() {
        seq![s.subrange(0, i)] + split_lines(s.subrange(i + 1, s.len() as int))
    } else {
        seq![s]
    }
}

/// `lines` put together with one line break between neighbours.
pub open spec fn join_lines(lines: Seq<Seq<char>>) -> Seq<char>
    decreases lines.len(),
{
    if lines.len() == 0 {
        Seq::empty()
    } else if lines.len() == 1 {
        lines[0]
    } else {
        lines[0] + newline() + join_lines(lines.drop_first())
    }
}

/// The index of the first `c` in `s`, or `s.len()` when there is none.
pub open spec fn find_char(s: Seq<char>, c: char) -> int
    decreases s.len(),
{
    if s.len() == 0 || s[0] == c {
        0
    } else {
        1 + find_char(s.drop_first(), c)
    }
}

/// The index of the first white space in `s`, or `s.len()` when there is none.
pub open spec fn find_whitespace(s: Seq<char>) -> int
    decreases s.len(),
{
    if s.len() == 0 || is_whitespace(s[0]) {
        0
    } else {
        1 + find_whitespace(s.drop_first())
    }
}

/// The view of a text that may be absent.
pub open spec fn text_option_view(text: Option<String>) -> Option<Seq<char>> {
    match text {
        Some(t) => Some(t@),
        None => None,
    }
}

/// The views of a vector of lines.
pub open spec fn lines_view(lines: Seq<Vec<char>>) -> Seq<Seq<char>> {
    Seq::new(lines.len(), |i: int| lines[i]@)
}

/// The first line break is where the first line ends.
pub proof fn lemma_first_newline(s: Seq<char>)
    ensures
        0 <= first_newline(s) <= s.len(),
        first_newline(s) < s.len() ==> s[first_newline(s)] == '\n',
        is_line(s.subrange(0, first_newline(s))),
        is_line(s) <==> first_newline(s) == s.len(),
    decreases s.len(),
{
    if s.len() == 0 || s[0] == '\n' {
    } else {
        let t = s.drop_first();
        lemma_first_newline(t);
        let k = first_newline(s);
        assert forall|i: int| 0 <= i < k implies #[trigger] s.subrange(0, k)[i] != '\n' by {
            if i > 0 {
                assert(t.subrange(0, k - 1)[i - 1] == s[i]);
            }
        }
        if is_line(s) {
            assert forall|i: int| 0 <= i < t.len() implies #[trigger] t[i] != '\n' by {
                assert(t[i] == s[i + 1]);
            }
        }
        if k == s.len() {
            assert forall|i: int| 0 <= i < s.len() implies #[trigger] s[i] != '\n' by {
                assert(s.subrange(0, k)[i] == s[i]);
            }
        }
    }
}

/// Splitting yields at least one piece, and no piece holds a line break.
pub proof fn lemma_split_lines_are_lines(s: Seq<char>)
    ensures
        split_lines(s).len() >= 1,
        all_lines(split_lines(s)),
    decreases s.len(),
{
    lemma_first_newline(s);
    let i = first_newline(s);
    if 0 <= i < s.len() {
        let rest = s.subrange(i + 1, s.len() as int);
        lemma_split_lines_are_lines(rest);
        let out = split_lines(s);
        assert forall|k: int| 0 <= k < out.len() implies is_line(#[trigger] out[k]) by {
            if k > 0 {
                assert(out[k] == split_lines(rest)[k - 1]);
            }
        }
    }
}

/// A text without a line break is its own single line.
pub proof fn lemma_split_single_line(s: Seq<char>)
    requires
        is_line(s),
    ensures
        split_lines(s) == seq![s],
{
    lemma_first_newline(s);
}

/// Splitting `head`, a line break and `tail` gives `head` and then the lines of `tail`.
pub proof fn lemma_split_cons(head: Seq<char>, tail: Seq<char>)
    requires
        is_line(head),
    ensures
        split_lines(head + newline() + tail) == seq![head] + split_lines(tail),
{
    let s = head + newline() + tail;
    lemma_first_newline(s);
    let i = first_newline(s);
    assert(s[head.len() as int] == '\n');
    if i < head.len() {
        assert(s[i] == head[i]);
    }
    if i > head.len() {
        assert(s.subrange(0, i)[head.len() as int] == '\n');
    }
    assert(i == head.len());
    assert(s.subrange(0, i) =~= head);
    assert(s.subrange(i + 1, s.len() as int) =~= tail);
}

/// Joining lines and splitting the result gives the lines back.
pub proof fn lemma_split_join(lines: Seq<Seq<char>>)
    requires
        lines.len() >= 1,
        all_lines(lines),
    ensures
        split_lines(join_lines(lines)) == lines,
    decreases lines.len(),
{
    if lines.len() == 1 {
        lemma_split_single_line(lines[0]);
        assert(seq![lines[0]] =~= lines);
    } else {
        let rest = lines.drop_first();
        assert forall|i: int| 0 <= i < rest.len() implies is_line(#[trigger] rest[i]) by {
            assert(rest[i] == lines[i + 1]);
        }
        lemma_split_join(rest);
        lemma_split_cons(lines[0], join_lines(rest));
        assert(seq![lines[0]] + rest =~= lines);
    }
}

/// Splitting a text and joining the lines gives the text back.
pub proof fn lemma_join_split(s: Seq<char>)
    ensures
        join_lines(split_lines(s)) == s,
    decreases s.len(),
{
    lemma_first_newline(s);
    let i = first_newline(s);
    if 0 <= i < s.len() {
        let rest = s.subrange(i + 1, s.len() as int);
        lemma_join_split(rest);
        lemma_split_lines_are_lines(rest);
        let out = split_lines(s);
        assert(out.drop_first() =~= split_lines(rest));
        assert(s.subrange(0, i) + newline() + rest =~= s);
    }
}

/// Joining two non-empty runs of lines joins each and puts a line break between.
pub proof fn lemma_join_concat(a: Seq<Seq<char>>, b: Seq<Seq<char>>)
    requires
        a.len() >= 1,
        b.len() >= 1,
    ensures
        join_lines(a + b) == join_lines(a) + newline() + join_lines(b),
    decreases a.len(),
{
    let ab = a + b;
    assert(ab[0] == a[0]);
    if a.len() == 1 {
        assert(ab.drop_first() =~= b);
    } else {
        lemma_join_concat(a.drop_first(), b);
        assert(ab.drop_first() =~= a.drop_first() + b);
        assert(a[0] + newline() + (join_lines(a.drop_first()) + newline() + join_lines(b)) =~= (a[0]
            + newline() + join_lines(a.drop_first())) + newline() + join_lines(b));
    }
}

/// `String::push`: appends one character to the end of the string.
#[verifier::external_body]
fn push_char(s: &mut String, c: char)
    ensures
        final(s)@ == old(s)@.push(c),
{
    s.push(c);
}

/// The characters of `s`, in order.
pub(crate) fn chars_of(s: &str) -> (out: Vec<char>)
    ensures
        out@ == s@,
{
    let mut out: Vec<char> = Vec::new();
    for c in it: s.chars()
        invariant
            out@ == it.seq().take(it.index()),
            it.seq() == s@,
    {
        out.push(c);
    }
    out
}

/// The string made of the characters of `v`, in order.
pub(crate) fn string_of(v: &Vec<char>) -> (s: String)
    ensures
        s@ == v@,
{
    let mut s = String::new();
    let mut i: usize = 0;
    while i < v.len()
        invariant
            i <= v.len(),
            s@ == v@.take(i as int),
        decreases v.len() - i,
    {
        push_char(&mut s, v[i]);
        i += 1;
        assert(v@.take(i as int) =~= v@.take(i - 1).push(v@[i - 1]));
    }
    assert(v@.take(v.len() as int) =~= v@);
    s
}

/// Appends the characters of `src` to `dst`.
pub(crate) fn push_all(dst: &mut Vec<char>, src: &Vec<char>)
    ensures
        final(dst)@ == old(dst)@ + src@,
{
    let mut i: usize = 0;
    while i < src.len()
        invariant
            i <= src.len(),
            dst@ == old(dst)@ + src@.take(i as int),
        decreases src.len() - i,
    {
        dst.push(src[i]);
        i += 1;
        assert(src@.take(i as int) =~= src@.take(i - 1).push(src@[i - 1]));
        assert(old(dst)@ + src@.take(i - 1).push(src@[i - 1]) =~= (old(dst)@ + src@.take(i - 1)).push(
            src@[i - 1],
        ));
    }
    assert(src@.take(src.len() as int) =~= src@);
}

/// The characters of `v` from index `from` up to, not including, `to`.
pub(crate) fn copy_range(v: &Vec<char>, from: usize, to: usize) -> (out: Vec<char>)
    requires
        from <= to <= v.len(),
    ensures
        out@ == v@.subrange(from as int, to as int),
{
    let mut out: Vec<char> = Vec::new();
    let mut i: usize = from;
    while i < to
        invariant
            from <= i <= to <= v.len(),
            out@ == v@.subrange(from as int, i as int),
        decreases to - i,
    {
        out.push(v[i]);
        i += 1;
        assert(v@.subrange(from as int, i as int) =~= v@.subrange(from as int, i - 1).push(
            v@[i - 1],
        ));
    }
    out
}

/// Tells whether `c` is white space.
pub(crate) fn char_is_whitespace(c: char) -> (r: bool)
    ensures
        r == is_whitespace(c),
{
    ('\u{9}' <= c && c <= '\u{d}') || c == ' ' || c == '\u{85}' || c == '\u{a0}' || c == '\u{1680}'
        || ('\u{2000}' <= c && c <= '\u{200a}') || c == '\u{2028}' || c == '\u{2029}' || c
        == '\u{202f}' || c == '\u{205f}' || c == '\u{3000}'
}

/// Tells whether `c` is a decimal digit.
pub(crate) fn char_is_digit(c: char) -> (r: bool)
    ensures
        r == is_digit(c),
{
    '0' <= c && c <= '9'
}

/// Trimming the start drops exactly the leading run of white space.
pub proof fn lemma_trim_start_is_skip(s: Seq<char>, n: int)
    requires
        0 <= n <= s.len(),
        forall|i: int| 0 <= i < n ==> is_whitespace(#[trigger] s[i]),
        n < s.len() ==> !is_whitespace(s[n]),
    ensures
        trim_start(s) == s.skip(n),
    decreases n,
{
    if n == 0 {
        assert(s.skip(0) =~= s);
    } else {
        let t = s.drop_first();
        assert forall|i: int| 0 <= i < n - 1 implies is_whitespace(#[trigger] t[i]) by {
            assert(t[i] == s[i + 1]);
        }
        lemma_trim_start_is_skip(t, n - 1);
        assert(t.skip(n - 1) =~= s.skip(n));
    }
}

/// Trimming the end keeps exactly what precedes the trailing run of white space.
pub proof fn lemma_trim_end_is_take(s: Seq<char>, n: int)
    requires
        0 <= n <= s.len(),
        forall|i: int| n <= i < s.len() ==> is_whitespace(#[trigger] s[i]),
        n > 0 ==> !is_whitespace(s[n - 1]),
    ensures
        trim_end(s) == s.take(n),
    decreases s.len() - n,
{
    if n == s.len() {
        assert(s.take(n) =~= s);
    } else {
        let t = s.drop_last();
        lemma_trim_end_is_take(t, n);
        assert(t.take(n) =~= s.take(n));
    }
}

/// Tells whether `v` holds nothing but white space.
pub(crate) fn line_is_blank(v: &Vec<char>) -> (r: bool)
    ensures
        r == is_blank(v@),
{
    let mut i: usize = 0;
    while i < v.len()
        invariant
            i <= v.len(),
            forall|k: int| 0 <= k < i ==> is_whitespace(#[trigger] v@[k]),
        decreases v.len() - i,
    {
        if !char_is_whitespace(v[i]) {
            return false;
        }
        i += 1;
    }
    true
}

/// The first line break of `s` is at `m` when nothing before `m` is one and
/// `m` is one or the end.
pub proof fn lemma_first_newline_at(s: Seq<char>, m: int)
    requires
        0 <= m <= s.len(),
        forall|i: int| 0 <= i < m ==> #[trigger] s[i] != '\n',
        m < s.len() ==> s[m] == '\n',
    ensures
        first_newline(s) == m,
{
    lemma_first_newline(s);
    let k = first_newline(s);
    if k < m {
        assert(s[k] == '\n');
    }
    if k > m {
        assert(s.subrange(0, k)[m] == s[m]);
    }
}

/// The lines of `v`.
pub(crate) fn lines_of(v: &Vec<char>) -> (out: Vec<Vec<char>>)
    ensures
        lines_view(out@) == split_lines(v@),
{
    let mut out: Vec<Vec<char>> = Vec::new();
    let mut pos: usize = 0;
    let n = v.len();
    proof {
        assert(v@.subrange(0, n as int) =~= v@);
        assert(lines_view(out@) + split_lines(v@) =~= split_lines(v@));
    }
    loop
        invariant_except_break
            pos <= n == v.len(),
            split_lines(v@) == lines_view(out@) + split_lines(v@.subrange(pos as int, n as int)),
        ensures
            lines_view(out@) == split_lines(v@),
        decreases n - pos,
    {
        let mut j: usize = pos;
        while j < n && v[j] != '\n'
            invariant
                pos <= j <= n == v.len(),
                forall|i: int| pos <= i < j ==> #[trigger] v@[i] != '\n',
            decreases n - j,
        {
            j += 1;
        }
        let line = copy_range(v, pos, j);
        let ghost rest = v@.subrange(pos as int, n as int);
        let ghost before = lines_view(out@);
        proof {
            assert forall|i: int| 0 <= i < j - pos implies #[trigger] rest[i] != '\n' by {
                assert(rest[i] == v@[pos + i]);
            }
            lemma_first_newline_at(rest, j - pos);
            assert(rest.subrange(0, j - pos) =~= line@);
        }
        out.push(line);
        assert(lines_view(out@) =~= before + seq![line@]);
        if j == n {
            proof {
                assert(split_lines(rest) == seq![rest]);
                assert(rest =~= line@);
            }
            break ;
        }
        proof {
            assert(rest.subrange(j - pos + 1, rest.len() as int) =~= v@.subrange(
                j + 1,
                n as int,
            ));
            assert(before + (seq![line@] + split_lines(v@.subrange(j + 1, n as int))) =~= (before
                + seq![line@]) + split_lines(v@.subrange(j + 1, n as int)));
        }
        pos = j + 1;
    }
    out
}

/// The lines `lines[from..to]` put together with line breaks between them.
pub(crate) fn join_range(lines: &Vec<Vec<char>>, from: usize, to: usize) -> (out: Vec<char>)
    requires
        from <= to <= lines.len(),
    ensures
        out@ == join_lines(lines_view(lines@).subrange(from as int, to as int)),
{
    let mut out: Vec<char> = Vec::new();
    let ghost all = lines_view(lines@);
    let mut i: usize = from;
    while i < to
        invariant
            from <= i <= to <= lines.len(),
            all == lines_view(lines@),
            out@ == join_lines(all.subrange(from as int, i as int)),
        decreases to - i,
    {
        let ghost done = all.subrange(from as int, i as int);
        if i > from {
            out.push('\n');
        }
        push_all(&mut out, &lines[i]);
        proof {
            let next = all.subrange(from as int, i + 1);
            assert(next =~= done + seq![all[i as int]]);
            assert(all[i as int] == lines@[i as int]@);
            if i > from {
                lemma_join_concat(done, seq![all[i as int]]);
                assert(join_lines(done) + newline() + all[i as int] =~= join_lines(done).push('\n')
                    + all[i as int]);
            } else {
                assert(done =~= Seq::<Seq<char>>::empty());
                assert(next =~= seq![all[i as int]]);
            }
        }
        i += 1;
    }
    out
}

/// The first `c` of `s` is at `m` when nothing before `m` is `c` and `m` is
/// `c` or the end.
pub proof fn lemma_find_char_at(s: Seq<char>, c: char, m: int)
    requires
        0 <= m <= s.len(),
        forall|i: int| 0 <= i < m ==> #[trigger] s[i] != c,
        m < s.len() ==> s[m] == c,
    ensures
        find_char(s, c) == m,
    decreases m,
{
    if m > 0 {
        let t = s.drop_first();
        assert(s[0] != c);
        assert forall|i: int| 0 <= i < m - 1 implies #[trigger] t[i] != c by {
            assert(t[i] == s[i + 1]);
        }
        lemma_find_char_at(t, c, m - 1);
    }
}

/// The first white space of `s` is at `m` when nothing before `m` is white
/// space and `m` is white space or the end.
pub proof fn lemma_find_whitespace_at(s: Seq<char>, m: int)
    requires
        0 <= m <= s.len(),
        forall|i: int| 0 <= i < m ==> !is_whitespace(#[trigger] s[i]),
        m < s.len() ==> is_whitespace(s[m]),
    ensures
        find_whitespace(s) == m,
    decreases m,
{
    if m > 0 {
        let t = s.drop_first();
        assert(!is_whitespace(s[0]));
        assert forall|i: int| 0 <= i < m - 1 implies !is_whitespace(#[trigger] t[i]) by {
            assert(t[i] == s[i + 1]);
        }
        lemma_find_whitespace_at(t, m - 1);
    }
}

/// The index of the first `c` in `v`, or `v.len()` when there is none.
pub(crate) fn index_of_char(v: &Vec<char>, c: char) -> (m: usize)
    ensures
        m == find_char(v@, c),
        m <= v.len(),
{
    let mut m: usize = 0;
    while m < v.len() && v[m] != c
        invariant
            m <= v.len(),
            forall|i: int| 0 <= i < m ==> #[trigger] v@[i] != c,
        decreases v.len() - m,
    {
        m += 1;
    }
    proof {
        lemma_find_char_at(v@, c, m as int);
    }
    m
}

/// The index of the first white space in `v`, or `v.len()` when there is none.
pub(crate) fn index_of_whitespace(v: &Vec<char>) -> (m: usize)
    ensures
        m == find_whitespace(v@),
        m <= v.len(),
{
    let mut m: usize = 0;
    while m < v.len() && !char_is_whitespace(v[m])
        invariant
            m <= v.len(),
            forall|i: int| 0 <= i < m ==> !is_whitespace(#[trigger] v@[i]),
        decreases v.len() - m,
    {
        m += 1;
    }
    proof {
        lemma_find_whitespace_at(v@, m as int);
    }
    m
}

/// `v` without its leading white space.
pub(crate) fn trimmed_start(v: &Vec<char>) -> (out: Vec<char>)
    ensures
        out@ == trim_start(v@),
{
    let mut a: usize = 0;
    while a < v.len() && char_is_whitespace(v[a])
        invariant
            a <= v.len(),
            forall|i: int| 0 <= i < a ==> is_whitespace(#[trigger] v@[i]),
        decreases v.len() - a,
    {
        a += 1;
    }
    proof {
        lemma_trim_start_is_skip(v@, a as int);
    }
    copy_range(v, a, v.len())
}

/// `v` without its trailing white space.
pub(crate) fn trimmed_end(v: &Vec<char>) -> (out: Vec<char>)
    ensures
        out@ == trim_end(v@),
{
    let mut b: usize = v.len();
    while b > 0 && char_is_whitespace(v[b - 1])
        invariant
            b <= v.len(),
            forall|i: int| b <= i < v.len() ==> is_whitespace(#[trigger] v@[i]),
        decreases b,
    {
        b -= 1;
    }
    proof {
        lemma_trim_end_is_take(v@, b as int);
    }
    copy_range(v, 0, b)
}

/// `v` without white space at either end.
pub(crate) fn trimmed(v: &Vec<char>) -> (out: Vec<char>)
    ensures
        out@ == trim(v@),
{
    let start = trimmed_start(v);
    trimmed_end(&start)
}

} // verus!
