//! Parsing of textual cell-pattern templates.
//!
//! A template is plain text: one row per line, one cell per character. The
//! characters `O`, `1` and `*` mark an alive cell; any other character marks
//! a dead one. Whitespace around the whole template (spaces, tabs, carriage
//! returns and newlines) is trimmed before parsing; interior lines are kept
//! verbatim, so a blank line between rows still occupies a row position but
//! covers no cells. A trailing carriage return is stripped from each line,
//! so templates with either line ending parse the same way.

use vstd::prelude::*;

verus! {

/// The whitespace characters trimmed from the ends of a template.
pub open spec fn is_ws(c: char) -> bool {
    c == ' ' || c == '\t' || c == '\r' || c == '\n'
}

/// True for the characters that mark an alive cell in a template.
pub open spec fn alive_mark(c: char) -> bool {
    c == 'O' || c == '1' || c == '*'
}

/// `s` without its leading whitespace.
pub open spec fn trim_start_spec(s: Seq<char>) -> Seq<char>
    decreases s.len(),
{
    if s.len() > 0 && is_ws(s[0]) {
        trim_start_spec(s.drop_first())
    } else {
        s
    }
}

/// `s` without its trailing whitespace.
pub open spec fn trim_end_spec(s: Seq<char>) -> Seq<char>
    decreases s.len(),
{
    if s.len() > 0 && is_ws(s[s.len() - 1]) {
        trim_end_spec(s.drop_last())
    } else {
        s
    }
}

/// `s` without leading and trailing whitespace.
pub open spec fn trim_spec(s: Seq<char>) -> Seq<char> {
    trim_end_spec(trim_start_spec(s))
}

/// The number of characters of `s` before its first newline (all of `s` if
/// it has none).
pub open spec fn line_break_at(s: Seq<char>) -> nat
    decreases s.len(),
{
    if s.len() == 0 {
        0
    } else if s[0] == '\n' {
        0
    } else {
        1 + line_break_at(s.drop_first())
    }
}

/// A line without its trailing carriage return, if it has one.
pub open spec fn strip_cr(l: Seq<char>) -> Seq<char> {
    if l.len() > 0 && l[l.len() - 1] == '\r' {
        l.drop_last()
    } else {
        l
    }
}

/// `s` split at its newlines, each line stripped of a trailing carriage
/// return. The empty text has no lines; no line holds a newline itself.
pub open spec fn split_lines_spec(s: Seq<char>) -> Seq<Seq<char>>
    decreases s.len(),
{
    if s.len() == 0 {
        Seq::empty()
    } else {
        let i = line_break_at(s) as int;
        if i >= s.len() {
            seq![strip_cr(s)]
        } else {
            seq![strip_cr(s.subrange(0, i))] + split_lines_spec(s.subrange(i + 1, s.len() as int))
        }
    }
}

/// The rows of a template: trim the outside whitespace, then split into
/// lines.
pub open spec fn pattern_rows(s: Seq<char>) -> Seq<Seq<char>> {
    split_lines_spec(trim_spec(s))
}

/// `line_break_at` names the first newline: everything before it is not a
/// newline, and the position itself (when inside `s`) is one.
proof fn lemma_line_break_at(s: Seq<char>)
    ensures
        line_break_at(s) <= s.len(),
        line_break_at(s) < s.len() ==> s[line_break_at(s) as int] == '\n',
        forall|j: int| 0 <= j < line_break_at(s) ==> s[j] != '\n',
    decreases s.len(),
{
    if s.len() > 0 && s[0] != '\n' {
        lemma_line_break_at(s.drop_first());
        assert forall|j: int| 0 <= j < line_break_at(s) implies s[j] != '\n' by {
            if j > 0 {
                assert(s.drop_first()[j - 1] == s[j]);
            }
        }
    }
}

/// A position with no newline before it, and a newline (or the end) at it,
/// is where `line_break_at` points.
proof fn lemma_line_break_at_is(s: Seq<char>, i: int)
    requires
        0 <= i <= s.len(),
        forall|j: int| 0 <= j < i ==> s[j] != '\n',
        i < s.len() ==> s[i] == '\n',
    ensures
        line_break_at(s) == i,
    decreases i,
{
    if i == 0 {
    } else {
        assert(s[0] != '\n');
        lemma_line_break_at_is(s.drop_first(), i - 1);
    }
}

/// Trimming the start removes exactly the leading run of whitespace.
proof fn lemma_trim_start_is(s: Seq<char>, b: int)
    requires
        0 <= b <= s.len(),
        forall|j: int| 0 <= j < b ==> is_ws(s[j]),
        b < s.len() ==> !is_ws(s[b]),
    ensures
        trim_start_spec(s) == s.subrange(b, s.len() as int),
    decreases b,
{
    if b == 0 {
        assert(s.subrange(0, s.len() as int) =~= s);
    } else {
        assert(is_ws(s[0]));
        lemma_trim_start_is(s.drop_first(), b - 1);
        assert(s.drop_first().subrange(b - 1, s.drop_first().len() as int) =~= s.subrange(
            b,
            s.len() as int,
        ));
    }
}

/// Trimming the end removes exactly the trailing run of whitespace.
proof fn lemma_trim_end_is(s: Seq<char>, e: int)
    requires
        0 <= e <= s.len(),
        forall|j: int| e <= j < s.len() ==> is_ws(s[j]),
        e > 0 ==> !is_ws(s[e - 1]),
    ensures
        trim_end_spec(s) == s.subrange(0, e),
    decreases s.len(),
{
    if e == s.len() {
        assert(s.subrange(0, e) =~= s);
    } else {
        assert(is_ws(s[s.len() - 1]));
        lemma_trim_end_is(s.drop_last(), e);
        assert(s.drop_last().subrange(0, e) =~= s.subrange(0, e));
    }
}

/// Exec check for [`is_ws`].
fn is_ws_char(c: char) -> (r: bool)
    ensures
        r == is_ws(c),
{
    c == ' ' || c == '\t' || c == '\r' || c == '\n'
}

/// Exec check for [`alive_mark`].
pub fn is_alive_mark(c: char) -> (r: bool)
    ensures
        r == alive_mark(c),
{
    c == 'O' || c == '1' || c == '*'
}

/// Parses a template into its rows of characters, exactly as
/// [`pattern_rows`] describes.
pub fn parse_pattern(pattern: &str) -> (rows: Vec<Vec<char>>)
    ensures
        rows@.len() == pattern_rows(pattern@).len(),
        forall|i: int| 0 <= i < rows@.len() ==> (#[trigger] rows@[i])@ == pattern_rows(pattern@)[i],
{
    let n = pattern.unicode_len();
    let mut start: usize = 0;
    while start < n && is_ws_char(pattern.get_char(start))
        invariant
            0 <= start <= n,
            n == pattern@.len(),
            forall|j: int| 0 <= j < start ==> is_ws(pattern@[j]),
        decreases n - start,
    {
        start = start + 1;
    }
    let mut end: usize = n;
    while end > start && is_ws_char(pattern.get_char(end - 1))
        invariant
            start <= end <= n,
            n == pattern@.len(),
            forall|j: int| end <= j < n ==> is_ws(pattern@[j]),
        decreases end,
    {
        end = end - 1;
    }
    let ghost t = pattern@.subrange(start as int, end as int);
    proof {
        lemma_trim_start_is(pattern@, start as int);
        let tail = pattern@.subrange(start as int, n as int);
        assert forall|j: int| (end - start) <= j < tail.len() implies is_ws(tail[j]) by {
            assert(tail[j] == pattern@[start + j]);
        }
        lemma_trim_end_is(tail, (end - start) as int);
        assert(tail.subrange(0, (end - start) as int) =~= t);
        assert(t == trim_spec(pattern@));
    }
    let mut rows: Vec<Vec<char>> = Vec::new();
    let ghost mut done = Seq::<Seq<char>>::empty();
    let mut pos: usize = start;
    proof {
        assert(t.skip(0) =~= t);
        assert(done + split_lines_spec(t) =~= split_lines_spec(t));
    }
    while pos < end
        invariant
            start <= pos <= end <= n,
            n == pattern@.len(),
            t == pattern@.subrange(start as int, end as int),
            rows@.len() == done.len(),
            forall|i: int| 0 <= i < done.len() ==> (#[trigger] rows@[i])@ == done[i],
            split_lines_spec(t) == done + split_lines_spec(t.skip(pos - start)),
        decreases end - pos,
    {
        let mut j: usize = pos;
        while j < end && pattern.get_char(j) != '\n'
            invariant
                pos <= j <= end <= n,
                n == pattern@.len(),
                forall|q: int| pos <= q < j ==> pattern@[q] != '\n',
            decreases end - j,
        {
            j = j + 1;
        }
        let mut line_end: usize = j;
        if line_end > pos && pattern.get_char(line_end - 1) == '\r' {
            line_end = line_end - 1;
        }
        let mut row: Vec<char> = Vec::new();
        let mut q: usize = pos;
        while q < line_end
            invariant
                pos <= q <= line_end <= n,
                n == pattern@.len(),
                row@ == pattern@.subrange(pos as int, q as int),
            decreases line_end - q,
        {
            proof {
                assert(pattern@.subrange(pos as int, q as int).push(pattern@[q as int])
                    =~= pattern@.subrange(pos as int, q as int + 1));
            }
            row.push(pattern.get_char(q));
            q = q + 1;
        }
        let new_pos: usize = if j < end {
            j + 1
        } else {
            end
        };
        proof {
            let rem = t.skip((pos - start) as int);
            assert(rem.len() == end - pos);
            assert forall|qq: int| 0 <= qq < j - pos implies rem[qq] != '\n' by {
                assert(rem[qq] == pattern@[pos + qq]);
            }
            if j < end {
                assert(rem[(j - pos) as int] == pattern@[j as int]);
            }
            lemma_line_break_at_is(rem, (j - pos) as int);
            let line = rem.subrange(0, (j - pos) as int);
            assert(line =~= pattern@.subrange(pos as int, j as int));
            assert(row@ == strip_cr(line));
            if j < end {
                assert(split_lines_spec(rem) == seq![strip_cr(line)] + split_lines_spec(
                    rem.subrange((j - pos) as int + 1, rem.len() as int),
                ));
                assert(rem.subrange((j - pos) as int + 1, rem.len() as int) =~= t.skip(
                    (new_pos - start) as int,
                ));
            } else {
                assert(line =~= rem);
                assert(split_lines_spec(rem) == seq![strip_cr(rem)]);
                assert(t.skip((new_pos - start) as int) =~= Seq::<char>::empty());
                assert(seq![strip_cr(line)] + split_lines_spec(t.skip((new_pos - start) as int))
                    =~= seq![strip_cr(rem)]);
            }
            assert(done + (seq![row@] + split_lines_spec(t.skip((new_pos - start) as int)))
                =~= done.push(row@) + split_lines_spec(t.skip((new_pos - start) as int)));
            done = done.push(row@);
        }
        rows.push(row);
        pos = new_pos;
    }
    proof {
        assert(t.skip((pos - start) as int) =~= Seq::<char>::empty());
        assert(done + Seq::<Seq<char>>::empty() =~= done);
    }
    rows
}

} // verus!
