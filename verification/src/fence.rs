//! Which texts the parser of source text takes: they are short enough, and they do not open
//! with a fence of dashes that the parser looks for the end of behind the end of the text.
use vstd::prelude::*;

use crate::text::{fits, is_short, is_white_space, to_chars, white_space};

verus! {

/// `c` is white space in Rust source.
pub open spec fn pattern_space(c: char) -> bool {
    ||| '\u{9}' <= c <= '\u{d}'
    ||| c == ' '
    ||| c == '\u{85}'
    ||| c == '\u{200e}'
    ||| c == '\u{200f}'
    ||| c == '\u{2028}'
    ||| c == '\u{2029}'
}

/// The position behind the line that `i` stands in.
pub open spec fn line_end(s: Seq<char>, i: int) -> int
    decreases s.len() - i,
{
    if i >= s.len() {
        s.len() as int
    } else if s[i] == '\n' {
        i + 1
    } else {
        line_end(s, i + 1)
    }
}

/// The first position at `i` or behind that is no white space.
pub open spec fn white_end(s: Seq<char>, i: int) -> int
    decreases s.len() - i,
{
    if i < s.len() && white_space(s[i]) {
        white_end(s, i + 1)
    } else {
        i
    }
}

/// The first position at `i` or behind that is no white space in Rust source.
pub open spec fn space_end(s: Seq<char>, i: int) -> int
    decreases s.len() - i,
{
    if i < s.len() && pattern_space(s[i]) {
        space_end(s, i + 1)
    } else {
        i
    }
}

/// The position behind the last line feed between `from` and `i`, or `from`.
pub open spec fn blank_end(s: Seq<char>, from: int, i: int) -> int
    decreases i - from,
{
    if i <= from {
        from
    } else if s[i - 1] == '\n' {
        i
    } else {
        blank_end(s, from, i - 1)
    }
}

/// The first position at `i` or behind that is no dash.
pub open spec fn dash_end(s: Seq<char>, i: int) -> int
    decreases s.len() - i,
{
    if i < s.len() && s[i] == '-' {
        dash_end(s, i + 1)
    } else {
        i
    }
}

/// The position behind a first line that names an interpreter, and is no attribute.
pub open spec fn shebang_end(s: Seq<char>) -> int {
    if s.len() >= 2 && s[0] == '#' && s[1] == '!' && !(white_end(s, 2) < s.len() && s[white_end(
        s,
        2,
    )] == '[') {
        line_end(s, 0)
    } else {
        0
    }
}

/// The position where a fence can open: behind the first line, if it names an interpreter,
/// and behind blank lines.
pub open spec fn fence_start(s: Seq<char>) -> int {
    blank_end(s, shebang_end(s), space_end(s, shebang_end(s)))
}

/// The position of the first line feed at `i` or behind that `n` dashes or more follow, or the
/// end of `s`.
pub open spec fn dash_line(s: Seq<char>, i: int, n: int) -> int
    decreases s.len() - i,
{
    if i >= s.len() {
        s.len() as int
    } else if s[i] == '\n' && dash_end(s, i + 1) - (i + 1) >= n {
        i
    } else {
        dash_line(s, i + 1, n)
    }
}

/// The most dashes, up to `n`, that follow a line feed at `i` or behind.
pub open spec fn most_dashes(s: Seq<char>, i: int, n: int) -> int
    decreases n,
{
    if n <= 0 || dash_line(s, i, n) < s.len() {
        n
    } else {
        most_dashes(s, i, n - 1)
    }
}

/// `s` opens with a fence of `j - i` dashes, three or more, that no line closes, and the
/// parser, which tells how much shorter the best of the other lines is, has no whole character
/// to take behind the dashes of that line. It tries fences that are shorter by two or more.
pub open spec fn is_cut_off(s: Seq<char>, i: int, j: int) -> bool {
    let n = most_dashes(s, j, j - i - 2);
    let end = dash_line(s, j, n) + 1 + n;
    &&& j - i >= 3
    &&& dash_line(s, j, j - i) == s.len()
    &&& n > 0
    &&& end >= s.len() || s[end] > '\u{7f}'
}

/// `s` opens with a fence that the parser cannot tell the faults of.
pub open spec fn has_cut_fence(s: Seq<char>) -> bool {
    is_cut_off(s, fence_start(s), dash_end(s, fence_start(s)))
}

/// The parser of source text takes `s`.
pub open spec fn parsable(s: Seq<char>) -> bool {
    fits(s) && !has_cut_fence(s)
}

/// The position behind the first line.
fn find_line_end(v: &Vec<char>) -> (r: usize)
    ensures
        r == line_end(v@, 0),
        r <= v.len(),
{
    let mut i: usize = 0;
    while i < v.len()
        invariant
            i <= v.len(),
            line_end(v@, i as int) == line_end(v@, 0),
        decreases v.len() - i,
    {
        if v[i] == '\n' {
            return i + 1;
        }
        i = i + 1;
    }
    i
}

/// The first position at `from` or behind that is no white space.
fn find_white_end(v: &Vec<char>, from: usize) -> (r: usize)
    requires
        from <= v.len(),
    ensures
        r == white_end(v@, from as int),
        r <= v.len(),
{
    let mut i: usize = from;
    while i < v.len() && is_white_space(v[i])
        invariant
            i <= v.len(),
            white_end(v@, i as int) == white_end(v@, from as int),
        decreases v.len() - i,
    {
        i = i + 1;
    }
    i
}

/// Whether `c` is white space in Rust source.
fn is_pattern_space(c: char) -> (r: bool)
    ensures
        r == pattern_space(c),
{
    ('\u{9}' <= c && c <= '\u{d}') || c == ' ' || c == '\u{85}' || c == '\u{200e}' || c
        == '\u{200f}' || c == '\u{2028}' || c == '\u{2029}'
}

/// The first position at `from` or behind that is no white space in Rust source.
fn find_space_end(v: &Vec<char>, from: usize) -> (r: usize)
    requires
        from <= v.len(),
    ensures
        r == space_end(v@, from as int),
        from <= r <= v.len(),
{
    let mut i: usize = from;
    while i < v.len() && is_pattern_space(v[i])
        invariant
            from <= i <= v.len(),
            space_end(v@, i as int) == space_end(v@, from as int),
        decreases v.len() - i,
    {
        i = i + 1;
    }
    i
}

/// The position behind the last line feed between `from` and `to`, or `from`.
fn find_blank_end(v: &Vec<char>, from: usize, to: usize) -> (r: usize)
    requires
        from <= to <= v.len(),
    ensures
        r == blank_end(v@, from as int, to as int),
        r <= v.len(),
{
    let mut i: usize = to;
    while from < i
        invariant
            from <= i <= to <= v.len(),
            blank_end(v@, from as int, i as int) == blank_end(v@, from as int, to as int),
        decreases i,
    {
        if v[i - 1] == '\n' {
            return i;
        }
        i = i - 1;
    }
    i
}

/// The first position at `from` or behind that is no dash.
fn find_dash_end(v: &Vec<char>, from: usize) -> (r: usize)
    requires
        from <= v.len(),
    ensures
        r == dash_end(v@, from as int),
        from <= r <= v.len(),
{
    let mut i: usize = from;
    while i < v.len() && v[i] == '-'
        invariant
            from <= i <= v.len(),
            dash_end(v@, i as int) == dash_end(v@, from as int),
        decreases v.len() - i,
    {
        i = i + 1;
    }
    i
}

/// The position where a fence can open.
fn find_fence_start(v: &Vec<char>) -> (r: usize)
    ensures
        r == fence_start(v@),
        r <= v.len(),
{
    let mut line: usize = 0;
    if v.len() >= 2 && v[0] == '#' && v[1] == '!' {
        let next: usize = find_white_end(v, 2);
        if next >= v.len() || v[next] != '[' {
            line = find_line_end(v);
        }
    }
    let spaces: usize = find_space_end(v, line);
    find_blank_end(v, line, spaces)
}

/// The position of the first line feed at `from` or behind that `n` dashes or more follow, or
/// the end.
fn find_dash_line(v: &Vec<char>, from: usize, n: usize) -> (r: usize)
    requires
        from <= v.len(),
    ensures
        r == dash_line(v@, from as int, n as int),
        r < v.len() ==> r + 1 + n <= v.len(),
        r <= v.len(),
{
    let mut i: usize = from;
    while i < v.len()
        invariant
            i <= v.len(),
            dash_line(v@, i as int, n as int) == dash_line(v@, from as int, n as int),
        decreases v.len() - i,
    {
        if v[i] == '\n' && find_dash_end(v, i + 1) - (i + 1) >= n {
            return i;
        }
        i = i + 1;
    }
    i
}

/// Whether `s` opens with a fence that the parser cannot tell the faults of.
pub fn is_fence_cut(s: &str) -> (r: bool)
    ensures
        r == has_cut_fence(s@),
{
    let v: Vec<char> = to_chars(s);
    let i: usize = find_fence_start(&v);
    let j: usize = find_dash_end(&v, i);
    if j - i < 3 || find_dash_line(&v, j, j - i) < v.len() {
        return false;
    }
    let mut n: usize = j - i - 2;
    while n > 0
        invariant
            v@ == s@,
            i == fence_start(s@),
            j == dash_end(s@, i as int),
            dash_line(s@, j as int, j - i) == s@.len(),
            i + 3 <= j <= v.len(),
            n <= v.len(),
            most_dashes(v@, j as int, n as int) == most_dashes(v@, j as int, j - i - 2),
        decreases n,
    {
        let line: usize = find_dash_line(&v, j, n);
        if line < v.len() {
            let end: usize = line + 1 + n;
            return end >= v.len() || v[end] > '\u{7f}';
        }
        n = n - 1;
    }
    false
}

/// Whether the parser of source text takes `s`.
pub fn is_parsable(s: &str) -> (r: bool)
    ensures
        r == parsable(s@),
{
    is_short(s) && !is_fence_cut(s)
}

} // verus!
