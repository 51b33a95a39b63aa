//! Which texts open with a fence that the parser of source text cannot tell the faults of.
use vstd::prelude::*;

use crate::fence::{
    blank_end, dash_end, dash_line, fence_start, has_cut_fence, line_end, most_dashes, parsable,
    shebang_end, space_end,
};
use crate::text::fits;

verus! {

/// `n` dashes.
pub open spec fn dashes(n: nat) -> Seq<char> {
    Seq::new(n, |i: int| '-')
}

/// `s` holds no three dashes in a row.
pub open spec fn lacks_dashes(s: Seq<char>) -> bool {
    forall|i: int, j: int|
        0 <= i && j == i + 2 && j < s.len() ==> !(#[trigger] s[i] == '-' && s[i + 1] == '-'
            && #[trigger] s[j] == '-')
}

/// Dashes end behind those that stand side by side.
proof fn lemma_dashes_end(s: Seq<char>, i: int, j: int)
    requires
        0 <= i <= j <= s.len(),
        forall|k: int| i <= k < j ==> #[trigger] s[k] == '-',
        j < s.len() ==> s[j] != '-',
    ensures
        dash_end(s, i) == j,
    decreases j - i,
{
    if i < j {
        assert(s[i] == '-');
        lemma_dashes_end(s, i + 1, j);
    }
}

/// Where no three dashes stand in a row, there are two at most.
proof fn lemma_few_dashes(s: Seq<char>, i: int)
    requires
        lacks_dashes(s),
        0 <= i,
    ensures
        dash_end(s, i) - i < 3,
{
    reveal_with_fuel(dash_end, 4);
    if i + 2 < s.len() {
        assert(!(s[i] == '-' && s[i + 1] == '-' && s[i + 2] == '-'));
    }
}

proof fn lemma_space_from(s: Seq<char>, i: int)
    ensures
        space_end(s, i) >= i,
    decreases s.len() - i,
{
    if i < s.len() {
        lemma_space_from(s, i + 1);
    }
}

proof fn lemma_line_from(s: Seq<char>, i: int)
    requires
        0 <= i <= s.len(),
    ensures
        line_end(s, i) >= i,
    decreases s.len() - i,
{
    if i < s.len() {
        lemma_line_from(s, i + 1);
    }
}

proof fn lemma_blank_from(s: Seq<char>, from: int, i: int)
    ensures
        blank_end(s, from, i) >= from,
    decreases i - from,
{
    if i > from {
        lemma_blank_from(s, from, i - 1);
    }
}

/// A text that is short enough and holds no three dashes in a row is taken.
pub proof fn law_plain_text_taken(s: Seq<char>)
    requires
        fits(s),
        lacks_dashes(s),
    ensures
        parsable(s),
{
    lemma_line_from(s, 0);
    lemma_space_from(s, shebang_end(s));
    lemma_blank_from(s, shebang_end(s), space_end(s, shebang_end(s)));
    lemma_few_dashes(s, fence_start(s));
}

/// `n` dashes, and a line of `m` dashes.
pub open spec fn fenced(n: nat, m: nat) -> Seq<char> {
    dashes(n) + seq!['\n'] + dashes(m)
}

proof fn lemma_fenced(n: nat, m: nat)
    ensures
        fenced(n, m).len() == n + 1 + m,
        forall|k: int| 0 <= k < n ==> #[trigger] fenced(n, m)[k] == '-',
        fenced(n, m)[n as int] == '\n',
        forall|k: int| n < k < n + 1 + m ==> #[trigger] fenced(n, m)[k] == '-',
{
}

/// The line of dashes counts where it has as many as are asked for.
proof fn lemma_fenced_line(n: nat, m: nat, i: int, want: int)
    requires
        n <= i <= n + 1 + m,
    ensures
        dash_line(fenced(n, m), i, want) == if i == n && want <= m {
            n as int
        } else {
            (n + 1 + m) as int
        },
    decreases n + 1 + m - i,
{
    lemma_fenced(n, m);
    let s = fenced(n, m);
    if i < s.len() {
        lemma_fenced_line(n, m, i + 1, want);
        if i == n {
            lemma_dashes_end(s, (n + 1) as int, (n + 1 + m) as int);
        } else {
            assert(s[i] == '-');
        }
    }
}

proof fn lemma_fenced_most(n: nat, m: nat, want: int)
    requires
        want >= 0,
    ensures
        most_dashes(fenced(n, m), n as int, want) == if want <= m {
            want
        } else {
            m as int
        },
    decreases want,
{
    lemma_fenced(n, m);
    lemma_fenced_line(n, m, n as int, want);
    if want > m {
        lemma_fenced_most(n, m, want - 1);
    }
}

/// A text that opens with a fence and ends with a line of dashes that does not close it is
/// refused where that line is shorter by two or more: there is nothing behind its dashes.
pub proof fn law_cut_fences(n: nat, m: nat)
    requires
        n > 0,
    ensures
        has_cut_fence(fenced(n, m)) <==> n >= 3 && 1 <= m && m + 2 <= n,
{
    let s = fenced(n, m);
    lemma_fenced(n, m);
    assert(s[0] == '-');
    assert(shebang_end(s) == 0);
    assert(space_end(s, 0) == 0);
    assert(fence_start(s) == 0);
    lemma_dashes_end(s, 0, n as int);
    if n >= 3 {
        lemma_fenced_line(n, m, n as int, n as int);
        lemma_fenced_most(n, m, n - 2);
        let most = most_dashes(s, n as int, n - 2);
        lemma_fenced_line(n, m, n as int, most);
        if n + 1 + most < s.len() {
            assert(s[n + 1 + most] == '-');
        }
    }
}

} // verus!
