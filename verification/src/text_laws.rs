//! What looking for a text in another, and taking a text apart, come to.
use vstd::prelude::*;

use crate::text::{
    ends, holds, left_trimmed, pieces, prepended, replaced, right_trimmed, starts, trimmed,
    white_space, without_tails,
};

verus! {

/// `pat` stands in `s` at `i`.
pub open spec fn stands_at(s: Seq<char>, i: int, pat: Seq<char>) -> bool {
    &&& 0 <= i
    &&& i + pat.len() <= s.len()
    &&& forall|k: int| 0 <= k < pat.len() ==> s[i + k] == #[trigger] pat[k]
}

/// `pat` stands nowhere in `s` before `n`.
pub open spec fn absent_before(s: Seq<char>, n: int, pat: Seq<char>) -> bool {
    forall|i: int| 0 <= i < n ==> !#[trigger] stands_at(s, i, pat)
}

/// To start a text is to stand at its front, to end it is to stand at its back, and to be
/// held by it is to stand somewhere in it.
pub proof fn law_occurrences(s: Seq<char>, pat: Seq<char>)
    ensures
        starts(s, pat) <==> stands_at(s, 0, pat),
        ends(s, pat) <==> stands_at(s, s.len() - pat.len(), pat),
        holds(s, pat) <==> exists|i: int| #[trigger] stands_at(s, i, pat),
{
    let n = pat.len() as int;
    if starts(s, pat) {
        assert forall|k: int| 0 <= k < n implies s[0 + k] == #[trigger] pat[k] by {
            assert(s.take(n)[k] == s[k]);
        }
    }
    if stands_at(s, 0, pat) {
        assert forall|k: int| 0 <= k < n implies s.take(n)[k] == pat[k] by {
            assert(s[0 + k] == pat[k]);
        }
        assert(s.take(n) =~= pat);
    }
    let back = s.len() - n;
    if ends(s, pat) {
        assert forall|k: int| 0 <= k < n implies s[back + k] == #[trigger] pat[k] by {
            assert(s.skip(back)[k] == s[back + k]);
        }
    }
    if stands_at(s, back, pat) {
        assert forall|k: int| 0 <= k < n implies s.skip(back)[k] == pat[k] by {
            assert(s[back + k] == pat[k]);
        }
        assert(s.skip(back) =~= pat);
    }
    if holds(s, pat) {
        let i = choose|i: int| 0 <= i <= s.len() && starts(#[trigger] s.skip(i), pat);
        lemma_starts_at(s, i, pat);
        assert(stands_at(s, i, pat));
    }
    if exists|i: int| #[trigger] stands_at(s, i, pat) {
        let i = choose|i: int| #[trigger] stands_at(s, i, pat);
        lemma_starts_at(s, i, pat);
        assert(starts(s.skip(i), pat));
    }
}

/// To start what is left of a text is to stand in it.
pub proof fn lemma_starts_at(s: Seq<char>, i: int, pat: Seq<char>)
    requires
        0 <= i <= s.len(),
    ensures
        starts(s.skip(i), pat) <==> stands_at(s, i, pat),
{
    let n = pat.len() as int;
    if starts(s.skip(i), pat) {
        assert forall|k: int| 0 <= k < n implies s[i + k] == #[trigger] pat[k] by {
            assert(s.skip(i).take(n)[k] == s[i + k]);
        }
    }
    if stands_at(s, i, pat) {
        assert forall|k: int| 0 <= k < n implies s.skip(i).take(n)[k] == pat[k] by {
            assert(s[i + k] == pat[k]);
        }
        assert(s.skip(i).take(n) =~= pat);
    }
}

/// Where a text is looked for in a rest, it stands one further on in the whole.
pub proof fn lemma_absent_rest(s: Seq<char>, n: int, pat: Seq<char>)
    requires
        0 < s.len(),
        absent_before(s, n, pat),
    ensures
        absent_before(s.skip(1), n - 1, pat),
        0 < n ==> !starts(s, pat),
{
    assert(s.skip(0) =~= s);
    if 0 < n {
        lemma_starts_at(s, 0, pat);
        assert(!stands_at(s, 0, pat));
    }
    assert forall|i: int| 0 <= i < n - 1 implies !#[trigger] stands_at(s.skip(1), i, pat) by {
        if stands_at(s.skip(1), i, pat) {
            assert forall|k: int| 0 <= k < pat.len() implies s[i + 1 + k] == #[trigger] pat[k] by {
                assert(s.skip(1)[i + k] == pat[k]);
            }
            assert(stands_at(s, i + 1, pat));
        }
    }
}

/// The first occurrence of `pat` is replaced, what stands before it stays, and the same goes
/// for what stands behind it.
pub proof fn law_first_replaced(a: Seq<char>, pat: Seq<char>, b: Seq<char>, rep: Seq<char>)
    requires
        pat.len() > 0,
        absent_before(a + pat + b, a.len() as int, pat),
    ensures
        replaced(a + pat + b, pat, rep) == a + rep + replaced(b, pat, rep),
    decreases a.len(),
{
    let s = a + pat + b;
    let n = pat.len() as int;
    if a.len() == 0 {
        assert(s.take(n) =~= pat);
        assert(s.skip(n) =~= b);
        assert(a + rep + replaced(b, pat, rep) =~= rep + replaced(b, pat, rep));
    } else {
        let rest = a.skip(1);
        assert(s.skip(1) =~= rest + pat + b);
        lemma_absent_rest(s, a.len() as int, pat);
        law_first_replaced(rest, pat, b, rep);
        assert(seq![s[0]] + (rest + rep + replaced(b, pat, rep)) =~= a + rep + replaced(
            b,
            pat,
            rep,
        ));
    }
}

/// A text that does not hold `pat` stays as it is.
pub proof fn law_nothing_replaced(s: Seq<char>, pat: Seq<char>, rep: Seq<char>)
    requires
        absent_before(s, s.len() as int, pat),
    ensures
        replaced(s, pat, rep) == s,
    decreases s.len(),
{
    if s.len() > 0 && pat.len() > 0 {
        lemma_absent_rest(s, s.len() as int, pat);
        law_nothing_replaced(s.skip(1), pat, rep);
        assert(seq![s[0]] + s.skip(1) =~= s);
    }
}

/// What stands before the first `sep` is the first piece, and the others are the pieces of
/// what stands behind it.
pub proof fn law_first_piece(a: Seq<char>, sep: Seq<char>, b: Seq<char>)
    requires
        sep.len() > 0,
        absent_before(a + sep + b, a.len() as int, sep),
    ensures
        pieces(a + sep + b, sep) == seq![a] + pieces(b, sep),
    decreases a.len(),
{
    let s = a + sep + b;
    let n = sep.len() as int;
    if a.len() == 0 {
        assert(s.take(n) =~= sep);
        assert(s.skip(n) =~= b);
        assert(a =~= Seq::<char>::empty());
    } else {
        let rest = a.skip(1);
        assert(s.skip(1) =~= rest + sep + b);
        lemma_absent_rest(s, a.len() as int, sep);
        law_first_piece(rest, sep, b);
        let behind = pieces(b, sep);
        assert(seq![s[0]] + rest =~= a);
        assert(prepended(seq![s[0]], seq![rest] + behind) =~= seq![a] + behind);
    }
}

/// A text that does not hold `sep` is its own only piece.
pub proof fn law_one_piece(s: Seq<char>, sep: Seq<char>)
    requires
        absent_before(s, s.len() as int, sep),
    ensures
        pieces(s, sep) == seq![s],
    decreases s.len(),
{
    if s.len() > 0 && sep.len() > 0 {
        lemma_absent_rest(s, s.len() as int, sep);
        law_one_piece(s.skip(1), sep);
        assert(seq![s[0]] + s.skip(1) =~= s);
        assert(prepended(seq![s[0]], seq![s.skip(1)]) =~= seq![s]);
    }
}

/// Every character of `s` is white space.
pub open spec fn all_white(s: Seq<char>) -> bool {
    forall|i: int| 0 <= i < s.len() ==> white_space(#[trigger] s[i])
}

/// Neither the first nor the last character of `s` is white space.
pub open spec fn edges_black(s: Seq<char>) -> bool {
    s.len() > 0 ==> !white_space(s[0]) && !white_space(s.last())
}

/// A text without white space at its edges, put between white space, is what is left of it
/// when it is trimmed.
pub proof fn law_trimmed(left: Seq<char>, s: Seq<char>, right: Seq<char>)
    requires
        all_white(left),
        edges_black(s),
        all_white(right),
    ensures
        trimmed(left + s + right) == s,
    decreases left.len(),
{
    let all = left + s + right;
    if left.len() > 0 {
        assert(white_space(left[0]));
        assert(all[0] == left[0]);
        assert(all.skip(1) =~= left.skip(1) + s + right);
        assert(all_white(left.skip(1)));
        law_trimmed(left.skip(1), s, right);
    } else {
        assert(all =~= s + right);
        if s.len() > 0 {
            assert(all[0] == s[0]);
            lemma_right_trimmed(s, right);
        } else {
            assert(all =~= right);
            assert(s =~= Seq::<char>::empty());
            lemma_left_white(right);
        }
    }
}

proof fn lemma_left_white(s: Seq<char>)
    requires
        all_white(s),
    ensures
        left_trimmed(s) == Seq::<char>::empty(),
    decreases s.len(),
{
    if s.len() > 0 {
        assert(white_space(s[0]));
        assert(all_white(s.skip(1)));
        lemma_left_white(s.skip(1));
    } else {
        assert(s =~= Seq::<char>::empty());
    }
}

proof fn lemma_right_trimmed(s: Seq<char>, right: Seq<char>)
    requires
        s.len() > 0 && !white_space(s.last()),
        all_white(right),
    ensures
        right_trimmed(s + right) == s,
    decreases right.len(),
{
    let all = s + right;
    if right.len() > 0 {
        assert(white_space(right[right.len() - 1]));
        assert(all.last() == right.last());
        assert(all.drop_last() =~= s + right.drop_last());
        assert(all_white(right.drop_last()));
        lemma_right_trimmed(s, right.drop_last());
    } else {
        assert(all =~= s);
    }
}

/// However often `tail` is put behind a text that does not end in it, taking the tails off
/// gives that text back.
pub proof fn law_tails_taken_off(s: Seq<char>, tail: Seq<char>)
    requires
        tail.len() > 0,
    ensures
        without_tails(s + tail, tail) == without_tails(s, tail),
        !ends(s, tail) ==> without_tails(s, tail) == s,
{
    let all = s + tail;
    assert(all.skip(s.len() as int) =~= tail);
    assert(all.take(s.len() as int) =~= s);
}

} // verus!
