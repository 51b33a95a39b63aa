//! What holds of every label.
use vstd::prelude::*;

use crate::labels::{
    cleaned, guard_open, guarded, joining_rules, merged, rewritten, spacing_rules, Rule,
};
use crate::text::{
    ends, holds, pieces, prepended, replaced, starts, white_space,
    without_tails, words_joined,
};

verus! {

/// No character of `s` is white space, but for the plain space.
pub open spec fn plainly_spaced(s: Seq<char>) -> bool {
    forall|i: int| 0 <= i < s.len() ==> (white_space(#[trigger] s[i]) ==> s[i] == ' ')
}

/// `s` holds no `|` directly behind another.
pub open spec fn pipes_apart(s: Seq<char>) -> bool {
    forall|i: int, j: int|
        0 <= i < s.len() && j == i + 1 && j < s.len() ==> !(#[trigger] s[i] == '|'
            && #[trigger] s[j] == '|')
}

/// `s` holds no `|`.
pub open spec fn pipe_free(s: Seq<char>) -> bool {
    forall|i: int| 0 <= i < s.len() ==> #[trigger] s[i] != '|'
}

proof fn lemma_replaced_spaced(s: Seq<char>, pat: Seq<char>, rep: Seq<char>)
    requires
        plainly_spaced(s),
        plainly_spaced(rep),
    ensures
        plainly_spaced(replaced(s, pat, rep)),
    decreases s.len(),
{
    if s.len() == 0 || pat.len() == 0 {
    } else if starts(s, pat) {
        lemma_replaced_spaced(s.skip(pat.len() as int), pat, rep);
    } else {
        lemma_replaced_spaced(s.skip(1), pat, rep);
    }
}

pub proof fn lemma_rewritten_spaced(s: Seq<char>, rules: Seq<Rule>)
    requires
        plainly_spaced(s),
        forall|k: int| 0 <= k < rules.len() ==> plainly_spaced((#[trigger] rules[k]).1),
    ensures
        plainly_spaced(rewritten(s, rules)),
    decreases rules.len(),
{
    if rules.len() > 0 {
        lemma_rewritten_spaced(s, rules.drop_last());
        assert(plainly_spaced(rules[rules.len() - 1].1));
        lemma_replaced_spaced(
            rewritten(s, rules.drop_last()),
            rules.last().0,
            rules.last().1,
        );
    }
}

pub proof fn lemma_words_spaced(s: Seq<char>)
    ensures
        plainly_spaced(words_joined(s)),
    decreases s.len(),
{
    if s.len() > 0 {
        lemma_words_spaced(s.drop_last());
    }
}

/// The text of every joining rule.
pub proof fn lemma_joining_rules()
    ensures
        forall|k: int|
            0 <= k < joining_rules().len() ==> {
                &&& plainly_spaced((#[trigger] joining_rules()[k]).1)
                &&& pipe_free(joining_rules()[k].0)
                &&& joining_rules()[k].0.len() > 0
                &&& pipe_free(joining_rules()[k].1)
                &&& joining_rules()[k].1.len() > 0
            },
{
    reveal_strlit("= >");
    reveal_strlit("=>");
    reveal_strlit("- >");
    reveal_strlit("->");
    reveal_strlit("+ =");
    reveal_strlit("+=");
    reveal_strlit("- =");
    reveal_strlit("-=");
    reveal_strlit("* =");
    reveal_strlit("*=");
    reveal_strlit("/ =");
    reveal_strlit("/=");
    reveal_strlit("! =");
    reveal_strlit("!=");
    reveal_strlit("< =");
    reveal_strlit("<=");
    reveal_strlit("> =");
    reveal_strlit(">=");
    reveal_strlit("= =");
    reveal_strlit("==");
    reveal_strlit(" : ");
    reveal_strlit(":");
    reveal_strlit(" :: ");
    reveal_strlit("::");
    reveal_strlit(" . ");
    reveal_strlit(" .");
    reveal_strlit(". ");
    reveal_strlit(".");
    reveal_strlit(" ( ");
    reveal_strlit(" (");
    reveal_strlit("( ");
    reveal_strlit("(");
    reveal_strlit(" ) ");
    reveal_strlit(" )");
    reveal_strlit(")");
    reveal_strlit(" , ");
    reveal_strlit(", ");
    reveal_strlit(" & ");
    reveal_strlit("&");
    reveal_strlit(" ; ");
    reveal_strlit(";");
    reveal_strlit(" [ ");
    reveal_strlit("[");
    reveal_strlit(" ] ");
    reveal_strlit("]");
    reveal_strlit(", }");
    reveal_strlit(" }");
    reveal_strlit(" { ");
    reveal_strlit("<br/>{ ");
    reveal_strlit("! ");
    reveal_strlit("!");
}

/// A label stands on one line: the only white space in it is the plain space.
pub proof fn law_label_plainly_spaced(s: Seq<char>)
    ensures
        plainly_spaced(cleaned(s)),
{
    let words = words_joined(rewritten(s, spacing_rules()));
    lemma_words_spaced(rewritten(s, spacing_rules()));
    lemma_joining_rules();
    lemma_rewritten_spaced(words, joining_rules());
}

/// Replacing a text without `|` by another keeps every `|` away from the next: where a
/// result starts with a `|`, the text itself did.
proof fn lemma_replaced_pipes(s: Seq<char>, pat: Seq<char>, rep: Seq<char>)
    requires
        pipes_apart(s),
        pat.len() > 0,
        rep.len() > 0,
        pipe_free(rep),
    ensures
        pipes_apart(replaced(s, pat, rep)),
        replaced(s, pat, rep).len() > 0 && replaced(s, pat, rep)[0] == '|' ==> s.len() > 0 && s[0]
            == '|',
    decreases s.len(),
{
    if s.len() == 0 {
    } else if starts(s, pat) {
        lemma_replaced_pipes(s.skip(pat.len() as int), pat, rep);
    } else {
        lemma_replaced_pipes(s.skip(1), pat, rep);
        let rest = replaced(s.skip(1), pat, rep);
        let all = replaced(s, pat, rep);
        assert(all == seq![s[0]] + rest);
        assert forall|i: int, j: int| 0 <= i < all.len() && j == i + 1 && j < all.len() implies !(
        #[trigger] all[i] == '|' && #[trigger] all[j] == '|') by {
            if i == 0 {
                if all[1] == '|' {
                    assert(rest[0] == '|');
                    assert(s.skip(1)[0] == s[1]);
                }
            } else {
                assert(all[i] == rest[i - 1] && all[j] == rest[j - 1]);
            }
        }
    }
}

/// Setting every `|` between spaces keeps it away from the next.
proof fn lemma_spaced_pipes(s: Seq<char>)
    ensures
        pipes_apart(replaced(s, seq!['|'], seq![' ', '|', ' '])),
        replaced(s, seq!['|'], seq![' ', '|', ' ']).len() > 0 ==> replaced(
            s,
            seq!['|'],
            seq![' ', '|', ' '],
        )[0] != '|',
    decreases s.len(),
{
    let pat = seq!['|'];
    let rep = seq![' ', '|', ' '];
    if s.len() == 0 {
    } else if starts(s, pat) {
        lemma_spaced_pipes(s.skip(1));
    } else {
        lemma_spaced_pipes(s.skip(1));
        if s[0] == '|' {
            assert(s.take(1) == pat);
        }
    }
}

proof fn lemma_words_pipes(s: Seq<char>)
    requires
        pipes_apart(s),
    ensures
        pipes_apart(words_joined(s)),
        s.len() > 0 && !white_space(s.last()) ==> words_joined(s).len() > 0 && words_joined(
            s,
        ).last() == s.last(),
    decreases s.len(),
{
    if s.len() > 0 {
        lemma_words_pipes(s.drop_last());
        let before = words_joined(s.drop_last());
        if s.len() >= 2 && !white_space(s[s.len() - 2]) {
            assert(before.last() == s[s.len() - 2]);
        }
    }
}

proof fn lemma_rewritten_pipes(s: Seq<char>, rules: Seq<Rule>, done: int)
    requires
        0 <= done <= rules.len(),
        pipes_apart(rewritten(s, rules.take(done))),
        forall|k: int|
            done <= k < rules.len() ==> (#[trigger] rules[k]).0.len() > 0 && rules[k].1.len() > 0
                && pipe_free(rules[k].1),
    ensures
        pipes_apart(rewritten(s, rules)),
    decreases rules.len(),
{
    if done == rules.len() {
        assert(rules.take(done) == rules);
    } else {
        assert(rules.drop_last().take(done) == rules.take(done));
        lemma_rewritten_pipes(s, rules.drop_last(), done);
        assert(rules[rules.len() - 1].0.len() > 0);
        lemma_replaced_pipes(
            rewritten(s, rules.drop_last()),
            rules.last().0,
            rules.last().1,
        );
    }
}

/// The operator `||` never stands in a label: it is written as a word.
pub proof fn law_label_without_pipe_pipe(s: Seq<char>)
    ensures
        !holds(cleaned(s), "||"@),
{
    let rules = spacing_rules();
    reveal_strlit("|");
    reveal_strlit(" | ");
    reveal_strlit("=");
    reveal_strlit(" = ");
    reveal_strlit(">");
    reveal_strlit(" > ");
    reveal_strlit("<");
    reveal_strlit(" < ");
    reveal_strlit("+");
    reveal_strlit(" + ");
    reveal_strlit("-");
    reveal_strlit(" - ");
    reveal_strlit("*");
    reveal_strlit(" * ");
    reveal_strlit("/");
    reveal_strlit(" / ");
    let first = rules.take(12);
    assert(first.drop_last() == rules.take(11));
    assert("|"@ == seq!['|']);
    assert(" | "@ == seq![' ', '|', ' ']);
    lemma_spaced_pipes(rewritten(s, rules.take(11)));
    lemma_rewritten_pipes(s, rules, 12);
    lemma_words_pipes(rewritten(s, rules));
    lemma_joining_rules();
    let words = words_joined(rewritten(s, rules));
    assert(joining_rules().take(0) == Seq::<Rule>::empty());
    lemma_rewritten_pipes(words, joining_rules(), 0);
    let label = cleaned(s);
    if holds(label, "||"@) {
        reveal_strlit("||");
        let i = choose|i: int| 0 <= i <= label.len() && starts(#[trigger] label.skip(i), "||"@);
        assert(label.skip(i).take(2)[0] == label[i]);
        assert(label.skip(i).take(2)[1] == label[i + 1]);
        assert(false);
    }
}

/// In `e` followed by the opening of a guard, the first occurrence of that opening is
/// the one behind `e`.
proof fn lemma_first_opening(e: Seq<char>, rest: Seq<char>)
    requires
        !holds(e, guard_open()),
    ensures
        pieces(e + guard_open() + rest, guard_open()) == seq![e] + pieces(rest, guard_open()),
        holds(e + guard_open() + rest, guard_open()),
    decreases e.len(),
{
    let open = guard_open();
    reveal_strlit("<br/>[ if ");
    let all = e + open + rest;
    assert(all.skip(e.len() as int).take(open.len() as int) == open);
    if e.len() == 0 {
        assert(all == open + rest);
        assert(all.take(open.len() as int) == open);
        assert(all.skip(open.len() as int) == rest);
        assert(e == Seq::<char>::empty());
    } else {
        if starts(all, open) {
            if e.len() >= open.len() {
                assert(e.skip(0).take(open.len() as int) == all.take(open.len() as int));
                assert(starts(e.skip(0), open));
            } else {
                assert(all[e.len() as int] == open[0]);
                assert(all.take(open.len() as int)[e.len() as int] == open[e.len() as int]);
            }
            assert(false);
        }
        let tail = e.skip(1);
        assert forall|i: int| 0 <= i <= tail.len() implies !starts(#[trigger] tail.skip(i), open) by {
            assert(tail.skip(i) == e.skip(i + 1));
        }
        lemma_first_opening(tail, rest);
        assert(all.skip(1) == tail + open + rest);
        let behind = pieces(rest, open);
        assert(prepended(seq![all[0]], seq![tail] + behind) == seq![e] + behind) by {
            assert(seq![all[0]] + tail == e);
        }
    }
}

/// A text without the separator is its own only piece.
proof fn lemma_one_piece(s: Seq<char>, sep: Seq<char>)
    requires
        !holds(s, sep),
    ensures
        pieces(s, sep) == seq![s],
    decreases s.len(),
{
    if s.len() > 0 && sep.len() > 0 {
        assert(s.skip(0) == s);
        let tail = s.skip(1);
        assert forall|i: int| 0 <= i <= tail.len() implies !starts(#[trigger] tail.skip(i), sep) by {
            assert(tail.skip(i) == s.skip(i + 1));
        }
        lemma_one_piece(tail, sep);
        assert(seq![s[0]] + tail == s);
        assert(prepended(seq![s[0]], seq![tail]) == seq![s]);
    }
}

/// A guard that is met inside another one is joined to it by `and`, and the event
/// stays what it was.
pub proof fn law_nested_guards_joined(event: Seq<char>, outer: Seq<char>, inner: Seq<char>)
    requires
        !holds(event, guard_open()),
        !holds(outer + " ]"@, guard_open()),
        !ends(outer, " ]"@),
    ensures
        merged(Some(merged(Some(event), outer, true)), inner, true) == guarded(
            event,
            outer + " and "@ + inner,
        ),
{
    let label = guarded(event, outer);
    let rest = outer + " ]"@;
    reveal_strlit(" ]");
    assert(label == event + guard_open() + rest);
    lemma_first_opening(event, rest);
    lemma_one_piece(rest, guard_open());
    assert(pieces(label, guard_open()) == seq![event, rest]);
    assert(rest.skip(outer.len() as int) == " ]"@);
    assert(rest.take(outer.len() as int) == outer);
    assert(without_tails(rest, " ]"@) == without_tails(outer, " ]"@));
    assert(without_tails(outer, " ]"@) == outer);
}

/// An event stands behind the label around it, with a space between them. A guard stands in
/// brackets on a line of its own, behind the event if there is one; and where the label has a
/// guard already, the new one is joined to it by `and`.
pub proof fn law_labels_merged(label: Seq<char>, outer: Seq<char>, new: Seq<char>)
    requires
        !holds(label, "<br/>[ if "@),
    ensures
        merged(None, new, false) == new,
        merged(Some(label), new, false) == label + seq![' '] + new,
        merged(None, new, true) == "<br/>[ if "@ + new + " ]"@,
        merged(Some(label), new, true) == label + "<br/>[ if "@ + new + " ]"@,
        !holds(outer + " ]"@, "<br/>[ if "@) && !ends(outer, " ]"@) ==> merged(
            Some(label + "<br/>[ if "@ + outer + " ]"@),
            new,
            true,
        ) == label + "<br/>[ if "@ + (outer + " and "@ + new) + " ]"@,
{
    reveal_strlit(" ");
    assert(" "@ =~= seq![' ']);
    assert(Seq::<char>::empty() + "<br/>[ if "@ =~= "<br/>[ if "@);
    if !holds(outer + " ]"@, "<br/>[ if "@) && !ends(outer, " ]"@) {
        law_nested_guards_joined(label, outer, new);
    }
}

} // verus!
