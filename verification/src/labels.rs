//! The labels of transitions: how source text becomes a label, and how the labels
//! of nested events and guards are put together.
use vstd::prelude::*;

use crate::text::{
    concat2, contains, holds, join_words, lemma_holds_splits, pieces, replace_all, replaced,
    split_on, trim_tails, views, without_tails, words_joined,
};

verus! {

/// A rewriting rule: a text to look for, and the text that takes its place.
pub type Rule = (Seq<char>, Seq<char>);

/// `s` after each of `rules` has been applied to it, the first one first.
pub open spec fn rewritten(s: Seq<char>, rules: Seq<Rule>) -> Seq<char>
    decreases rules.len(),
{
    if rules.len() == 0 {
        s
    } else {
        replaced(rewritten(s, rules.drop_last()), rules.last().0, rules.last().1)
    }
}

/// The rules as the executable code writes them down.
pub open spec fn rule_views(rules: Seq<(&'static str, &'static str)>) -> Seq<Rule> {
    rules.map_values(|r: (&'static str, &'static str)| (r.0@, r.1@))
}

/// Line ends become spaces, and braces, commas and operators stand apart. The logical
/// operators become words.
pub open spec fn spacing_rules() -> Seq<Rule> {
    seq![
        ("\n"@, " "@),
        ("\r"@, " "@),
        ("{"@, " { "@),
        ("}"@, " } "@),
        (","@, " , "@),
        ("=="@, " == "@),
        ("!="@, " != "@),
        (">="@, " >= "@),
        ("<="@, " <= "@),
        ("&&"@, " and "@),
        ("||"@, " or "@),
        ("|"@, " | "@),
        ("="@, " = "@),
        (">"@, " > "@),
        ("<"@, " < "@),
        ("+"@, " + "@),
        ("-"@, " - "@),
        ("*"@, " * "@),
        ("/"@, " / "@),
    ]
}

/// Operators of two characters are put together again, punctuation moves up to the
/// text that it belongs to, a comma before a closing brace goes, and an opening brace
/// starts a line of the label.
pub open spec fn joining_rules() -> Seq<Rule> {
    seq![
        ("= >"@, "=>"@),
        ("- >"@, "->"@),
        ("+ ="@, "+="@),
        ("- ="@, "-="@),
        ("* ="@, "*="@),
        ("/ ="@, "/="@),
        ("! ="@, "!="@),
        ("< ="@, "<="@),
        ("> ="@, ">="@),
        ("= ="@, "=="@),
        (" : "@, ":"@),
        (" :: "@, "::"@),
        (" . "@, "."@),
        (" ."@, "."@),
        (". "@, "."@),
        (" ( "@, "("@),
        (" ) "@, ")"@),
        (" ("@, "("@),
        ("( "@, "("@),
        (" )"@, ")"@),
        (" , "@, ", "@),
        (" & "@, "&"@),
        (" ; "@, ";"@),
        (" [ "@, "["@),
        (" ] "@, "]"@),
        (", }"@, " }"@),
        (" { "@, "<br/>{ "@),
        ("! "@, "!"@),
    ]
}

/// The label that the source text `s` gives: its tokens are spaced out, white space
/// shrinks to single spaces, and the tokens are joined as a reader writes them.
pub open spec fn cleaned(s: Seq<char>) -> Seq<char> {
    rewritten(words_joined(rewritten(s, spacing_rules())), joining_rules())
}

/// Applies `rules` to `s`, the first one first.
fn rewrite(s: String, rules: &Vec<(&'static str, &'static str)>) -> (r: String)
    ensures
        r@ == rewritten(s@, rule_views(rules@)),
{
    let ghost all = rule_views(rules@);
    let mut r: String = s;
    let mut i: usize = 0;
    assert(all.take(0) == Seq::<Rule>::empty());
    while i < rules.len()
        invariant
            all == rule_views(rules@),
            i <= rules@.len(),
            r@ == rewritten(s@, all.take(i as int)),
        decreases rules@.len() - i,
    {
        let rule: (&'static str, &'static str) = rules[i];
        r = replace_all(r.as_str(), rule.0, rule.1);
        assert(all.take(i + 1).drop_last() == all.take(i as int));
        i = i + 1;
    }
    assert(all.take(i as int) == all);
    r
}

/// Turns source text into a label.
pub fn clean_tokens(s: String) -> (r: String)
    ensures
        r@ == cleaned(s@),
{
    let spacing: Vec<(&'static str, &'static str)> = vec![
        ("\n", " "),
        ("\r", " "),
        ("{", " { "),
        ("}", " } "),
        (",", " , "),
        ("==", " == "),
        ("!=", " != "),
        (">=", " >= "),
        ("<=", " <= "),
        ("&&", " and "),
        ("||", " or "),
        ("|", " | "),
        ("=", " = "),
        (">", " > "),
        ("<", " < "),
        ("+", " + "),
        ("-", " - "),
        ("*", " * "),
        ("/", " / "),
    ];
    let joining: Vec<(&'static str, &'static str)> = vec![
        ("= >", "=>"),
        ("- >", "->"),
        ("+ =", "+="),
        ("- =", "-="),
        ("* =", "*="),
        ("/ =", "/="),
        ("! =", "!="),
        ("< =", "<="),
        ("> =", ">="),
        ("= =", "=="),
        (" : ", ":"),
        (" :: ", "::"),
        (" . ", "."),
        (" .", "."),
        (". ", "."),
        (" ( ", "("),
        (" ) ", ")"),
        (" (", "("),
        ("( ", "("),
        (" )", ")"),
        (" , ", ", "),
        (" & ", "&"),
        (" ; ", ";"),
        (" [ ", "["),
        (" ] ", "]"),
        (", }", " }"),
        (" { ", "<br/>{ "),
        ("! ", "!"),
    ];
    assert(rule_views(spacing@) =~= spacing_rules());
    assert(rule_views(joining@) =~= joining_rules());
    let spaced: String = rewrite(s, &spacing);
    let words: String = join_words(spaced.as_str());
    rewrite(words, &joining)
}

/// What stands in a label between its event and its guard.
pub open spec fn guard_open() -> Seq<char> {
    "<br/>[ if "@
}

/// The label of `event` under `guard`.
pub open spec fn guarded(event: Seq<char>, guard: Seq<char>) -> Seq<char> {
    event + guard_open() + guard + " ]"@
}

/// The label that comes of `current` when `new`, an event or a guard, is met inside it.
/// Events follow each other. A guard is added to an event, or joined by `and` to the
/// guard that the label has.
pub open spec fn merged(current: Option<Seq<char>>, new: Seq<char>, is_guard: bool) -> Seq<char> {
    match current {
        Some(c) => if !is_guard {
            c + " "@ + new
        } else if holds(c, guard_open()) {
            let parts = pieces(c, guard_open());
            guarded(parts[0], without_tails(parts[1], " ]"@) + " and "@ + new)
        } else {
            guarded(c, new)
        },
        None => if is_guard {
            guarded(Seq::empty(), new)
        } else {
            new
        },
    }
}

/// The characters of an optional text.
pub open spec fn label_view(label: Option<String>) -> Option<Seq<char>> {
    match label {
        Some(l) => Some(l@),
        None => None,
    }
}

/// A copy of an optional text.
pub fn copy_label(label: &Option<String>) -> (r: Option<String>)
    ensures
        r == *label,
{
    match label {
        Some(l) => Some(l.clone()),
        None => None,
    }
}

/// The label of `event` under `guard`.
fn with_guard(event: &str, guard: &str) -> (r: String)
    ensures
        r@ == guarded(event@, guard@),
{
    let mut r: String = concat2(event, "<br/>[ if ");
    r.append(guard);
    r.append(" ]");
    r
}

/// Puts `new`, an event or a guard, behind the label `current`.
pub fn merge_labels(current: Option<String>, new: String, is_guard: bool) -> (r: String)
    ensures
        r@ == merged(label_view(current), new@, is_guard),
{
    match current {
        Some(c) => {
            if !is_guard {
                let mut r: String = concat2(c.as_str(), " ");
                r.append(new.as_str());
                r
            } else if contains(c.as_str(), "<br/>[ if ") {
                let parts: Vec<String> = split_on(c.as_str(), "<br/>[ if ");
                proof {
                    reveal_strlit("<br/>[ if ");
                    lemma_holds_splits(c@, guard_open());
                    assert(views(parts@)[0] == parts@[0]@ && views(parts@)[1] == parts@[1]@);
                }
                let mut guard: String = trim_tails(parts[1].as_str(), " ]");
                guard.append(" and ");
                guard.append(new.as_str());
                with_guard(parts[0].as_str(), guard.as_str())
            } else {
                with_guard(c.as_str(), new.as_str())
            }
        },
        None => {
            if is_guard {
                proof {
                    reveal_strlit("");
                    assert(""@ == Seq::<char>::empty());
                }
                with_guard("", new.as_str())
            } else {
                new
            }
        },
    }
}

} // verus!
