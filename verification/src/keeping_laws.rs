//! What a label says of its source text: cleaning moves white space, and nothing else but
//! what the rules for logical operators, last commas and opening braces ask for.
use vstd::prelude::*;

use crate::label_laws::{
    lemma_joining_rules, lemma_rewritten_spaced, lemma_words_spaced, plainly_spaced,
};
use crate::labels::{cleaned, joining_rules, rewritten, spacing_rules, Rule};
use crate::text::{replaced, starts, white_space, words_joined};
use crate::text_laws::stands_at;
use crate::visit::tidied;

verus! {

/// A mark of its own: a bracket, an operator, or punctuation.
pub open spec fn is_mark(c: char) -> bool {
    ||| c == '{' || c == '}' || c == ',' || c == '=' || c == '!' || c == '<' || c == '>'
    ||| c == '&' || c == '|' || c == '+' || c == '-' || c == '*' || c == '/' || c == ':'
    ||| c == '.' || c == '(' || c == ')' || c == ';' || c == '[' || c == ']'
}

/// A character of a word.
pub open spec fn is_wordy(c: char) -> bool {
    !white_space(c) && !is_mark(c)
}

/// What `s` says: its marks and its words in their order, with a space before each word and
/// no other white space. Where `inside` holds, a word goes on at the start of `s`.
pub open spec fn spoken(inside: bool, s: Seq<char>) -> Seq<char>
    decreases s.len(),
{
    if s.len() == 0 {
        s
    } else if white_space(s[0]) {
        spoken(false, s.skip(1))
    } else if is_mark(s[0]) {
        seq![s[0]] + spoken(false, s.skip(1))
    } else if inside {
        seq![s[0]] + spoken(true, s.skip(1))
    } else {
        seq![' ', s[0]] + spoken(true, s.skip(1))
    }
}

/// `s` with words for the logical operators.
pub open spec fn worded(s: Seq<char>) -> Seq<char>
    decreases s.len(),
{
    if s.len() == 0 {
        s
    } else if s.len() >= 2 && s[0] == '&' && s[1] == '&' {
        seq![' ', 'a', 'n', 'd', ' '] + worded(s.skip(2))
    } else if s.len() >= 2 && s[0] == '|' && s[1] == '|' {
        seq![' ', 'o', 'r', ' '] + worded(s.skip(2))
    } else {
        seq![s[0]] + worded(s.skip(1))
    }
}

/// `s` without the commas directly before a closing brace.
pub open spec fn uncommaed(s: Seq<char>) -> Seq<char>
    decreases s.len(),
{
    if s.len() == 0 {
        s
    } else if s.len() >= 2 && s[0] == ',' && s[1] == '}' {
        uncommaed(s.skip(1))
    } else {
        seq![s[0]] + uncommaed(s.skip(1))
    }
}

/// `<br/>`, which starts a line of a label.
pub open spec fn line_break() -> Seq<char> {
    seq!['<', 'b', 'r', '/', '>']
}

/// `s` without the line breaks before opening braces.
pub open spec fn unbroken(s: Seq<char>) -> Seq<char>
    decreases s.len(),
{
    if s.len() == 0 {
        s
    } else if stands_at(s, 0, line_break().push('{')) {
        unbroken(s.skip(5))
    } else {
        seq![s[0]] + unbroken(s.skip(1))
    }
}

/// A word goes on behind `s`.
pub open spec fn ends_inside(inside: bool, s: Seq<char>) -> bool {
    if s.len() == 0 {
        inside
    } else {
        is_wordy(s.last())
    }
}

proof fn lemma_spoken_split(inside: bool, a: Seq<char>, b: Seq<char>)
    ensures
        spoken(inside, a + b) == spoken(inside, a) + spoken(ends_inside(inside, a), b),
    decreases a.len(),
{
    let s = a + b;
    if a.len() == 0 {
        assert(s =~= b);
        assert(spoken(inside, a) + spoken(inside, b) =~= spoken(inside, b));
    } else {
        let rest = a.skip(1);
        assert(s.skip(1) =~= rest + b);
        assert(s[0] == a[0]);
        let now = is_wordy(a[0]);
        lemma_spoken_split(now, rest, b);
        assert(ends_inside(now, rest) == ends_inside(inside, a)) by {
            if rest.len() > 0 {
                assert(rest.last() == a.last());
            }
        }
        let tail = spoken(ends_inside(inside, a), b);
        assert(seq![a[0]] + (spoken(now, rest) + tail) =~= (seq![a[0]] + spoken(now, rest)) + tail);
        assert(seq![' ', a[0]] + (spoken(now, rest) + tail) =~= (seq![' ', a[0]] + spoken(
            now,
            rest,
        )) + tail);
    }
}

/// No character of `s` belongs to a word.
pub open spec fn is_wordless(s: Seq<char>) -> bool {
    forall|i: int| 0 <= i < s.len() ==> !is_wordy(#[trigger] s[i])
}

proof fn lemma_wordless(inside: bool, p: Seq<char>)
    requires
        is_wordless(p),
        p.len() > 0,
    ensures
        spoken(inside, p) == spoken(false, p),
        !ends_inside(inside, p),
{
    assert(!is_wordy(p[0]));
    assert(!is_wordy(p[p.len() - 1]));
}

/// The rule moves white space around marks, and nothing else.
pub open spec fn moves_space(r: Rule) -> bool {
    &&& r.0.len() > 0 && r.1.len() > 0
    &&& is_wordless(r.0) && is_wordless(r.1)
    &&& spoken(false, r.0) == spoken(false, r.1)
}

/// A rule that moves white space keeps what a text says.
proof fn lemma_rule_keeps(inside: bool, s: Seq<char>, r: Rule)
    requires
        moves_space(r),
    ensures
        spoken(inside, replaced(s, r.0, r.1)) == spoken(inside, s),
    decreases s.len(),
{
    if s.len() > 0 {
        if starts(s, r.0) {
            let n = r.0.len() as int;
            let rest = s.skip(n);
            assert(s =~= r.0 + rest);
            lemma_rule_keeps(false, rest, r);
            lemma_wordless(inside, r.0);
            lemma_wordless(inside, r.1);
            lemma_spoken_split(inside, r.0, rest);
            lemma_spoken_split(inside, r.1, replaced(rest, r.0, r.1));
        } else {
            let rest = s.skip(1);
            let one = seq![s[0]];
            assert(s =~= one + rest);
            lemma_rule_keeps(ends_inside(inside, one), rest, r);
            lemma_spoken_split(inside, one, rest);
            lemma_spoken_split(inside, one, replaced(rest, r.0, r.1));
        }
    }
}

proof fn lemma_rules_keep(s: Seq<char>, rules: Seq<Rule>, done: int)
    requires
        0 <= done <= rules.len(),
        forall|k: int| done <= k < rules.len() ==> moves_space(#[trigger] rules[k]),
    ensures
        spoken(false, rewritten(s, rules)) == spoken(false, rewritten(s, rules.take(done))),
    decreases rules.len(),
{
    if done == rules.len() {
        assert(rules.take(done) =~= rules);
    } else {
        let rest = rules.drop_last();
        assert(rest.take(done) =~= rules.take(done));
        assert forall|k: int| done <= k < rest.len() implies moves_space(#[trigger] rest[k]) by {
            assert(rest[k] == rules[k]);
        }
        lemma_rules_keep(s, rest, done);
        assert(moves_space(rules[rules.len() - 1]));
        lemma_rule_keeps(false, rewritten(s, rest), rules.last());
    }
}

/// The mark `c`, or nothing for white space.
spec fn mark_of(c: char) -> Seq<char> {
    if white_space(c) {
        Seq::empty()
    } else {
        seq![c]
    }
}

proof fn lemma_spoken1(a: char)
    requires
        !is_wordy(a),
    ensures
        spoken(false, seq![a]) == mark_of(a),
        is_wordless(seq![a]),
{
    let s = seq![a];
    assert(s.skip(1) =~= Seq::<char>::empty());
    assert(spoken(false, s.skip(1)) =~= Seq::<char>::empty());
    assert(spoken(false, s) =~= mark_of(a));
}

proof fn lemma_spoken2(a: char, b: char)
    requires
        !is_wordy(a) && !is_wordy(b),
    ensures
        spoken(false, seq![a, b]) == mark_of(a) + mark_of(b),
        is_wordless(seq![a, b]),
{
    lemma_spoken1(b);
    assert(seq![a, b].skip(1) =~= seq![b]);
    assert(spoken(false, seq![a, b]) =~= mark_of(a) + mark_of(b));
}

proof fn lemma_spoken3(a: char, b: char, c: char)
    requires
        !is_wordy(a) && !is_wordy(b) && !is_wordy(c),
    ensures
        spoken(false, seq![a, b, c]) == mark_of(a) + mark_of(b) + mark_of(c),
        is_wordless(seq![a, b, c]),
{
    lemma_spoken2(b, c);
    assert(seq![a, b, c].skip(1) =~= seq![b, c]);
    assert(spoken(false, seq![a, b, c]) =~= mark_of(a) + mark_of(b) + mark_of(c));
}

proof fn lemma_spoken4(a: char, b: char, c: char, d: char)
    requires
        !is_wordy(a) && !is_wordy(b) && !is_wordy(c) && !is_wordy(d),
    ensures
        spoken(false, seq![a, b, c, d]) == mark_of(a) + mark_of(b) + mark_of(c) + mark_of(d),
        is_wordless(seq![a, b, c, d]),
{
    lemma_spoken3(b, c, d);
    assert(seq![a, b, c, d].skip(1) =~= seq![b, c, d]);
    assert(spoken(false, seq![a, b, c, d]) =~= mark_of(a) + mark_of(b) + mark_of(c) + mark_of(d));
}

proof fn lemma_spacing_moves()
    ensures
        spacing_rules().len() == 19,
        forall|k: int|
            0 <= k < 19 && k != 9 && k != 10 ==> moves_space(#[trigger] spacing_rules()[k]),
{
    reveal_strlit("\n");
    assert("\n"@ =~= seq!['\n']);
    lemma_spoken1('\n');
    reveal_strlit(" ");
    assert(" "@ =~= seq![' ']);
    lemma_spoken1(' ');
    reveal_strlit("\r");
    assert("\r"@ =~= seq!['\r']);
    lemma_spoken1('\r');
    reveal_strlit("{");
    assert("{"@ =~= seq!['{']);
    lemma_spoken1('{');
    reveal_strlit(" { ");
    assert(" { "@ =~= seq![' ', '{', ' ']);
    lemma_spoken3(' ', '{', ' ');
    reveal_strlit("}");
    assert("}"@ =~= seq!['}']);
    lemma_spoken1('}');
    reveal_strlit(" } ");
    assert(" } "@ =~= seq![' ', '}', ' ']);
    lemma_spoken3(' ', '}', ' ');
    reveal_strlit(",");
    assert(","@ =~= seq![',']);
    lemma_spoken1(',');
    reveal_strlit(" , ");
    assert(" , "@ =~= seq![' ', ',', ' ']);
    lemma_spoken3(' ', ',', ' ');
    reveal_strlit("==");
    assert("=="@ =~= seq!['=', '=']);
    lemma_spoken2('=', '=');
    reveal_strlit(" == ");
    assert(" == "@ =~= seq![' ', '=', '=', ' ']);
    lemma_spoken4(' ', '=', '=', ' ');
    reveal_strlit("!=");
    assert("!="@ =~= seq!['!', '=']);
    lemma_spoken2('!', '=');
    reveal_strlit(" != ");
    assert(" != "@ =~= seq![' ', '!', '=', ' ']);
    lemma_spoken4(' ', '!', '=', ' ');
    reveal_strlit(">=");
    assert(">="@ =~= seq!['>', '=']);
    lemma_spoken2('>', '=');
    reveal_strlit(" >= ");
    assert(" >= "@ =~= seq![' ', '>', '=', ' ']);
    lemma_spoken4(' ', '>', '=', ' ');
    reveal_strlit("<=");
    assert("<="@ =~= seq!['<', '=']);
    lemma_spoken2('<', '=');
    reveal_strlit(" <= ");
    assert(" <= "@ =~= seq![' ', '<', '=', ' ']);
    lemma_spoken4(' ', '<', '=', ' ');
    reveal_strlit("|");
    assert("|"@ =~= seq!['|']);
    lemma_spoken1('|');
    reveal_strlit(" | ");
    assert(" | "@ =~= seq![' ', '|', ' ']);
    lemma_spoken3(' ', '|', ' ');
    reveal_strlit("=");
    assert("="@ =~= seq!['=']);
    lemma_spoken1('=');
    reveal_strlit(" = ");
    assert(" = "@ =~= seq![' ', '=', ' ']);
    lemma_spoken3(' ', '=', ' ');
    reveal_strlit(">");
    assert(">"@ =~= seq!['>']);
    lemma_spoken1('>');
    reveal_strlit(" > ");
    assert(" > "@ =~= seq![' ', '>', ' ']);
    lemma_spoken3(' ', '>', ' ');
    reveal_strlit("<");
    assert("<"@ =~= seq!['<']);
    lemma_spoken1('<');
    reveal_strlit(" < ");
    assert(" < "@ =~= seq![' ', '<', ' ']);
    lemma_spoken3(' ', '<', ' ');
    reveal_strlit("+");
    assert("+"@ =~= seq!['+']);
    lemma_spoken1('+');
    reveal_strlit(" + ");
    assert(" + "@ =~= seq![' ', '+', ' ']);
    lemma_spoken3(' ', '+', ' ');
    reveal_strlit("-");
    assert("-"@ =~= seq!['-']);
    lemma_spoken1('-');
    reveal_strlit(" - ");
    assert(" - "@ =~= seq![' ', '-', ' ']);
    lemma_spoken3(' ', '-', ' ');
    reveal_strlit("*");
    assert("*"@ =~= seq!['*']);
    lemma_spoken1('*');
    reveal_strlit(" * ");
    assert(" * "@ =~= seq![' ', '*', ' ']);
    lemma_spoken3(' ', '*', ' ');
    reveal_strlit("/");
    assert("/"@ =~= seq!['/']);
    lemma_spoken1('/');
    reveal_strlit(" / ");
    assert(" / "@ =~= seq![' ', '/', ' ']);
    lemma_spoken3(' ', '/', ' ');
    assert forall|k: int| 0 <= k < 19 && k != 9 && k != 10 implies moves_space(
        #[trigger] spacing_rules()[k],
    ) by {
        let r = spacing_rules()[k];
        assert(spoken(false, r.0) =~= spoken(false, r.1));
    }
}

proof fn lemma_joining_moves()
    ensures
        joining_rules().len() == 28,
        forall|k: int| 0 <= k < 25 ==> moves_space(#[trigger] joining_rules()[k]),
{
    reveal_strlit("= >");
    assert("= >"@ =~= seq!['=', ' ', '>']);
    lemma_spoken3('=', ' ', '>');
    reveal_strlit("=>");
    assert("=>"@ =~= seq!['=', '>']);
    lemma_spoken2('=', '>');
    reveal_strlit("- >");
    assert("- >"@ =~= seq!['-', ' ', '>']);
    lemma_spoken3('-', ' ', '>');
    reveal_strlit("->");
    assert("->"@ =~= seq!['-', '>']);
    lemma_spoken2('-', '>');
    reveal_strlit("+ =");
    assert("+ ="@ =~= seq!['+', ' ', '=']);
    lemma_spoken3('+', ' ', '=');
    reveal_strlit("+=");
    assert("+="@ =~= seq!['+', '=']);
    lemma_spoken2('+', '=');
    reveal_strlit("- =");
    assert("- ="@ =~= seq!['-', ' ', '=']);
    lemma_spoken3('-', ' ', '=');
    reveal_strlit("-=");
    assert("-="@ =~= seq!['-', '=']);
    lemma_spoken2('-', '=');
    reveal_strlit("* =");
    assert("* ="@ =~= seq!['*', ' ', '=']);
    lemma_spoken3('*', ' ', '=');
    reveal_strlit("*=");
    assert("*="@ =~= seq!['*', '=']);
    lemma_spoken2('*', '=');
    reveal_strlit("/ =");
    assert("/ ="@ =~= seq!['/', ' ', '=']);
    lemma_spoken3('/', ' ', '=');
    reveal_strlit("/=");
    assert("/="@ =~= seq!['/', '=']);
    lemma_spoken2('/', '=');
    reveal_strlit("! =");
    assert("! ="@ =~= seq!['!', ' ', '=']);
    lemma_spoken3('!', ' ', '=');
    reveal_strlit("!=");
    assert("!="@ =~= seq!['!', '=']);
    lemma_spoken2('!', '=');
    reveal_strlit("< =");
    assert("< ="@ =~= seq!['<', ' ', '=']);
    lemma_spoken3('<', ' ', '=');
    reveal_strlit("<=");
    assert("<="@ =~= seq!['<', '=']);
    lemma_spoken2('<', '=');
    reveal_strlit("> =");
    assert("> ="@ =~= seq!['>', ' ', '=']);
    lemma_spoken3('>', ' ', '=');
    reveal_strlit(">=");
    assert(">="@ =~= seq!['>', '=']);
    lemma_spoken2('>', '=');
    reveal_strlit("= =");
    assert("= ="@ =~= seq!['=', ' ', '=']);
    lemma_spoken3('=', ' ', '=');
    reveal_strlit("==");
    assert("=="@ =~= seq!['=', '=']);
    lemma_spoken2('=', '=');
    reveal_strlit(" : ");
    assert(" : "@ =~= seq![' ', ':', ' ']);
    lemma_spoken3(' ', ':', ' ');
    reveal_strlit(":");
    assert(":"@ =~= seq![':']);
    lemma_spoken1(':');
    reveal_strlit(" :: ");
    assert(" :: "@ =~= seq![' ', ':', ':', ' ']);
    lemma_spoken4(' ', ':', ':', ' ');
    reveal_strlit("::");
    assert("::"@ =~= seq![':', ':']);
    lemma_spoken2(':', ':');
    reveal_strlit(" . ");
    assert(" . "@ =~= seq![' ', '.', ' ']);
    lemma_spoken3(' ', '.', ' ');
    reveal_strlit(".");
    assert("."@ =~= seq!['.']);
    lemma_spoken1('.');
    reveal_strlit(" .");
    assert(" ."@ =~= seq![' ', '.']);
    lemma_spoken2(' ', '.');
    reveal_strlit(". ");
    assert(". "@ =~= seq!['.', ' ']);
    lemma_spoken2('.', ' ');
    reveal_strlit(" ( ");
    assert(" ( "@ =~= seq![' ', '(', ' ']);
    lemma_spoken3(' ', '(', ' ');
    reveal_strlit("(");
    assert("("@ =~= seq!['(']);
    lemma_spoken1('(');
    reveal_strlit(" ) ");
    assert(" ) "@ =~= seq![' ', ')', ' ']);
    lemma_spoken3(' ', ')', ' ');
    reveal_strlit(")");
    assert(")"@ =~= seq![')']);
    lemma_spoken1(')');
    reveal_strlit(" (");
    assert(" ("@ =~= seq![' ', '(']);
    lemma_spoken2(' ', '(');
    reveal_strlit("( ");
    assert("( "@ =~= seq!['(', ' ']);
    lemma_spoken2('(', ' ');
    reveal_strlit(" )");
    assert(" )"@ =~= seq![' ', ')']);
    lemma_spoken2(' ', ')');
    reveal_strlit(" , ");
    assert(" , "@ =~= seq![' ', ',', ' ']);
    lemma_spoken3(' ', ',', ' ');
    reveal_strlit(", ");
    assert(", "@ =~= seq![',', ' ']);
    lemma_spoken2(',', ' ');
    reveal_strlit(" & ");
    assert(" & "@ =~= seq![' ', '&', ' ']);
    lemma_spoken3(' ', '&', ' ');
    reveal_strlit("&");
    assert("&"@ =~= seq!['&']);
    lemma_spoken1('&');
    reveal_strlit(" ; ");
    assert(" ; "@ =~= seq![' ', ';', ' ']);
    lemma_spoken3(' ', ';', ' ');
    reveal_strlit(";");
    assert(";"@ =~= seq![';']);
    lemma_spoken1(';');
    reveal_strlit(" [ ");
    assert(" [ "@ =~= seq![' ', '[', ' ']);
    lemma_spoken3(' ', '[', ' ');
    reveal_strlit("[");
    assert("["@ =~= seq!['[']);
    lemma_spoken1('[');
    reveal_strlit(" ] ");
    assert(" ] "@ =~= seq![' ', ']', ' ']);
    lemma_spoken3(' ', ']', ' ');
    reveal_strlit("]");
    assert("]"@ =~= seq![']']);
    lemma_spoken1(']');
    assert forall|k: int| 0 <= k < 25 implies moves_space(#[trigger] joining_rules()[k]) by {
        let r = joining_rules()[k];
        assert(spoken(false, r.0) =~= spoken(false, r.1));
    }
}

/// Neither `&` nor `|` stands in `s`.
spec fn is_plain(s: Seq<char>) -> bool {
    forall|i: int| 0 <= i < s.len() ==> #[trigger] s[i] != '&' && s[i] != '|'
}

proof fn lemma_worded_prefix(p: Seq<char>, s: Seq<char>)
    requires
        is_plain(p),
    ensures
        worded(p + s) == p + worded(s),
    decreases p.len(),
{
    let all = p + s;
    if p.len() == 0 {
        assert(all =~= s);
        assert(p + worded(s) =~= worded(s));
    } else {
        assert(p[0] != '&' && p[0] != '|');
        assert(all[0] == p[0]);
        assert(all.skip(1) =~= p.skip(1) + s);
        assert forall|i: int| 0 <= i < p.skip(1).len() implies #[trigger] p.skip(1)[i] != '&'
            && p.skip(1)[i] != '|' by {
            assert(p.skip(1)[i] == p[i + 1]);
        }
        lemma_worded_prefix(p.skip(1), s);
        assert(seq![p[0]] + (p.skip(1) + worded(s)) =~= p + worded(s));
    }
}

/// What a rule without `&` and `|` leaves behind starts with `&` or `|` where the text does.
proof fn lemma_replaced_front(s: Seq<char>, r: Rule)
    requires
        r.0.len() > 0,
        r.1.len() > 0,
        is_plain(r.0),
        is_plain(r.1),
    ensures
        s.len() == 0 ==> replaced(s, r.0, r.1).len() == 0,
        s.len() > 0 ==> replaced(s, r.0, r.1).len() > 0,
        s.len() > 0 && (s[0] == '&' || s[0] == '|') ==> replaced(s, r.0, r.1) == seq![s[0]]
            + replaced(s.skip(1), r.0, r.1),
        s.len() > 0 && s[0] != '&' ==> replaced(s, r.0, r.1)[0] != '&',
        s.len() > 0 && s[0] != '|' ==> replaced(s, r.0, r.1)[0] != '|',
{
    assert(r.0[0] != '&' && r.0[0] != '|');
    assert(r.1[0] != '&' && r.1[0] != '|');
    if s.len() > 0 && starts(s, r.0) {
        assert(s.take(r.0.len() as int)[0] == s[0]);
    }
}

/// A rule that moves white space, and has neither `&` nor `|`, keeps what a text says with
/// words for its operators.
proof fn lemma_rule_keeps_worded(inside: bool, s: Seq<char>, r: Rule)
    requires
        moves_space(r),
        is_plain(r.0),
        is_plain(r.1),
    ensures
        spoken(inside, worded(replaced(s, r.0, r.1))) == spoken(inside, worded(s)),
    decreases s.len(),
{
    let after = replaced(s, r.0, r.1);
    lemma_replaced_front(s, r);
    if s.len() > 0 {
        if starts(s, r.0) {
            let rest = s.skip(r.0.len() as int);
            assert(s =~= r.0 + rest);
            lemma_rule_keeps_worded(false, rest, r);
            lemma_wordless(inside, r.0);
            lemma_wordless(inside, r.1);
            lemma_worded_prefix(r.0, rest);
            lemma_worded_prefix(r.1, replaced(rest, r.0, r.1));
            lemma_spoken_split(inside, r.0, worded(rest));
            lemma_spoken_split(inside, r.1, worded(replaced(rest, r.0, r.1)));
        } else if s.len() >= 2 && ((s[0] == '&' && s[1] == '&') || (s[0] == '|' && s[1] == '|')) {
            let mid = s.skip(1);
            let rest = s.skip(2);
            assert(mid.skip(1) =~= rest);
            lemma_replaced_front(mid, r);
            let tail = replaced(rest, r.0, r.1);
            assert(after =~= seq![s[0], s[1]] + tail);
            assert(after.skip(2) =~= tail);
            let word = if s[0] == '&' {
                seq![' ', 'a', 'n', 'd', ' ']
            } else {
                seq![' ', 'o', 'r', ' ']
            };
            assert(worded(after) == word + worded(tail));
            assert(worded(s) == word + worded(rest));
            lemma_rule_keeps_worded(ends_inside(inside, word), rest, r);
            lemma_spoken_split(inside, word, worded(tail));
            lemma_spoken_split(inside, word, worded(rest));
        } else {
            let rest = s.skip(1);
            let one = seq![s[0]];
            let tail = replaced(rest, r.0, r.1);
            lemma_replaced_front(rest, r);
            assert(after == one + tail);
            assert(after.skip(1) =~= tail);
            assert(worded(after) == one + worded(tail)) by {
                if after.len() >= 2 {
                    assert(after[1] == tail[0]);
                    assert(rest.len() > 0 && rest[0] == s[1]);
                }
            }
            lemma_rule_keeps_worded(ends_inside(inside, one), rest, r);
            lemma_spoken_split(inside, one, worded(tail));
            lemma_spoken_split(inside, one, worded(rest));
        }
    }
}

proof fn lemma_rules_keep_worded(s: Seq<char>, n: int)
    requires
        0 <= n <= 9,
    ensures
        spoken(false, worded(rewritten(s, spacing_rules().take(n)))) == spoken(false, worded(s)),
    decreases n,
{
    let rules = spacing_rules();
    if n == 0 {
        assert(rules.take(0) =~= Seq::<Rule>::empty());
    } else {
        lemma_spacing_moves();
        lemma_rules_keep_worded(s, n - 1);
        assert(rules.take(n).drop_last() =~= rules.take(n - 1));
        assert(rules.take(n).last() == rules[n - 1]);
        lemma_spacing_plain(n - 1);
        assert(moves_space(rules[n - 1]));
        lemma_rule_keeps_worded(false, rewritten(s, rules.take(n - 1)), rules[n - 1]);
    }
}

proof fn lemma_spacing_plain(k: int)
    requires
        0 <= k < 9,
    ensures
        is_plain(spacing_rules()[k].0),
        is_plain(spacing_rules()[k].1),
{
    reveal_strlit("\n");
    reveal_strlit("\r");
    reveal_strlit(" ");
    reveal_strlit("{");
    reveal_strlit(" { ");
    reveal_strlit("}");
    reveal_strlit(" } ");
    reveal_strlit(",");
    reveal_strlit(" , ");
    reveal_strlit("==");
    reveal_strlit(" == ");
    reveal_strlit("!=");
    reveal_strlit(" != ");
    reveal_strlit(">=");
    reveal_strlit(" >= ");
    reveal_strlit("<=");
    reveal_strlit(" <= ");
}

/// The two rules for logical operators put words in their places.
proof fn lemma_operators_worded(s: Seq<char>)
    ensures
        replaced(replaced(s, "&&"@, " and "@), "||"@, " or "@) == worded(s),
        s.len() == 0 ==> replaced(s, "&&"@, " and "@).len() == 0,
        s.len() > 0 && s[0] != '|' ==> replaced(s, "&&"@, " and "@)[0] != '|',
    decreases s.len(),
{
    reveal_strlit("&&");
    reveal_strlit(" and ");
    reveal_strlit("||");
    reveal_strlit(" or ");
    let and = " and "@;
    let or = " or "@;
    assert(and =~= seq![' ', 'a', 'n', 'd', ' ']);
    assert(or =~= seq![' ', 'o', 'r', ' ']);
    let mid = replaced(s, "&&"@, and);
    if s.len() > 0 {
        if starts(s, "&&"@) {
            assert(s.take(2)[0] == s[0] && s.take(2)[1] == s[1]);
            let rest = s.skip(2);
            lemma_operators_worded(rest);
            let tail = replaced(rest, "&&"@, and);
            assert(mid == and + tail);
            lemma_pipe_free_prefix(and, tail);
        } else {
            if s.len() >= 2 && s[0] == '&' && s[1] == '&' {
                assert(s.take(2) =~= "&&"@);
            }
            let rest = s.skip(1);
            lemma_operators_worded(rest);
            let tail = replaced(rest, "&&"@, and);
            assert(mid == seq![s[0]] + tail);
            assert(mid.skip(1) =~= tail);
            if s.len() >= 2 && s[0] == '|' && s[1] == '|' {
                let last = s.skip(2);
                assert(rest.skip(1) =~= last);
                if starts(rest, "&&"@) {
                    assert(rest.take(2)[0] == rest[0]);
                }
                let end = replaced(last, "&&"@, and);
                assert(tail == seq![rest[0]] + end);
                assert(mid.take(2) =~= "||"@);
                assert(mid.skip(2) =~= end);
                lemma_operators_worded(last);
            } else {
                if starts(mid, "||"@) {
                    assert(mid.take(2)[0] == mid[0] && mid.take(2)[1] == mid[1]);
                    assert(tail[0] == '|');
                    assert(rest.len() > 0);
                    assert(rest[0] == s[1]);
                    assert(false);
                }
            }
        }
    }
}

proof fn lemma_pipe_free_prefix(p: Seq<char>, s: Seq<char>)
    requires
        is_plain(p),
    ensures
        replaced(p + s, "||"@, " or "@) == p + replaced(s, "||"@, " or "@),
    decreases p.len(),
{
    reveal_strlit("||");
    let all = p + s;
    if p.len() == 0 {
        assert(all =~= s);
        assert(p + replaced(s, "||"@, " or "@) =~= replaced(s, "||"@, " or "@));
    } else {
        assert(p[0] != '|');
        if starts(all, "||"@) {
            assert(all.take(2)[0] == all[0]);
        }
        assert(all.skip(1) =~= p.skip(1) + s);
        assert forall|i: int| 0 <= i < p.skip(1).len() implies #[trigger] p.skip(1)[i] != '&'
            && p.skip(1)[i] != '|' by {
            assert(p.skip(1)[i] == p[i + 1]);
        }
        lemma_pipe_free_prefix(p.skip(1), s);
        assert(seq![p[0]] + (p.skip(1) + replaced(s, "||"@, " or "@)) =~= p + replaced(
            s,
            "||"@,
            " or "@,
        ));
    }
}

/// Spacing a text out keeps what it says, with words for its operators.
proof fn lemma_spacing_keeps(s: Seq<char>)
    ensures
        spoken(false, rewritten(s, spacing_rules())) == spoken(false, worded(s)),
{
    let rules = spacing_rules();
    lemma_spacing_moves();
    lemma_rules_keep(s, rules, 11);
    let nine = rewritten(s, rules.take(9));
    assert(rules.take(11).drop_last() =~= rules.take(10));
    assert(rules.take(10).drop_last() =~= rules.take(9));
    assert(rewritten(s, rules.take(10)) == replaced(nine, "&&"@, " and "@));
    assert(rewritten(s, rules.take(11)) == replaced(
        replaced(nine, "&&"@, " and "@),
        "||"@,
        " or "@,
    ));
    lemma_operators_worded(nine);
    lemma_rules_keep_worded(s, 9);
}

/// Words that are joined by single spaces say the same.
proof fn lemma_words_keep(s: Seq<char>)
    ensures
        spoken(false, words_joined(s)) == spoken(false, s),
        s.len() > 0 && !white_space(s.last()) ==> words_joined(s).len() > 0 && words_joined(
            s,
        ).last() == s.last(),
    decreases s.len(),
{
    if s.len() > 0 {
        let rest = s.drop_last();
        let c = s.last();
        let one = seq![c];
        let before = words_joined(rest);
        lemma_words_keep(rest);
        assert(s =~= rest + one);
        lemma_spoken_split(false, rest, one);
        if white_space(c) {
            assert(one[0] == c);
            assert(one.skip(1) =~= Seq::<char>::empty());
            assert(spoken(false, one.skip(1)) == one.skip(1));
            assert(spoken(ends_inside(false, rest), one) == spoken(false, one.skip(1)));
            assert(spoken(false, s) =~= spoken(false, rest));
        } else if s.len() >= 2 && white_space(s[s.len() - 2]) && before.len() > 0 {
            let gap = seq![' ', c];
            lemma_spoken_split(false, before, gap);
            assert(gap.skip(1) =~= one);
            assert(rest.last() == s[s.len() - 2]);
            assert(spoken(ends_inside(false, before), gap) == spoken(false, one));
        } else {
            assert(before.push(c) =~= before + one);
            lemma_spoken_split(false, before, one);
            if rest.len() > 0 {
                assert(rest.last() == s[s.len() - 2]);
                if white_space(rest.last()) {
                    assert(before.len() == 0);
                }
            }
            assert(ends_inside(false, before) == ends_inside(false, rest));
        }
    }
}

/// `b` never stands directly behind `a` in `s`.
pub open spec fn parts(s: Seq<char>, a: char, b: char) -> bool {
    forall|i: int, j: int|
        0 <= i && j == i + 1 && j < s.len() ==> !(#[trigger] s[i] == a && #[trigger] s[j] == b)
}

/// A rule keeps `a` and `b` apart: what it puts in has them apart, and starts with the one or
/// ends with the other only where what it takes out does.
pub open spec fn keeps_apart(r: Rule, a: char, b: char) -> bool {
    &&& r.0.len() > 0 && r.1.len() > 0
    &&& parts(r.1, a, b)
    &&& r.1[0] == b ==> r.0[0] == b
    &&& r.1.last() == a ==> r.0.last() == a
}

proof fn lemma_parts_join(s: Seq<char>, t: Seq<char>, a: char, b: char)
    requires
        parts(s, a, b),
        parts(t, a, b),
        s.len() > 0 && t.len() > 0 ==> !(s.last() == a && t[0] == b),
    ensures
        parts(s + t, a, b),
{
    let all = s + t;
    assert forall|i: int, j: int| 0 <= i && j == i + 1 && j < all.len() implies !(
    #[trigger] all[i] == a && #[trigger] all[j] == b) by {
        if j < s.len() {
            assert(s[i] == all[i] && s[j] == all[j]);
        } else if i >= s.len() {
            assert(t[i - s.len()] == all[i] && t[j - s.len()] == all[j]);
        }
    }
}

proof fn lemma_parts_cut(s: Seq<char>, n: int, a: char, b: char)
    requires
        parts(s, a, b),
        0 <= n <= s.len(),
    ensures
        parts(s.skip(n), a, b),
        0 < n < s.len() ==> !(s[n - 1] == a && s[n] == b),
{
    let t = s.skip(n);
    assert forall|i: int, j: int| 0 <= i && j == i + 1 && j < t.len() implies !(#[trigger] t[i]
        == a && #[trigger] t[j] == b) by {
        assert(t[i] == s[n + i] && t[j] == s[n + j]);
    }
}

proof fn lemma_replaced_parts(s: Seq<char>, r: Rule, a: char, b: char)
    requires
        parts(s, a, b),
        keeps_apart(r, a, b),
    ensures
        parts(replaced(s, r.0, r.1), a, b),
        replaced(s, r.0, r.1).len() > 0 && replaced(s, r.0, r.1)[0] == b ==> s.len() > 0 && s[0]
            == b,
    decreases s.len(),
{
    if s.len() > 0 {
        if starts(s, r.0) {
            let n = r.0.len() as int;
            let rest = s.skip(n);
            lemma_parts_cut(s, n, a, b);
            lemma_replaced_parts(rest, r, a, b);
            assert(s.take(n)[0] == s[0]);
            assert(s.take(n)[n - 1] == s[n - 1]);
            lemma_parts_join(r.1, replaced(rest, r.0, r.1), a, b);
        } else {
            let rest = s.skip(1);
            let one = seq![s[0]];
            lemma_parts_cut(s, 1, a, b);
            lemma_replaced_parts(rest, r, a, b);
            lemma_parts_join(one, replaced(rest, r.0, r.1), a, b);
        }
    }
}

proof fn lemma_rewritten_parts(s: Seq<char>, rules: Seq<Rule>, done: int, a: char, b: char)
    requires
        0 <= done <= rules.len(),
        parts(rewritten(s, rules.take(done)), a, b),
        forall|k: int| done <= k < rules.len() ==> keeps_apart(#[trigger] rules[k], a, b),
    ensures
        parts(rewritten(s, rules), a, b),
    decreases rules.len(),
{
    if done == rules.len() {
        assert(rules.take(done) =~= rules);
    } else {
        let rest = rules.drop_last();
        assert(rest.take(done) =~= rules.take(done));
        assert forall|k: int| done <= k < rest.len() implies keeps_apart(
            #[trigger] rest[k],
            a,
            b,
        ) by {
            assert(rest[k] == rules[k]);
        }
        lemma_rewritten_parts(s, rest, done, a, b);
        assert(keeps_apart(rules[rules.len() - 1], a, b));
        lemma_replaced_parts(rewritten(s, rest), rules.last(), a, b);
    }
}

/// Joining words by single spaces keeps `a` and `b` apart, and all spaces.
proof fn lemma_words_parts(s: Seq<char>, a: char, b: char)
    requires
        parts(s, a, b),
        !white_space(a) && !white_space(b),
    ensures
        parts(words_joined(s), a, b),
    decreases s.len(),
{
    if s.len() > 0 {
        let rest = s.drop_last();
        let before = words_joined(rest);
        let n = s.len() as int;
        assert(parts(rest, a, b)) by {
            assert forall|i: int, j: int| 0 <= i && j == i + 1 && j < rest.len() implies !(
            #[trigger] rest[i] == a && #[trigger] rest[j] == b) by {
                assert(rest[i] == s[i] && rest[j] == s[j]);
            }
        }
        lemma_words_parts(rest, a, b);
        lemma_words_keep(rest);
        let c = s.last();
        if white_space(c) {
        } else if n >= 2 && white_space(s[n - 2]) && before.len() > 0 {
            lemma_parts_join(before, seq![' ', c], a, b);
        } else {
            if n >= 2 && !white_space(s[n - 2]) {
                assert(before.last() == s[n - 2]);
                assert(!(s[n - 2] == a && s[n - 1] == b));
            }
            assert(before.push(c) =~= before + seq![c]);
            lemma_parts_join(before, seq![c], a, b);
        }
    }
}

proof fn lemma_words_single(s: Seq<char>)
    ensures
        parts(words_joined(s), ' ', ' '),
        words_joined(s).len() > 0 ==> words_joined(s).last() != ' ',
    decreases s.len(),
{
    if s.len() > 0 {
        let before = words_joined(s.drop_last());
        lemma_words_single(s.drop_last());
        let c = s.last();
        if white_space(c) {
        } else if s.len() >= 2 && white_space(s[s.len() - 2]) && before.len() > 0 {
            lemma_parts_join(before, seq![' ', c], ' ', ' ');
        } else {
            assert(before.push(c) =~= before + seq![c]);
            lemma_parts_join(before, seq![c], ' ', ' ');
        }
    }
}

/// Setting a mark between spaces keeps everything else away from it.
proof fn lemma_set_apart(s: Seq<char>, m: char, b: char)
    requires
        m != ' ',
        b != ' ',
        b != m,
    ensures
        parts(replaced(s, seq![m], seq![' ', m, ' ']), m, b),
        parts(replaced(s, seq![m], seq![' ', m, ' ']), b, m),
        replaced(s, seq![m], seq![' ', m, ' ']).len() > 0 ==> replaced(
            s,
            seq![m],
            seq![' ', m, ' '],
        )[0] != m,
    decreases s.len(),
{
    let pat = seq![m];
    let rep = seq![' ', m, ' '];
    if s.len() > 0 {
        if starts(s, pat) {
            lemma_set_apart(s.skip(1), m, b);
            lemma_parts_join(rep, replaced(s.skip(1), pat, rep), m, b);
            lemma_parts_join(rep, replaced(s.skip(1), pat, rep), b, m);
        } else {
            if s[0] == m {
                assert(s.take(1) =~= pat);
            }
            lemma_set_apart(s.skip(1), m, b);
            lemma_parts_join(seq![s[0]], replaced(s.skip(1), pat, rep), m, b);
            lemma_parts_join(seq![s[0]], replaced(s.skip(1), pat, rep), b, m);
        }
    }
}

/// A mark that stands apart from words.
pub open spec fn is_operator(c: char) -> bool {
    ||| c == '=' || c == '<' || c == '>' || c == '+' || c == '-' || c == '*' || c == '/'
    ||| c == '|' || c == '}'
}

/// Two characters that no rule brings together.
spec fn stay_apart(a: char, b: char) -> bool {
    ||| is_operator(a) && is_wordy(b)
    ||| is_wordy(a) && is_operator(b)
    ||| a == ',' && b == '}'
}

/// Rules that set marks between spaces keep apart what they do not put in.
proof fn lemma_spacing_parts(s: Seq<char>, done: int, a: char, b: char)
    requires
        2 <= done <= 19,
        parts(rewritten(s, spacing_rules().take(done)), a, b),
        stay_apart(a, b),
    ensures
        parts(rewritten(s, spacing_rules()), a, b),
{
    reveal_strlit("{");
    reveal_strlit(" { ");
    reveal_strlit("}");
    reveal_strlit(" } ");
    reveal_strlit(",");
    reveal_strlit(" , ");
    reveal_strlit("==");
    reveal_strlit(" == ");
    reveal_strlit("!=");
    reveal_strlit(" != ");
    reveal_strlit(">=");
    reveal_strlit(" >= ");
    reveal_strlit("<=");
    reveal_strlit(" <= ");
    reveal_strlit("&&");
    reveal_strlit(" and ");
    reveal_strlit("||");
    reveal_strlit(" or ");
    reveal_strlit("|");
    reveal_strlit(" | ");
    reveal_strlit("=");
    reveal_strlit(" = ");
    reveal_strlit(">");
    reveal_strlit(" > ");
    reveal_strlit("<");
    reveal_strlit(" < ");
    reveal_strlit("+");
    reveal_strlit(" + ");
    reveal_strlit("-");
    reveal_strlit(" - ");
    reveal_strlit("*");
    reveal_strlit(" * ");
    reveal_strlit("/");
    reveal_strlit(" / ");
    let rules = spacing_rules();
    assert forall|k: int| done <= k < rules.len() implies keeps_apart(
        #[trigger] rules[k],
        a,
        b,
    ) by {
        let r = rules[k];
        assert(r.1[0] == ' ' && r.1.last() == ' ');
        assert(parts(r.1, a, b));
    }
    lemma_rewritten_parts(s, rules, done, a, b);
}

/// Where a rule of spacing sets the mark `m` apart, it stays away from `b`.
proof fn lemma_mark_apart(s: Seq<char>, k: int, m: char, b: char)
    requires
        2 <= k < 19,
        spacing_rules()[k] == (seq![m], seq![' ', m, ' ']),
        !white_space(m) && !white_space(b) && b != m,
    ensures
        stay_apart(m, b) ==> parts(words_joined(rewritten(s, spacing_rules())), m, b),
        stay_apart(b, m) ==> parts(words_joined(rewritten(s, spacing_rules())), b, m),
{
    let rules = spacing_rules();
    lemma_spacing_moves();
    let before = rewritten(s, rules.take(k));
    assert(rules.take(k + 1).drop_last() =~= rules.take(k));
    assert(rules.take(k + 1).last() == rules[k]);
    lemma_set_apart(before, m, b);
    if stay_apart(m, b) {
        lemma_spacing_parts(s, k + 1, m, b);
        lemma_words_parts(rewritten(s, rules), m, b);
    }
    if stay_apart(b, m) {
        lemma_spacing_parts(s, k + 1, b, m);
        lemma_words_parts(rewritten(s, rules), b, m);
    }
}

/// The words of a text that has been spaced out keep operators from words, and commas from
/// closing braces.
proof fn lemma_words_apart(s: Seq<char>, a: char, b: char)
    requires
        stay_apart(a, b),
    ensures
        parts(words_joined(rewritten(s, spacing_rules())), a, b),
{
    reveal_strlit("}");
    reveal_strlit(" } ");
    reveal_strlit(",");
    reveal_strlit(" , ");
    reveal_strlit("|");
    reveal_strlit(" | ");
    reveal_strlit("=");
    reveal_strlit(" = ");
    reveal_strlit(">");
    reveal_strlit(" > ");
    reveal_strlit("<");
    reveal_strlit(" < ");
    reveal_strlit("+");
    reveal_strlit(" + ");
    reveal_strlit("-");
    reveal_strlit(" - ");
    reveal_strlit("*");
    reveal_strlit(" * ");
    reveal_strlit("/");
    reveal_strlit(" / ");
    let m = if is_operator(a) || a == ',' {
        a
    } else {
        b
    };
    let other = if m == a {
        b
    } else {
        a
    };
    let k: int = if m == '}' {
        3
    } else if m == ',' {
        4
    } else if m == '|' {
        11
    } else if m == '=' {
        12
    } else if m == '>' {
        13
    } else if m == '<' {
        14
    } else if m == '+' {
        15
    } else if m == '-' {
        16
    } else if m == '*' {
        17
    } else {
        18
    };
    assert(spacing_rules()[k].0 =~= seq![m]);
    assert(spacing_rules()[k].1 =~= seq![' ', m, ' ']);
    lemma_mark_apart(s, k, m, other);
}

/// The joining rules keep apart what stays apart, and never put two spaces together.
proof fn lemma_joining_apart(a: char, b: char)
    requires
        stay_apart(a, b) || (a == ' ' && b == ' '),
    ensures
        forall|k: int| 0 <= k < 25 ==> keeps_apart(#[trigger] joining_rules()[k], a, b),
        stay_apart(a, b) && a != ',' ==> {
            &&& keeps_apart(joining_rules()[25], a, b)
            &&& keeps_apart((" { "@, "{ "@), a, b)
            &&& keeps_apart(joining_rules()[27], a, b)
        },
{
    reveal_strlit("= >");
    reveal_strlit("=>");
    reveal_strlit("- >");
    reveal_strlit("->");
    reveal_strlit("+ =");
    reveal_strlit("+=");
    reveal_strlit("- =");
    reveal_strlit("-=");
    reveal_strlit("* =");
    reveal_strlit("*=");
    reveal_strlit("/ =");
    reveal_strlit("/=");
    reveal_strlit("! =");
    reveal_strlit("!=");
    reveal_strlit("< =");
    reveal_strlit("<=");
    reveal_strlit("> =");
    reveal_strlit(">=");
    reveal_strlit("= =");
    reveal_strlit("==");
    reveal_strlit(" : ");
    reveal_strlit(":");
    reveal_strlit(" :: ");
    reveal_strlit("::");
    reveal_strlit(" . ");
    reveal_strlit(" .");
    reveal_strlit(". ");
    reveal_strlit(".");
    reveal_strlit(" ( ");
    reveal_strlit(" (");
    reveal_strlit("( ");
    reveal_strlit("(");
    reveal_strlit(" ) ");
    reveal_strlit(" )");
    reveal_strlit(")");
    reveal_strlit(" , ");
    reveal_strlit(", ");
    reveal_strlit(" & ");
    reveal_strlit("&");
    reveal_strlit(" ; ");
    reveal_strlit(";");
    reveal_strlit(" [ ");
    reveal_strlit("[");
    reveal_strlit(" ] ");
    reveal_strlit("]");
    reveal_strlit(", }");
    reveal_strlit(" }");
    reveal_strlit(" { ");
    reveal_strlit("{ ");
    reveal_strlit("! ");
    reveal_strlit("!");
    let rules = joining_rules();
    assert forall|k: int| 0 <= k < 25 implies keeps_apart(#[trigger] rules[k], a, b) by {
        assert(rules[k].1.len() <= 2);
        assert(parts(rules[k].1, a, b));
    }
}

/// The last comma before a closing brace goes, and nothing else.
proof fn lemma_comma_goes(inside: bool, s: Seq<char>)
    requires
        plainly_spaced(s),
        parts(s, ' ', ' '),
        parts(s, ',', '}'),
    ensures
        spoken(inside, replaced(s, ", }"@, " }"@)) == uncommaed(spoken(inside, s)),
    decreases s.len(),
{
    reveal_strlit(", }");
    reveal_strlit(" }");
    let pat = ", }"@;
    let rep = " }"@;
    assert(pat =~= seq![',', ' ', '}']);
    assert(rep =~= seq![' ', '}']);
    if s.len() > 0 {
        let whole = spoken(inside, s);
        if starts(s, pat) {
            let rest = s.skip(3);
            assert(s =~= pat + rest);
            lemma_parts_cut(s, 3, ' ', ' ');
            lemma_parts_cut(s, 3, ',', '}');
            assert(plainly_spaced(rest));
            lemma_comma_goes(false, rest);
            lemma_spoken3(',', ' ', '}');
            lemma_spoken2(' ', '}');
            lemma_wordless(inside, pat);
            lemma_wordless(inside, rep);
            lemma_spoken_split(inside, pat, rest);
            lemma_spoken_split(inside, rep, replaced(rest, pat, rep));
            let tail = spoken(false, rest);
            assert(whole =~= seq![',', '}'] + tail);
            let last = seq!['}'] + tail;
            assert(whole.skip(1) =~= last);
            assert(last.skip(1) =~= tail);
            assert(uncommaed(last) == seq!['}'] + uncommaed(tail));
            assert(spoken(inside, replaced(s, pat, rep)) =~= seq!['}'] + uncommaed(tail));
        } else {
            let rest = s.skip(1);
            lemma_parts_cut(s, 1, ' ', ' ');
            lemma_parts_cut(s, 1, ',', '}');
            assert(plainly_spaced(rest));
            let c = s[0];
            let after = seq![c] + replaced(rest, pat, rep);
            assert(after.skip(1) =~= replaced(rest, pat, rep));
            assert(after[0] == c);
            if white_space(c) {
                lemma_comma_goes(false, rest);
            } else if is_mark(c) {
                lemma_comma_goes(false, rest);
                let tail = spoken(false, rest);
                assert(whole == seq![c] + tail);
                assert(whole.skip(1) =~= tail);
                if c == ',' && tail.len() > 0 && tail[0] == '}' {
                    assert(rest.len() > 0);
                    assert(rest[0] == s[1]);
                    assert(s[0] == ',' && s[1] != '}');
                    if white_space(rest[0]) {
                        assert(rest[0] == ' ');
                        let more = rest.skip(1);
                        assert(tail == spoken(false, more));
                        assert(more.len() > 0);
                        assert(more[0] == s[2]);
                        assert(!(s[1] == ' ' && s[2] == ' '));
                        if white_space(s[2]) {
                            assert(s[2] == ' ');
                        }
                        assert(s[2] == '}');
                        assert(s.take(3) =~= pat);
                    }
                    assert(false);
                }
                assert(uncommaed(whole) == seq![c] + uncommaed(tail));
            } else {
                lemma_comma_goes(true, rest);
                let tail = spoken(true, rest);
                let word = seq![c] + tail;
                assert(word.skip(1) =~= tail);
                assert(uncommaed(word) == seq![c] + uncommaed(tail));
                if inside {
                    assert(whole == word);
                } else {
                    assert(whole =~= seq![' '] + word);
                    assert(whole.skip(1) =~= word);
                    assert(uncommaed(whole) == seq![' '] + uncommaed(word));
                    assert(seq![' ', c] + uncommaed(tail) =~= seq![' '] + (seq![c] + uncommaed(
                        tail,
                    )));
                }
            }
        }
    }
}

/// Taking the line breaks out of a text that has no `<b` of its own undoes putting them in.
proof fn lemma_breaks_out(s: Seq<char>)
    requires
        parts(s, '<', 'b'),
    ensures
        unbroken(replaced(s, " { "@, "<br/>{ "@)) == replaced(s, " { "@, "{ "@),
        replaced(s, " { "@, "<br/>{ "@).len() > 0 && replaced(s, " { "@, "<br/>{ "@)[0] == 'b'
            ==> s.len() > 0 && s[0] == 'b',
    decreases s.len(),
{
    reveal_strlit(" { ");
    reveal_strlit("<br/>{ ");
    reveal_strlit("{ ");
    let pat = " { "@;
    let rep = "<br/>{ "@;
    let open = "{ "@;
    if s.len() > 0 {
        let after = replaced(s, pat, rep);
        if starts(s, pat) {
            let rest = s.skip(3);
            lemma_parts_cut(s, 3, '<', 'b');
            lemma_breaks_out(rest);
            let tail = replaced(rest, pat, rep);
            assert(after == rep + tail);
            assert(stands_at(after, 0, line_break().push('{')));
            let a = after.skip(5);
            assert(a =~= open + tail);
            let b = a.skip(1);
            assert(!stands_at(a, 0, line_break().push('{'))) by {
                if stands_at(a, 0, line_break().push('{')) {
                    assert(a[0] == line_break().push('{')[0]);
                }
            }
            assert(!stands_at(b, 0, line_break().push('{'))) by {
                if stands_at(b, 0, line_break().push('{')) {
                    assert(b[0] == line_break().push('{')[0]);
                }
            }
            assert(b.skip(1) =~= tail);
            assert(unbroken(a) == seq![a[0]] + unbroken(b));
            assert(unbroken(b) == seq![b[0]] + unbroken(tail));
            assert(unbroken(a) =~= open + unbroken(tail));
        } else {
            let rest = s.skip(1);
            lemma_parts_cut(s, 1, '<', 'b');
            lemma_breaks_out(rest);
            let tail = replaced(rest, pat, rep);
            assert(after == seq![s[0]] + tail);
            assert(after.skip(1) =~= tail);
            if stands_at(after, 0, line_break().push('{')) {
                let w = line_break().push('{');
                assert(after[0] == w[0] && after[1] == w[1]);
                assert(tail[0] == 'b');
                assert(rest[0] == 'b' && s[0] == '<' && s[1] == 'b');
                assert(false);
            }
        }
    }
}

/// Moving a mark up to what it stands before makes no line break.
proof fn lemma_bangs_make_no_word(s: Seq<char>, word: Seq<char>)
    requires
        stands_at(replaced(s, "! "@, "!"@), 0, word),
        forall|k: int| 0 <= k < word.len() ==> #[trigger] word[k] != '!',
    ensures
        stands_at(s, 0, word),
    decreases word.len(),
{
    reveal_strlit("! ");
    reveal_strlit("!");
    let after = replaced(s, "! "@, "!"@);
    if word.len() > 0 {
        assert(after[0] == word[0]);
        assert(s.len() > 0);
        if starts(s, "! "@) {
            assert(after[0] == '!');
            assert(false);
        }
        let rest = word.skip(1);
        let tail = replaced(s.skip(1), "! "@, "!"@);
        assert(after == seq![s[0]] + tail);
        assert forall|k: int| 0 <= k < rest.len() implies tail[0 + k] == #[trigger] rest[k] by {
            assert(after[0 + (k + 1)] == word[k + 1]);
        }
        assert forall|k: int| 0 <= k < rest.len() implies #[trigger] rest[k] != '!' by {
            assert(rest[k] == word[k + 1]);
        }
        lemma_bangs_make_no_word(s.skip(1), rest);
        assert forall|k: int| 0 <= k < word.len() implies s[0 + k] == #[trigger] word[k] by {
            if k > 0 {
                assert(s.skip(1)[0 + (k - 1)] == rest[k - 1]);
            }
        }
    }
}

proof fn lemma_bang_free_prefix(p: Seq<char>, s: Seq<char>)
    requires
        forall|k: int| 0 <= k < p.len() ==> #[trigger] p[k] != '!',
    ensures
        replaced(p + s, "! "@, "!"@) == p + replaced(s, "! "@, "!"@),
    decreases p.len(),
{
    reveal_strlit("! ");
    let all = p + s;
    let tail = replaced(s, "! "@, "!"@);
    if p.len() == 0 {
        assert(all =~= s);
        assert(p + tail =~= tail);
    } else {
        assert(p[0] != '!');
        if starts(all, "! "@) {
            assert(all.take(2)[0] == all[0]);
        }
        assert(all.skip(1) =~= p.skip(1) + s);
        assert forall|k: int| 0 <= k < p.skip(1).len() implies #[trigger] p.skip(1)[k] != '!' by {
            assert(p.skip(1)[k] == p[k + 1]);
        }
        lemma_bang_free_prefix(p.skip(1), s);
        assert(seq![p[0]] + (p.skip(1) + tail) =~= p + tail);
    }
}

/// Line breaks can be taken out before or after marks are moved up.
proof fn lemma_bangs_between(s: Seq<char>)
    ensures
        unbroken(replaced(s, "! "@, "!"@)) == replaced(unbroken(s), "! "@, "!"@),
        s.len() == 0 <==> unbroken(s).len() == 0,
        s.len() > 0 && s[0] == ' ' ==> unbroken(s)[0] == ' ',
        s.len() > 0 && s[0] != ' ' ==> unbroken(s)[0] != ' ',
    decreases s.len(),
{
    reveal_strlit("! ");
    reveal_strlit("!");
    let w = line_break().push('{');
    let after = replaced(s, "! "@, "!"@);
    if s.len() > 0 {
        if stands_at(s, 0, w) {
            let b = line_break();
            let rest = s.skip(5);
            assert(s =~= b + rest) by {
                assert forall|k: int| 0 <= k < 5 implies s[k] == b[k] by {
                    assert(s[0 + k] == w[k]);
                }
            }
            assert(s[5] == w[5]);
            assert(rest[0] == '{');
            lemma_bang_free_prefix(b, rest);
            lemma_bangs_between(rest);
            let one = seq!['{'];
            let more = rest.skip(1);
            assert(rest =~= one + more);
            lemma_bang_free_prefix(one, more);
            let tail = replaced(rest, "! "@, "!"@);
            assert(tail[0] == '{');
            assert(after == b + tail);
            assert(stands_at(after, 0, w));
            assert(after.skip(5) =~= tail);
            // What the break stands before is the same brace on both sides.
            assert(unbroken(rest)[0] != ' ');
        } else if starts(s, "! "@) {
            assert(s.take(2)[0] == s[0] && s.take(2)[1] == s[1]);
            let rest = s.skip(2);
            lemma_bangs_between(rest);
            let tail = replaced(rest, "! "@, "!"@);
            assert(after == "!"@ + tail);
            assert(after[0] == '!');
            assert(after.skip(1) =~= tail);
            if stands_at(after, 0, w) {
                assert(after[0] == w[0]);
            }
            let mid = s.skip(1);
            assert(mid.skip(1) =~= rest);
            if stands_at(mid, 0, w) {
                assert(mid[0] == w[0]);
            }
            assert(unbroken(s) == seq![s[0]] + unbroken(mid));
            assert(unbroken(mid) == seq![mid[0]] + unbroken(rest));
            assert(unbroken(s) =~= "! "@ + unbroken(rest));
            let u = unbroken(s);
            assert(u.take(2) =~= "! "@);
            assert(u.skip(2) =~= unbroken(rest));
            assert(unbroken(after) =~= "!"@ + unbroken(tail));
        } else {
            let rest = s.skip(1);
            lemma_bangs_between(rest);
            let tail = replaced(rest, "! "@, "!"@);
            assert(after == seq![s[0]] + tail);
            assert(after.skip(1) =~= tail);
            if stands_at(after, 0, w) {
                assert forall|k: int| 0 <= k < w.len() implies #[trigger] w[k] != '!' by {}
                lemma_bangs_make_no_word(s, w);
                assert(false);
            }
            let u = unbroken(s);
            assert(u == seq![s[0]] + unbroken(rest));
            assert(u.skip(1) =~= unbroken(rest));
            if starts(u, "! "@) {
                assert(u.take(2)[0] == u[0] && u.take(2)[1] == u[1]);
                assert(unbroken(rest)[0] == ' ');
                assert(rest.len() > 0 && rest[0] == ' ');
                assert(s.take(2) =~= "! "@);
                assert(false);
            }
        }
    }
}

/// Neither of `a` and `b` stands directly behind the other.
spec fn part_both_ways(s: Seq<char>, a: char, b: char) -> bool {
    parts(s, a, b) && parts(s, b, a)
}

/// The label without its line breaks, step by step.
proof fn lemma_unbroken_label(s: Seq<char>) -> (last: Seq<char>)
    ensures
        unbroken(cleaned(s)) == replaced(replaced(last, " { "@, "{ "@), "! "@, "!"@),
        spoken(false, last) == uncommaed(spoken(false, worded(s))),
        cleaned(s) == replaced(replaced(last, " { "@, "<br/>{ "@), "! "@, "!"@),
        forall|a: char, b: char|
            is_operator(a) && is_wordy(b) ==> #[trigger] part_both_ways(last, a, b),
{
    let rules = joining_rules();
    lemma_joining_moves();
    let words = words_joined(rewritten(s, spacing_rules()));
    lemma_spacing_keeps(s);
    lemma_words_keep(rewritten(s, spacing_rules()));
    lemma_words_single(rewritten(s, spacing_rules()));
    lemma_words_spaced(rewritten(s, spacing_rules()));
    let first = rules.take(25);
    assert(first.take(0) =~= Seq::<Rule>::empty());
    assert forall|k: int| 0 <= k < first.len() implies moves_space(#[trigger] first[k]) by {
        assert(first[k] == rules[k]);
    }
    lemma_rules_keep(words, first, 0);
    let y = rewritten(words, first);
    lemma_joining_rules();
    assert forall|k: int| 0 <= k < first.len() implies plainly_spaced((#[trigger] first[k]).1) by {
        assert(first[k] == rules[k]);
    }
    lemma_rewritten_spaced(words, first);
    assert forall|a: char, b: char|
        stay_apart(a, b) || (a == ' ' && b == ' ') implies #[trigger] parts(y, a, b) by {
        lemma_joining_apart(a, b);
        assert forall|k: int| 0 <= k < first.len() implies keeps_apart(
            #[trigger] first[k],
            a,
            b,
        ) by {
            assert(first[k] == rules[k]);
        }
        if stay_apart(a, b) {
            lemma_words_apart(s, a, b);
        }
        lemma_rewritten_parts(words, first, 0, a, b);
    }
    assert(parts(y, ' ', ' '));
    assert(parts(y, ',', '}'));
    lemma_comma_goes(false, y);
    let last = replaced(y, ", }"@, " }"@);
    assert(rules.take(26).drop_last() =~= rules.take(25));
    assert(rules.take(27).drop_last() =~= rules.take(26));
    assert(rules.take(28).drop_last() =~= rules.take(27));
    assert(rules.take(28) =~= rules);
    assert(rewritten(words, rules.take(26)) == last);
    assert(rewritten(words, rules.take(27)) == replaced(last, " { "@, "<br/>{ "@));
    assert(cleaned(s) == replaced(replaced(last, " { "@, "<br/>{ "@), "! "@, "!"@));
    assert forall|a: char, b: char|
        is_operator(a) && is_wordy(b) implies #[trigger] part_both_ways(last, a, b) by {
        lemma_joining_apart(a, b);
        lemma_joining_apart(b, a);
        assert(parts(y, a, b) && parts(y, b, a));
        lemma_replaced_parts(y, rules[25], a, b);
        lemma_replaced_parts(y, rules[25], b, a);
    }
    assert(is_operator('<') && is_wordy('b'));
    assert(part_both_ways(last, '<', 'b'));
    lemma_breaks_out(last);
    lemma_bangs_between(replaced(last, " { "@, "<br/>{ "@));
    last
}

/// A label says what its source text says: the same marks and the same words in the same
/// order, but that the logical operators are words, that a comma directly before a closing
/// brace goes, and that line breaks stand before opening braces.
pub proof fn law_label_says_its_text(s: Seq<char>)
    ensures
        spoken(false, unbroken(cleaned(s))) == uncommaed(spoken(false, worded(s))),
{
    let last = lemma_unbroken_label(s);
    reveal_strlit(" { ");
    reveal_strlit("{ ");
    reveal_strlit("! ");
    reveal_strlit("!");
    assert(" { "@ =~= seq![' ', '{', ' ']);
    assert("{ "@ =~= seq!['{', ' ']);
    assert("! "@ =~= seq!['!', ' ']);
    assert("!"@ =~= seq!['!']);
    lemma_spoken3(' ', '{', ' ');
    lemma_spoken2('{', ' ');
    lemma_spoken2('!', ' ');
    lemma_spoken1('!');
    assert(mark_of(' ') + mark_of('{') + mark_of(' ') =~= mark_of('{') + mark_of(' '));
    assert(mark_of('!') + mark_of(' ') =~= mark_of('!'));
    lemma_rule_keeps(false, last, (" { "@, "{ "@));
    lemma_rule_keeps(false, replaced(last, " { "@, "{ "@), ("! "@, "!"@));
}

/// A text that has no logical operators, and no comma before a closing brace, is said by its
/// label as it is: no mark becomes another one, none comes in, and none is lost.
pub proof fn law_label_keeps_plain_text(s: Seq<char>)
    requires
        parts(s, '&', '&'),
        parts(s, '|', '|'),
        parts(spoken(false, s), ',', '}'),
    ensures
        spoken(false, unbroken(cleaned(s))) == spoken(false, s),
{
    law_label_says_its_text(s);
    lemma_worded_plain(s);
    lemma_uncommaed_plain(spoken(false, s));
}

proof fn lemma_worded_plain(s: Seq<char>)
    requires
        parts(s, '&', '&'),
        parts(s, '|', '|'),
    ensures
        worded(s) == s,
    decreases s.len(),
{
    if s.len() > 0 {
        lemma_parts_cut(s, 1, '&', '&');
        lemma_parts_cut(s, 1, '|', '|');
        lemma_worded_plain(s.skip(1));
        assert(seq![s[0]] + s.skip(1) =~= s);
    }
}

proof fn lemma_uncommaed_plain(s: Seq<char>)
    requires
        parts(s, ',', '}'),
    ensures
        uncommaed(s) == s,
    decreases s.len(),
{
    if s.len() > 0 {
        lemma_parts_cut(s, 1, ',', '}');
        lemma_uncommaed_plain(s.skip(1));
        assert(seq![s[0]] + s.skip(1) =~= s);
    }
}

/// In a label, operators and closing braces stand apart from words.
pub proof fn law_operators_stand_apart(s: Seq<char>, operator: char, c: char)
    requires
        is_operator(operator),
        is_wordy(c),
    ensures
        parts(unbroken(cleaned(s)), operator, c),
        parts(unbroken(cleaned(s)), c, operator),
{
    let last = lemma_unbroken_label(s);
    lemma_joining_apart(operator, c);
    lemma_joining_apart(c, operator);
    assert(part_both_ways(last, operator, c));
    let mid = replaced(last, " { "@, "{ "@);
    lemma_replaced_parts(last, (" { "@, "{ "@), operator, c);
    lemma_replaced_parts(last, (" { "@, "{ "@), c, operator);
    lemma_replaced_parts(mid, joining_rules()[27], operator, c);
    lemma_replaced_parts(mid, joining_rules()[27], c, operator);
}

/// An opening brace between spaces.
pub open spec fn spaced_brace() -> Seq<char> {
    seq![' ', '{', ' ']
}

/// An opening brace between spaces stands in `s` directly behind another one only, where
/// `prev` is the character before `s`.
spec fn braces_break(prev: char, s: Seq<char>) -> bool {
    forall|i: int| #[trigger]
        stands_at(s, i, spaced_brace()) ==> if i == 0 {
            prev == '{'
        } else {
            s[i - 1] == '{'
        }
}

proof fn lemma_braces_join(prev: char, s: Seq<char>, t: Seq<char>)
    requires
        braces_break(s.last(), t),
        s.len() > 0,
        forall|i: int|
            i < s.len() && #[trigger] stands_at(s + t, i, spaced_brace()) ==> if i == 0 {
                prev == '{'
            } else {
                s[i - 1] == '{'
            },
    ensures
        braces_break(prev, s + t),
{
    let w = spaced_brace();
    let all = s + t;
    assert forall|i: int| #[trigger] stands_at(all, i, w) implies if i == 0 {
        prev == '{'
    } else {
        all[i - 1] == '{'
    } by {
        if i >= s.len() {
            let j = i - s.len();
            assert forall|k: int| 0 <= k < w.len() implies t[j + k] == #[trigger] w[k] by {
                assert(all[i + k] == w[k]);
            }
            assert(stands_at(t, j, w));
        }
    }
}

proof fn lemma_breaks_put_in(prev: char, s: Seq<char>)
    requires
        prev != '{',
    ensures
        ({
            let r = replaced(s, " { "@, "<br/>{ "@);
            forall|i: int| #[trigger]
                stands_at(r, i, spaced_brace()) ==> i > 0 && r[i - 1] == '{'
        }),
        stands_at(replaced(s, " { "@, "<br/>{ "@), 0, seq!['{', ' ']) ==> stands_at(
            s,
            0,
            seq!['{', ' '],
        ),
        stands_at(replaced(s, " { "@, "<br/>{ "@), 0, seq![' ']) ==> stands_at(s, 0, seq![' ']),
    decreases s.len(),
{
    reveal_strlit(" { ");
    reveal_strlit("<br/>{ ");
    let pat = " { "@;
    let rep = "<br/>{ "@;
    let w = spaced_brace();
    let r = replaced(s, pat, rep);
    if s.len() > 0 {
        if starts(s, pat) {
            let rest = s.skip(3);
            lemma_breaks_put_in(prev, rest);
            let tail = replaced(rest, pat, rep);
            assert(r == rep + tail);
            assert forall|i: int| #[trigger] stands_at(r, i, w) implies i > 0 && r[i - 1]
                == '{' by {
                assert(r[i + 0] == w[0] && r[i + 1] == w[1] && r[i + 2] == w[2]);
                if i >= 7 {
                    let j = i - 7;
                    assert forall|k: int| 0 <= k < w.len() implies tail[j + k] == #[trigger] w[k] by {
                        assert(r[i + k] == w[k]);
                    }
                    assert(stands_at(tail, j, w));
                }
            }
            if stands_at(r, 0, seq!['{', ' ']) {
                assert(r[0] == seq!['{', ' '][0]);
            }
            if stands_at(r, 0, seq![' ']) {
                assert(r[0] == seq![' '][0]);
            }
        } else {
            let rest = s.skip(1);
            lemma_breaks_put_in(prev, rest);
            let tail = replaced(rest, pat, rep);
            assert(r == seq![s[0]] + tail);
            if stands_at(r, 0, seq!['{', ' ']) {
                let o = seq!['{', ' '];
                assert(r[0] == o[0] && r[1] == o[1]);
                assert(tail[0] == seq![' '][0]);
                assert(stands_at(tail, 0, seq![' ']));
                assert(rest[0] == seq![' '][0]);
                assert forall|k: int| 0 <= k < 2 implies s[0 + k] == #[trigger] o[k] by {}
            }
            if stands_at(r, 0, seq![' ']) {
                assert(r[0] == seq![' '][0]);
                assert(s[0] == seq![' '][0]);
            }
            assert forall|i: int| #[trigger] stands_at(r, i, w) implies i > 0 && r[i - 1]
                == '{' by {
                assert(r[i + 0] == w[0] && r[i + 1] == w[1] && r[i + 2] == w[2]);
                if i == 0 {
                    let o = seq!['{', ' '];
                    assert forall|k: int| 0 <= k < 2 implies tail[0 + k] == #[trigger] o[k] by {
                        assert(r[0 + (k + 1)] == w[k + 1]);
                    }
                    assert(stands_at(tail, 0, o));
                    assert(rest[0] == o[0] && rest[1] == o[1]);
                    assert(s.take(3) =~= pat);
                    assert(false);
                } else {
                    let j = i - 1;
                    assert forall|k: int| 0 <= k < w.len() implies tail[j + k] == #[trigger] w[k] by {
                        assert(r[i + k] == w[k]);
                    }
                    assert(stands_at(tail, j, w));
                    assert(r[i - 1] == tail[j - 1]);
                }
            }
        }
    }
}

proof fn lemma_bangs_keep_breaks(prev: char, s: Seq<char>)
    requires
        braces_break(prev, s),
    ensures
        braces_break(prev, replaced(s, "! "@, "!"@)),
    decreases s.len(),
{
    reveal_strlit("! ");
    reveal_strlit("!");
    let w = spaced_brace();
    let r = replaced(s, "! "@, "!"@);
    if s.len() == 0 {
    } else if starts(s, "! "@) {
        let rest = s.skip(2);
        assert(s.take(2)[0] == s[0] && s.take(2)[1] == s[1]);
        assert(braces_break(' ', rest)) by {
            assert forall|i: int| #[trigger] stands_at(rest, i, w) implies if i == 0 {
                ' ' == '{'
            } else {
                rest[i - 1] == '{'
            } by {
                assert forall|k: int| 0 <= k < w.len() implies s[i + 2 + k] == #[trigger] w[k] by {
                    assert(rest[i + k] == w[k]);
                }
                assert(stands_at(s, i + 2, w));
            }
        }
        lemma_bangs_keep_breaks(' ', rest);
        let tail = replaced(rest, "! "@, "!"@);
        assert(r == "!"@ + tail);
        assert(braces_break('!', tail)) by {
            assert forall|i: int| #[trigger] stands_at(tail, i, w) implies if i == 0 {
                '!' == '{'
            } else {
                tail[i - 1] == '{'
            } by {}
        }
        assert forall|i: int| i < 1 && #[trigger] stands_at("!"@ + tail, i, w) implies if i == 0 {
            prev == '{'
        } else {
            "!"@[i - 1] == '{'
        } by {
            assert(r[i + 0] == w[0]);
        }
        lemma_braces_join(prev, "!"@, tail);
    } else {
        let rest = s.skip(1);
        let one = seq![s[0]];
        assert(braces_break(s[0], rest)) by {
            assert forall|i: int| #[trigger] stands_at(rest, i, w) implies if i == 0 {
                s[0] == '{'
            } else {
                rest[i - 1] == '{'
            } by {
                assert forall|k: int| 0 <= k < w.len() implies s[i + 1 + k] == #[trigger] w[k] by {
                    assert(rest[i + k] == w[k]);
                }
                assert(stands_at(s, i + 1, w));
            }
        }
        lemma_bangs_keep_breaks(s[0], rest);
        let tail = replaced(rest, "! "@, "!"@);
        assert(r == one + tail);
        assert forall|i: int| i < 1 && #[trigger] stands_at(one + tail, i, w) implies if i == 0 {
            prev == '{'
        } else {
            one[i - 1] == '{'
        } by {
            lemma_bangs_make_no_word(s, w);
            assert(stands_at(s, 0, w));
        }
        lemma_braces_join(prev, one, tail);
    }
}

/// An opening brace behind other text starts a line: between two spaces it stands in a label
/// directly behind another opening brace only.
pub proof fn law_braces_start_lines(s: Seq<char>, i: int)
    requires
        stands_at(cleaned(s), i, spaced_brace()),
    ensures
        i > 0,
        cleaned(s)[i - 1] == '{',
{
    let last = lemma_unbroken_label(s);
    let broken = replaced(last, " { "@, "<br/>{ "@);
    lemma_breaks_put_in(' ', last);
    assert(braces_break(' ', broken));
    lemma_bangs_keep_breaks(' ', broken);
}

/// Tidying moves white space only.
pub proof fn lemma_tidied_keeps(s: Seq<char>)
    ensures
        spoken(false, tidied(s)) == spoken(false, s),
{
    lemma_spacing_moves();
    lemma_joining_moves();
    assert(moves_space(spacing_rules()[0]));
    assert(moves_space(spacing_rules()[1]));
    assert(moves_space(joining_rules()[10]));
    assert(moves_space(joining_rules()[11]));
    let one = replaced(s, "\n"@, " "@);
    let two = replaced(one, "\r"@, " "@);
    let words = words_joined(two);
    let four = replaced(words, " : "@, ":"@);
    lemma_rule_keeps(false, s, ("\n"@, " "@));
    lemma_rule_keeps(false, one, ("\r"@, " "@));
    lemma_words_keep(two);
    lemma_rule_keeps(false, words, (" : "@, ":"@));
    lemma_rule_keeps(false, four, (" :: "@, "::"@));
}

/// Moving a mark up to what stands before it leaves no space there.
proof fn lemma_moved_up(s: Seq<char>, c: char)
    requires
        parts(s, ' ', ' '),
        c != ' ',
    ensures
        parts(replaced(s, seq![' ', c], seq![c]), ' ', c),
        replaced(s, seq![' ', c], seq![c]).len() > 0 && replaced(s, seq![' ', c], seq![c])[0] == c
            ==> s.len() > 0 && (s[0] == c || starts(s, seq![' ', c])),
    decreases s.len(),
{
    let pat = seq![' ', c];
    let rep = seq![c];
    if s.len() > 0 {
        if starts(s, pat) {
            let rest = s.skip(2);
            lemma_parts_cut(s, 2, ' ', ' ');
            lemma_moved_up(rest, c);
            lemma_parts_join(rep, replaced(rest, pat, rep), ' ', c);
        } else {
            let rest = s.skip(1);
            lemma_parts_cut(s, 1, ' ', ' ');
            lemma_moved_up(rest, c);
            let tail = replaced(rest, pat, rep);
            if s[0] == ' ' && tail.len() > 0 && tail[0] == c {
                if rest[0] == c {
                    assert(s.take(2) =~= pat);
                } else {
                    assert(rest.take(2)[0] == rest[0]);
                    assert(s[0] == ' ' && s[1] == ' ');
                }
                assert(false);
            }
            lemma_parts_join(seq![s[0]], tail, ' ', c);
        }
    }
}

/// The rules behind the one that moves the mark `c` up leave it there.
proof fn lemma_stays_up(c: char, from: int)
    requires
        c == '.' && from == 14 || c == '(' && from == 18 || c == ')' && from == 20,
    ensures
        forall|k: int| from <= k < 28 ==> keeps_apart(#[trigger] joining_rules()[k], ' ', c),
        joining_rules()[from - 1] == (seq![' ', c], seq![c]),
{
    reveal_strlit("= >");
    reveal_strlit("=>");
    reveal_strlit("- >");
    reveal_strlit("->");
    reveal_strlit("+ =");
    reveal_strlit("+=");
    reveal_strlit("- =");
    reveal_strlit("-=");
    reveal_strlit("* =");
    reveal_strlit("*=");
    reveal_strlit("/ =");
    reveal_strlit("/=");
    reveal_strlit("! =");
    reveal_strlit("!=");
    reveal_strlit("< =");
    reveal_strlit("<=");
    reveal_strlit("> =");
    reveal_strlit(">=");
    reveal_strlit("= =");
    reveal_strlit("==");
    reveal_strlit(" : ");
    reveal_strlit(":");
    reveal_strlit(" :: ");
    reveal_strlit("::");
    reveal_strlit(" . ");
    reveal_strlit(" .");
    reveal_strlit(". ");
    reveal_strlit(".");
    reveal_strlit(" ( ");
    reveal_strlit(" (");
    reveal_strlit("( ");
    reveal_strlit("(");
    reveal_strlit(" ) ");
    reveal_strlit(" )");
    reveal_strlit(")");
    reveal_strlit(" , ");
    reveal_strlit(", ");
    reveal_strlit(" & ");
    reveal_strlit("&");
    reveal_strlit(" ; ");
    reveal_strlit(";");
    reveal_strlit(" [ ");
    reveal_strlit("[");
    reveal_strlit(" ] ");
    reveal_strlit("]");
    reveal_strlit(", }");
    reveal_strlit(" }");
    reveal_strlit(" { ");
    reveal_strlit("{ ");
    reveal_strlit("! ");
    reveal_strlit("!");
    reveal_strlit("<br/>{ ");
    let rules = joining_rules();
    assert(rules[from - 1].0 =~= seq![' ', c]);
    assert(rules[from - 1].1 =~= seq![c]);
    assert forall|k: int| from <= k < 28 implies keeps_apart(#[trigger] rules[k], ' ', c) by {
        assert(parts(rules[k].1, ' ', c));
    }
}

/// In a label no space stands before a point, or before a parenthesis.
pub proof fn law_marks_moved_up(s: Seq<char>, c: char)
    requires
        c == '.' || c == '(' || c == ')',
    ensures
        parts(cleaned(s), ' ', c),
{
    let rules = joining_rules();
    let words = words_joined(rewritten(s, spacing_rules()));
    let from: int = if c == '.' {
        14
    } else if c == '(' {
        18
    } else {
        20
    };
    lemma_joining_moves();
    lemma_words_single(rewritten(s, spacing_rules()));
    lemma_joining_apart(' ', ' ');
    let first = rules.take(from - 1);
    assert(first.take(0) =~= Seq::<Rule>::empty());
    assert forall|k: int| 0 <= k < first.len() implies keeps_apart(
        #[trigger] first[k],
        ' ',
        ' ',
    ) by {
        assert(first[k] == rules[k]);
    }
    lemma_rewritten_parts(words, first, 0, ' ', ' ');
    lemma_stays_up(c, from);
    lemma_moved_up(rewritten(words, first), c);
    assert(rules.take(from).drop_last() =~= first);
    assert(rules.take(from).last() == rules[from - 1]);
    lemma_rewritten_parts(words, rules, from, ' ', c);
}

} // verus!
