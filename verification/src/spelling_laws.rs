//! How a mark between two words is written in a label.
use vstd::prelude::*;

use crate::keeping_laws::is_wordy;
use crate::labels::{cleaned, joining_rules, rewritten, spacing_rules, Rule};
use crate::space_laws::law_words_joined;
use crate::text::{replaced, starts, white_space, words_joined};
use crate::text_laws::{law_first_replaced, law_nothing_replaced, stands_at};

verus! {

/// `a` is a word.
pub open spec fn is_word(a: Seq<char>) -> bool {
    a.len() > 0 && forall|i: int| 0 <= i < a.len() ==> is_wordy(#[trigger] a[i])
}

/// A text to look for that holds no character of a word.
spec fn is_wordless(p: Seq<char>) -> bool {
    p.len() > 0 && forall|i: int| 0 <= i < p.len() ==> !is_wordy(#[trigger] p[i])
}

/// What is looked for is not found in a word at the start.
proof fn lemma_behind_word(a: Seq<char>, s: Seq<char>, p: Seq<char>, r: Seq<char>)
    requires
        forall|i: int| 0 <= i < a.len() ==> is_wordy(#[trigger] a[i]),
        is_wordless(p),
    ensures
        replaced(a + s, p, r) == a + replaced(s, p, r),
    decreases a.len(),
{
    if a.len() == 0 {
        assert(a + s =~= s);
        assert(a + replaced(s, p, r) =~= replaced(s, p, r));
    } else {
        let all = a + s;
        let rest = a.skip(1);
        assert(is_wordy(a[0]));
        assert(all.skip(1) =~= rest + s);
        assert(!starts(all, p)) by {
            if starts(all, p) {
                assert(all.take(p.len() as int)[0] == p[0]);
            }
        }
        assert forall|i: int| 0 <= i < rest.len() implies is_wordy(#[trigger] rest[i]) by {
            assert(rest[i] == a[i + 1]);
        }
        lemma_behind_word(rest, s, p, r);
        assert(seq![all[0]] + (rest + replaced(s, p, r)) =~= a + replaced(s, p, r));
    }
}

/// What is looked for is not found in a word at the end.
proof fn lemma_before_word(s: Seq<char>, b: Seq<char>, p: Seq<char>, r: Seq<char>)
    requires
        forall|i: int| 0 <= i < b.len() ==> is_wordy(#[trigger] b[i]),
        is_wordless(p),
    ensures
        replaced(s + b, p, r) == replaced(s, p, r) + b,
    decreases s.len(),
{
    let n = p.len() as int;
    let all = s + b;
    if s.len() == 0 {
        let none = Seq::<char>::empty();
        assert(all =~= b + none);
        lemma_behind_word(b, none, p, r);
        assert(replaced(s, p, r) + b =~= b);
        assert(b + replaced(none, p, r) =~= b);
    } else {
        assert(starts(all, p) == starts(s, p)) by {
            if n <= s.len() {
                assert(all.take(n) =~= s.take(n));
            } else if starts(all, p) {
                assert(all.take(n)[s.len() as int] == b[0]);
                assert(is_wordy(b[0]));
            }
        }
        if starts(s, p) {
            assert(all.skip(n) =~= s.skip(n) + b);
            lemma_before_word(s.skip(n), b, p, r);
            assert(r + (replaced(s.skip(n), p, r) + b) =~= (r + replaced(s.skip(n), p, r)) + b);
        } else {
            assert(all.skip(1) =~= s.skip(1) + b);
            lemma_before_word(s.skip(1), b, p, r);
            let one = seq![s[0]];
            assert(one + (replaced(s.skip(1), p, r) + b) =~= (one + replaced(s.skip(1), p, r))
                + b);
        }
    }
}

/// Rules that look for no words change what stands between two words only.
proof fn lemma_between_words(a: Seq<char>, m: Seq<char>, b: Seq<char>, rules: Seq<Rule>)
    requires
        is_word(a),
        is_word(b),
        forall|k: int| 0 <= k < rules.len() ==> is_wordless((#[trigger] rules[k]).0),
    ensures
        rewritten(a + m + b, rules) == a + rewritten(m, rules) + b,
    decreases rules.len(),
{
    if rules.len() > 0 {
        let rest = rules.drop_last();
        assert forall|k: int| 0 <= k < rest.len() implies is_wordless((#[trigger] rest[k]).0) by {
            assert(rest[k] == rules[k]);
        }
        lemma_between_words(a, m, b, rest);
        assert(is_wordless(rules[rules.len() - 1].0));
        let x = rewritten(m, rest);
        let r = rules.last();
        lemma_before_word(a + x, b, r.0, r.1);
        lemma_behind_word(a, x, r.0, r.1);
    }
}

/// `p` holds a character that is none of three.
spec fn is_strange(x: char, y: char, z: char, p: Seq<char>) -> bool {
    ||| p.len() > 0 && p[0] != x && p[0] != y && p[0] != z
    ||| p.len() > 1 && p[1] != x && p[1] != y && p[1] != z
    ||| p.len() > 2 && p[2] != x && p[2] != y && p[2] != z
}

/// `m` holds no characters but three.
spec fn is_made_of(x: char, y: char, z: char, m: Seq<char>) -> bool {
    forall|i: int| 0 <= i < m.len() ==> #[trigger] m[i] == x || m[i] == y || m[i] == z
}

proof fn lemma_strange(x: char, y: char, z: char, m: Seq<char>, p: Seq<char>, r: Seq<char>)
    requires
        is_made_of(x, y, z, m),
        is_strange(x, y, z, p),
    ensures
        replaced(m, p, r) == m,
{
    assert forall|i: int| 0 <= i < m.len() implies !#[trigger] stands_at(m, i, p) by {
        if stands_at(m, i, p) {
            assert(m[i + 0] == p[0]);
            if p.len() > 1 {
                assert(m[i + 1] == p[1]);
            }
            if p.len() > 2 {
                assert(m[i + 2] == p[2]);
            }
        }
    }
    law_nothing_replaced(m, p, r);
}

/// Rules that look for something strange change nothing.
proof fn lemma_strange_rules(
    x: char,
    y: char,
    z: char,
    m: Seq<char>,
    v: Seq<char>,
    rules: Seq<Rule>,
    from: int,
    to: int,
)
    requires
        0 <= from <= to <= rules.len(),
        rewritten(m, rules.take(from)) == v,
        is_made_of(x, y, z, v),
        forall|k: int| from <= k < to ==> is_strange(x, y, z, (#[trigger] rules[k]).0),
    ensures
        rewritten(m, rules.take(to)) == v,
    decreases to,
{
    if from < to {
        lemma_strange_rules(x, y, z, m, v, rules, from, to - 1);
        lemma_step(m, rules, to - 1);
        assert(is_strange(x, y, z, rules[to - 1].0));
        lemma_strange(x, y, z, v, rules[to - 1].0, rules[to - 1].1);
    }
}

proof fn lemma_step(m: Seq<char>, rules: Seq<Rule>, k: int)
    requires
        0 <= k < rules.len(),
    ensures
        rewritten(m, rules.take(k + 1)) == replaced(
            rewritten(m, rules.take(k)),
            rules[k].0,
            rules[k].1,
        ),
{
    assert(rules.take(k + 1).drop_last() =~= rules.take(k));
    assert(rules.take(k + 1).last() == rules[k]);
}

proof fn lemma_start(m: Seq<char>, rules: Seq<Rule>)
    ensures
        rewritten(m, rules.take(0)) == m,
        rules.take(rules.len() as int) == rules,
{
    assert(rules.take(0) =~= Seq::<Rule>::empty());
    assert(rules.take(rules.len() as int) =~= rules);
}

proof fn lemma_wordless_rules()
    ensures
        forall|k: int| 0 <= k < 19 ==> is_wordless((#[trigger] spacing_rules()[k]).0),
        forall|k: int| 0 <= k < 28 ==> is_wordless((#[trigger] joining_rules()[k]).0),
        spacing_rules().len() == 19,
        joining_rules().len() == 28,
{
    reveal_strlit("\n");
    reveal_strlit("\r");
    reveal_strlit("{");
    reveal_strlit("}");
    reveal_strlit(",");
    reveal_strlit("==");
    reveal_strlit("!=");
    reveal_strlit(">=");
    reveal_strlit("<=");
    reveal_strlit("&&");
    reveal_strlit("||");
    reveal_strlit("|");
    reveal_strlit("=");
    reveal_strlit(">");
    reveal_strlit("<");
    reveal_strlit("+");
    reveal_strlit("-");
    reveal_strlit("*");
    reveal_strlit("/");
    reveal_strlit("= >");
    reveal_strlit("- >");
    reveal_strlit("+ =");
    reveal_strlit("- =");
    reveal_strlit("* =");
    reveal_strlit("/ =");
    reveal_strlit("! =");
    reveal_strlit("< =");
    reveal_strlit("> =");
    reveal_strlit("= =");
    reveal_strlit(" : ");
    reveal_strlit(" :: ");
    reveal_strlit(" . ");
    reveal_strlit(" .");
    reveal_strlit(". ");
    reveal_strlit(" ( ");
    reveal_strlit(" ) ");
    reveal_strlit(" (");
    reveal_strlit("( ");
    reveal_strlit(" )");
    reveal_strlit(" , ");
    reveal_strlit(" & ");
    reveal_strlit(" ; ");
    reveal_strlit(" [ ");
    reveal_strlit(" ] ");
    reveal_strlit(", }");
    reveal_strlit(" { ");
    reveal_strlit("! ");
    let spacing = spacing_rules();
    assert forall|k: int| 0 <= k < 19 implies is_wordless((#[trigger] spacing[k]).0) by {
        let p = spacing[k].0;
        assert forall|i: int| 0 <= i < p.len() implies !is_wordy(#[trigger] p[i]) by {}
    }
    let joining = joining_rules();
    assert forall|k: int| 0 <= k < 28 implies is_wordless((#[trigger] joining[k]).0) by {
        let p = joining[k].0;
        assert forall|i: int| 0 <= i < p.len() implies !is_wordy(#[trigger] p[i]) by {}
    }
}

/// A mark that is written without spaces around it.
pub open spec fn is_tight(c: char) -> bool {
    c == ':' || c == '.' || c == '(' || c == ')' || c == '&' || c == ';' || c == '[' || c == ']'
}

/// Where the rule for a tight mark stands.
spec fn tight_rule(c: char) -> int {
    if c == ':' {
        10
    } else if c == '.' {
        12
    } else if c == '(' {
        15
    } else if c == ')' {
        16
    } else if c == '&' {
        21
    } else if c == ';' {
        22
    } else if c == '[' {
        23
    } else {
        24
    }
}

proof fn lemma_tight_rules(c: char)
    requires
        is_tight(c),
    ensures
        forall|k: int|
            0 <= k < 19 && k != 9 ==> is_strange(
                ' ',
                c,
                c,
                (#[trigger] spacing_rules()[k]).0,
            ),
        spacing_rules()[9].0 == seq!['&', '&'],
        forall|k: int|
            0 <= k < tight_rule(c) ==> is_strange(' ', c, c, (#[trigger] joining_rules()[k]).0),
        joining_rules()[tight_rule(c)].0 == seq![' ', c, ' '],
        joining_rules()[tight_rule(c)].1 == seq![c],
        forall|k: int|
            tight_rule(c) < k < 28 ==> is_strange(c, c, c, (#[trigger] joining_rules()[k]).0),
{
    reveal_strlit("\n");
    reveal_strlit("\r");
    reveal_strlit("{");
    reveal_strlit("}");
    reveal_strlit(",");
    reveal_strlit("==");
    reveal_strlit("!=");
    reveal_strlit(">=");
    reveal_strlit("<=");
    reveal_strlit("&&");
    reveal_strlit("||");
    reveal_strlit("|");
    reveal_strlit("=");
    reveal_strlit(">");
    reveal_strlit("<");
    reveal_strlit("+");
    reveal_strlit("-");
    reveal_strlit("*");
    reveal_strlit("/");
    reveal_strlit("= >");
    reveal_strlit("- >");
    reveal_strlit("+ =");
    reveal_strlit("- =");
    reveal_strlit("* =");
    reveal_strlit("/ =");
    reveal_strlit("! =");
    reveal_strlit("< =");
    reveal_strlit("> =");
    reveal_strlit("= =");
    reveal_strlit(" : ");
    reveal_strlit(" :: ");
    reveal_strlit(" . ");
    reveal_strlit(" .");
    reveal_strlit(". ");
    reveal_strlit(" ( ");
    reveal_strlit(" ) ");
    reveal_strlit(" (");
    reveal_strlit("( ");
    reveal_strlit(" )");
    reveal_strlit(" , ");
    reveal_strlit(" & ");
    reveal_strlit(" ; ");
    reveal_strlit(" [ ");
    reveal_strlit(" ] ");
    reveal_strlit(", }");
    reveal_strlit(" { ");
    reveal_strlit("! ");
    reveal_strlit(":");
    reveal_strlit(".");
    reveal_strlit("(");
    reveal_strlit(")");
    reveal_strlit("&");
    reveal_strlit(";");
    reveal_strlit("[");
    reveal_strlit("]");
    let r = joining_rules()[tight_rule(c)];
    assert(r.0 =~= seq![' ', c, ' ']);
    assert(r.1 =~= seq![c]);
    assert(spacing_rules()[9].0 =~= seq!['&', '&']);
}

/// A mark that stands between two words and spaces moves up to both, where it is one of those
/// that are written without spaces.
pub proof fn law_tight_marks(a: Seq<char>, c: char, b: Seq<char>)
    requires
        is_word(a),
        is_word(b),
        is_tight(c),
    ensures
        cleaned(a + seq![' ', c, ' '] + b) == a + seq![c] + b,
{
    let m = seq![' ', c, ' '];
    let one = seq![c];
    let spacing = spacing_rules();
    let joining = joining_rules();
    lemma_wordless_rules();
    lemma_tight_rules(c);
    lemma_between_words(a, m, b, spacing);
    lemma_start(m, spacing);
    lemma_strange_rules(' ', c, c, m, m, spacing, 0, 9);
    lemma_step(m, spacing, 9);
    lemma_not_twice(m, '&', spacing[9].1);
    lemma_strange_rules(' ', c, c, m, m, spacing, 10, 19);
    let s = a + m + b;
    lemma_three_words(a, one, b);
    assert(s =~= a + seq![' '] + one + seq![' '] + b);
    lemma_between_words(a, m, b, joining);
    lemma_start(m, joining);
    let k = tight_rule(c);
    lemma_strange_rules(' ', c, c, m, m, joining, 0, k);
    lemma_step(m, joining, k);
    lemma_all_replaced(m, one);
    lemma_strange_rules(c, c, c, m, one, joining, k + 1, 28);
}

/// A character that does not stand twice side by side is not found so.
proof fn lemma_not_twice(m: Seq<char>, c: char, r: Seq<char>)
    requires
        forall|i: int, j: int|
            0 <= i && j == i + 1 && j < m.len() ==> !(#[trigger] m[i] == c && #[trigger] m[j] == c),
    ensures
        replaced(m, seq![c, c], r) == m,
{
    let p = seq![c, c];
    assert forall|i: int| 0 <= i < m.len() implies !#[trigger] stands_at(m, i, p) by {
        if stands_at(m, i, p) {
            assert(m[i + 0] == p[0] && m[i + 1] == p[1]);
        }
    }
    law_nothing_replaced(m, p, r);
}

/// A text that is looked for is replaced.
proof fn lemma_all_replaced(p: Seq<char>, r: Seq<char>)
    requires
        p.len() > 0,
    ensures
        replaced(p, p, r) == r,
{
    let n = p.len() as int;
    assert(p.take(n) =~= p);
    assert(p.skip(n) =~= Seq::<char>::empty());
    assert(replaced(p.skip(n), p, r) =~= Seq::<char>::empty());
    assert(r + replaced(p.skip(n), p, r) =~= r);
}

/// Three words with spaces between them are joined as they are.
proof fn lemma_three_words(a: Seq<char>, m: Seq<char>, b: Seq<char>)
    requires
        is_word(a),
        is_word(b),
        m.len() > 0,
        forall|i: int| 0 <= i < m.len() ==> !white_space(#[trigger] m[i]),
    ensures
        words_joined(a + seq![' '] + m + seq![' '] + b) == a + seq![' '] + m + seq![' '] + b,
{
    let space = seq![' '];
    assert forall|i: int| 0 <= i < a.len() implies !white_space(#[trigger] a[i]) by {
        assert(is_wordy(a[i]));
    }
    assert forall|i: int| 0 <= i < b.len() implies !white_space(#[trigger] b[i]) by {
        assert(is_wordy(b[i]));
    }
    law_words_joined(a, a, ' ', m);
    law_words_joined(m, a, ' ', m);
    law_words_joined(b, a + space + m, ' ', b);
}

/// An arithmetic operator.
pub open spec fn is_arithmetic(c: char) -> bool {
    c == '+' || c == '-' || c == '*' || c == '/'
}

/// The place of an arithmetic operator among the four.
spec fn rank(c: char) -> int {
    if c == '+' {
        0
    } else if c == '-' {
        1
    } else if c == '*' {
        2
    } else {
        3
    }
}

proof fn lemma_assigning_rules(c: char)
    requires
        is_arithmetic(c),
    ensures
        forall|k: int|
            0 <= k < 19 && k != 5 && k != 12 && k != 15 + rank(c) ==> is_strange(
                ' ',
                c,
                '=',
                (#[trigger] spacing_rules()[k]).0,
            ),
        spacing_rules()[5].0 == seq!['=', '='],
        spacing_rules()[12] == (seq!['='], seq![' ', '=', ' ']),
        spacing_rules()[15 + rank(c)] == (seq![c], seq![' ', c, ' ']),
        forall|k: int|
            0 <= k < 28 && k != 9 && k != 2 + rank(c) ==> is_strange(
                ' ',
                c,
                '=',
                (#[trigger] joining_rules()[k]).0,
            ),
        joining_rules()[9].0 == seq!['=', ' ', '='],
        joining_rules()[2 + rank(c)] == (seq![c, ' ', '='], seq![c, '=']),
{
    reveal_strlit("\n");
    reveal_strlit("\r");
    reveal_strlit("{");
    reveal_strlit("}");
    reveal_strlit(",");
    reveal_strlit("==");
    reveal_strlit("!=");
    reveal_strlit(">=");
    reveal_strlit("<=");
    reveal_strlit("&&");
    reveal_strlit("||");
    reveal_strlit("|");
    reveal_strlit("=");
    reveal_strlit(">");
    reveal_strlit("<");
    reveal_strlit("+");
    reveal_strlit("-");
    reveal_strlit("*");
    reveal_strlit("/");
    reveal_strlit("= >");
    reveal_strlit("- >");
    reveal_strlit("+ =");
    reveal_strlit("- =");
    reveal_strlit("* =");
    reveal_strlit("/ =");
    reveal_strlit("! =");
    reveal_strlit("< =");
    reveal_strlit("> =");
    reveal_strlit("= =");
    reveal_strlit(" : ");
    reveal_strlit(" :: ");
    reveal_strlit(" . ");
    reveal_strlit(" .");
    reveal_strlit(". ");
    reveal_strlit(" ( ");
    reveal_strlit(" ) ");
    reveal_strlit(" (");
    reveal_strlit("( ");
    reveal_strlit(" )");
    reveal_strlit(" , ");
    reveal_strlit(" & ");
    reveal_strlit(" ; ");
    reveal_strlit(" [ ");
    reveal_strlit(" ] ");
    reveal_strlit(", }");
    reveal_strlit(" { ");
    reveal_strlit("! ");
    reveal_strlit("+=");
    reveal_strlit("-=");
    reveal_strlit("*=");
    reveal_strlit("/=");
    reveal_strlit(" = ");
    reveal_strlit(" + ");
    reveal_strlit(" - ");
    reveal_strlit(" * ");
    reveal_strlit(" / ");
    let spacing = spacing_rules();
    let joining = joining_rules();
    let n = rank(c);
    assert(spacing[5].0 =~= seq!['=', '=']);
    assert(spacing[12].0 =~= seq!['='] && spacing[12].1 =~= seq![' ', '=', ' ']);
    assert(spacing[15 + n].0 =~= seq![c] && spacing[15 + n].1 =~= seq![' ', c, ' ']);
    assert(joining[9].0 =~= seq!['=', ' ', '=']);
    assert(joining[2 + n].0 =~= seq![c, ' ', '='] && joining[2 + n].1 =~= seq![c, '=']);
}

/// What stands at the start and behind it is replaced once.
proof fn lemma_replaced_once(a: Seq<char>, p: Seq<char>, b: Seq<char>, r: Seq<char>)
    requires
        p.len() > 0,
        forall|i: int| 0 <= i < a.len() ==> #[trigger] a[i] != p[0],
        forall|i: int| 0 <= i < b.len() ==> #[trigger] b[i] != p[0],
    ensures
        replaced(a + p + b, p, r) == a + r + b,
{
    let s = a + p + b;
    assert forall|i: int| 0 <= i < a.len() implies !#[trigger] stands_at(s, i, p) by {
        if stands_at(s, i, p) {
            assert(s[i + 0] == p[0]);
        }
    }
    assert forall|i: int| 0 <= i < b.len() implies !#[trigger] stands_at(b, i, p) by {
        if stands_at(b, i, p) {
            assert(b[i + 0] == p[0]);
        }
    }
    law_first_replaced(a, p, b, r);
    law_nothing_replaced(b, p, r);
}

/// The operator of an assignment is set apart from the equals sign, and both from the words.
proof fn lemma_assigning_spaced(c: char)
    requires
        is_arithmetic(c),
    ensures
        rewritten(seq![c, '='], spacing_rules()) == seq![' ', c, ' ', ' ', '=', ' '],
{
    let rules = spacing_rules();
    let m = seq![c, '='];
    let none = Seq::<char>::empty();
    lemma_wordless_rules();
    lemma_assigning_rules(c);
    lemma_start(m, rules);
    lemma_strange_rules(' ', c, '=', m, m, rules, 0, 5);
    lemma_step(m, rules, 5);
    lemma_not_twice(m, '=', rules[5].1);
    lemma_strange_rules(' ', c, '=', m, m, rules, 6, 12);
    lemma_step(m, rules, 12);
    let v = seq![c, ' ', '=', ' '];
    let equals = seq!['='];
    let op = seq![c];
    assert(op + equals + none =~= m);
    lemma_replaced_once(op, equals, none, rules[12].1);
    assert(op + rules[12].1 + none =~= v);
    let n = 15 + rank(c);
    lemma_strange_rules(' ', c, '=', m, v, rules, 13, n);
    lemma_step(m, rules, n);
    let w = seq![' ', c, ' ', ' ', '=', ' '];
    let tail = seq![' ', '=', ' '];
    assert(none + op + tail =~= v);
    lemma_replaced_once(none, op, tail, rules[n].1);
    assert(none + rules[n].1 + tail =~= w);
    lemma_strange_rules(' ', c, '=', m, w, rules, n + 1, 19);
}

/// The operator of an assignment and the equals sign are put together again.
proof fn lemma_assigning_joined(c: char)
    requires
        is_arithmetic(c),
    ensures
        rewritten(seq![' ', c, ' ', '=', ' '], joining_rules()) == seq![' ', c, '=', ' '],
{
    let rules = joining_rules();
    let m = seq![' ', c, ' ', '=', ' '];
    let v = seq![' ', c, '=', ' '];
    let space = seq![' '];
    lemma_wordless_rules();
    lemma_assigning_rules(c);
    lemma_start(m, rules);
    let n = 2 + rank(c);
    lemma_strange_rules(' ', c, '=', m, m, rules, 0, n);
    lemma_step(m, rules, n);
    let p = seq![c, ' ', '='];
    assert(space + p + space =~= m);
    lemma_replaced_once(space, p, space, rules[n].1);
    assert(space + rules[n].1 + space =~= v);
    lemma_strange_rules(' ', c, '=', m, v, rules, n + 1, 9);
    lemma_step(m, rules, 9);
    let q = seq!['=', ' ', '='];
    assert forall|i: int| 0 <= i < v.len() implies !#[trigger] stands_at(v, i, q) by {
        if stands_at(v, i, q) {
            assert(v[i + 0] == q[0] && v[i + 2] == q[2]);
        }
    }
    law_nothing_replaced(v, q, rules[9].1);
    lemma_strange_rules(' ', c, '=', m, v, rules, 10, 28);
}

/// An assignment with an operator keeps the operator and the equals sign together, with spaces
/// around both.
pub proof fn law_assignments(a: Seq<char>, c: char, b: Seq<char>)
    requires
        is_word(a),
        is_word(b),
        is_arithmetic(c),
    ensures
        cleaned(a + seq![c, '='] + b) == a + seq![' ', c, '=', ' '] + b,
{
    let m = seq![c, '='];
    let wide = seq![' ', c, ' ', ' ', '=', ' '];
    let plain = seq![' ', c, ' ', '=', ' '];
    lemma_wordless_rules();
    lemma_between_words(a, m, b, spacing_rules());
    lemma_assigning_spaced(c);
    lemma_four_words(a, c, b);
    lemma_between_words(a, plain, b, joining_rules());
    lemma_assigning_joined(c);
}

/// Two words with an operator and an equals sign between them, and spaces between them all.
proof fn lemma_four_words(a: Seq<char>, c: char, b: Seq<char>)
    requires
        is_word(a),
        is_word(b),
        is_arithmetic(c),
    ensures
        words_joined(a + seq![' ', c, ' ', ' ', '=', ' '] + b) == a + seq![' ', c, ' ', '=', ' ']
            + b,
{
    let space = seq![' '];
    let op = seq![c];
    let equals = seq!['='];
    let none = Seq::<char>::empty();
    assert forall|i: int| 0 <= i < a.len() implies !white_space(#[trigger] a[i]) by {
        assert(is_wordy(a[i]));
    }
    assert forall|i: int| 0 <= i < b.len() implies !white_space(#[trigger] b[i]) by {
        assert(is_wordy(b[i]));
    }
    let right = equals + space + b;
    law_words_joined(b, equals, ' ', b);
    law_words_joined(equals, equals, ' ', b);
    law_words_joined(none, none, ' ', right);
    assert(none + space + right =~= space + right);
    let left = a + space + op;
    law_words_joined(a, a, ' ', op);
    law_words_joined(op, a, ' ', op);
    law_words_joined(none, left, ' ', space + right);
    assert(left + space + (space + right) =~= a + seq![' ', c, ' ', ' ', '=', ' '] + b);
    assert(left + space + right =~= a + seq![' ', c, ' ', '=', ' '] + b);
}

} // verus!
