//! What white space means to labels: how much of it stands between two words, and of which
//! kind it is, makes no difference.
use vstd::prelude::*;

use crate::labels::{cleaned, rewritten, spacing_rules, Rule};
use crate::text::{holds, replaced, starts, white_space, words_joined};
use crate::visit::tidied;

verus! {

/// `a` and `b` with a space between them, where neither is empty.
spec fn spaced(a: Seq<char>, b: Seq<char>) -> Seq<char> {
    if a.len() == 0 {
        b
    } else if b.len() == 0 {
        a
    } else {
        a + seq![' '] + b
    }
}

/// No character of `s` is white space.
spec fn white_free(s: Seq<char>) -> bool {
    forall|i: int| 0 <= i < s.len() ==> !white_space(#[trigger] s[i])
}

proof fn lemma_one_word(s: Seq<char>)
    requires
        white_free(s),
    ensures
        words_joined(s) == s,
    decreases s.len(),
{
    if s.len() > 0 {
        let rest = s.drop_last();
        assert forall|i: int| 0 <= i < rest.len() implies !white_space(#[trigger] rest[i]) by {
            assert(rest[i] == s[i]);
        }
        lemma_one_word(rest);
        assert(!white_space(s[s.len() - 1]));
        if s.len() >= 2 {
            assert(!white_space(s[s.len() - 2]));
        }
        assert(rest.push(s.last()) =~= s);
    }
}

/// White space parts the words before it from those behind it.
proof fn lemma_words_parted(a: Seq<char>, w: char, b: Seq<char>)
    requires
        white_space(w),
    ensures
        words_joined(a + seq![w] + b) == spaced(words_joined(a), words_joined(b)),
    decreases b.len(),
{
    let s = a + seq![w] + b;
    if b.len() == 0 {
        assert(s.drop_last() =~= a);
        assert(s.last() == w);
    } else {
        let c = b.last();
        let rest = b.drop_last();
        let t = a + seq![w] + rest;
        assert(s.drop_last() =~= t);
        assert(s.last() == c);
        lemma_words_parted(a, w, rest);
        if !white_space(c) {
            let wa = words_joined(a);
            let wr = words_joined(rest);
            assert(s[s.len() - 2] == t.last());
            if rest.len() == 0 {
                assert(t.last() == w);
                assert(wr.len() == 0);
                assert(words_joined(b) =~= seq![c]);
                if wa.len() > 0 {
                    assert(wa + seq![' ', c] =~= wa + seq![' '] + seq![c]);
                } else {
                    assert(wa.push(c) =~= seq![c]);
                }
            } else {
                assert(t.last() == rest.last());
                assert(b[b.len() - 2] == rest.last());
                if white_space(rest.last()) {
                    if wr.len() > 0 {
                        assert(words_joined(b) == wr + seq![' ', c]);
                        if wa.len() > 0 {
                            assert((wa + seq![' '] + wr) + seq![' ', c] =~= wa + seq![' '] + (wr
                                + seq![' ', c]));
                        }
                    } else {
                        assert(words_joined(b) =~= seq![c]);
                        if wa.len() > 0 {
                            assert(wa + seq![' ', c] =~= wa + seq![' '] + seq![c]);
                        } else {
                            assert(words_joined(t).push(c) =~= seq![c]);
                        }
                    }
                } else {
                    assert(wr.len() > 0);
                    assert(words_joined(b) == wr.push(c));
                    if wa.len() > 0 {
                        assert((wa + seq![' '] + wr).push(c) =~= wa + seq![' '] + wr.push(c));
                    }
                }
            }
        }
    }
}

/// A text without white space is found before white space or behind it, but not across.
proof fn lemma_replaced_parted(
    a: Seq<char>,
    w: char,
    b: Seq<char>,
    pat: Seq<char>,
    rep: Seq<char>,
)
    requires
        white_space(w),
        white_free(pat),
        pat.len() > 0,
    ensures
        replaced(a + seq![w] + b, pat, rep) == replaced(a, pat, rep) + seq![w] + replaced(
            b,
            pat,
            rep,
        ),
    decreases a.len(),
{
    let s = a + seq![w] + b;
    let n = pat.len() as int;
    if a.len() == 0 {
        assert(s[0] == w);
        if starts(s, pat) {
            assert(s.take(n)[0] == w);
            assert(!white_space(pat[0]));
        }
        assert(s.skip(1) =~= b);
        assert(replaced(a, pat, rep) + seq![w] + replaced(b, pat, rep) =~= seq![w] + replaced(
            b,
            pat,
            rep,
        ));
    } else {
        if starts(s, pat) {
            if n > a.len() {
                assert(s.take(n)[a.len() as int] == w);
                assert(!white_space(pat[a.len() as int]));
            }
            assert(a.take(n) =~= s.take(n));
            assert(s.skip(n) =~= a.skip(n) + seq![w] + b);
            lemma_replaced_parted(a.skip(n), w, b, pat, rep);
            assert(rep + (replaced(a.skip(n), pat, rep) + seq![w] + replaced(b, pat, rep)) =~= (rep
                + replaced(a.skip(n), pat, rep)) + seq![w] + replaced(b, pat, rep));
        } else {
            if starts(a, pat) {
                assert(s.take(n) =~= a.take(n));
            }
            assert(s.skip(1) =~= a.skip(1) + seq![w] + b);
            lemma_replaced_parted(a.skip(1), w, b, pat, rep);
            assert(seq![s[0]] + (replaced(a.skip(1), pat, rep) + seq![w] + replaced(b, pat, rep))
                =~= (seq![a[0]] + replaced(a.skip(1), pat, rep)) + seq![w] + replaced(
                b,
                pat,
                rep,
            ));
        }
    }
}

/// What is found without white space is found in the words alone.
proof fn lemma_replaced_words(s: Seq<char>, pat: Seq<char>, rep: Seq<char>)
    requires
        white_free(pat),
        pat.len() > 0,
    ensures
        words_joined(replaced(s, pat, rep)) == words_joined(replaced(words_joined(s), pat, rep)),
    decreases s.len(),
{
    if white_free(s) {
        lemma_one_word(s);
    } else {
        let k = choose|k: int| 0 <= k < s.len() && white_space(#[trigger] s[k]);
        let a = s.take(k);
        let w = s[k];
        let b = s.skip(k + 1);
        assert(s =~= a + seq![w] + b);
        lemma_words_parted(a, w, b);
        lemma_replaced_parted(a, w, b, pat, rep);
        lemma_words_parted(replaced(a, pat, rep), w, replaced(b, pat, rep));
        lemma_replaced_words(a, pat, rep);
        lemma_replaced_words(b, pat, rep);
        let wa = words_joined(a);
        let wb = words_joined(b);
        if wa.len() == 0 {
            assert(words_joined(replaced(wa, pat, rep)).len() == 0);
        } else if wb.len() == 0 {
            assert(words_joined(replaced(wb, pat, rep)).len() == 0);
        } else {
            lemma_replaced_parted(wa, ' ', wb, pat, rep);
            lemma_words_parted(replaced(wa, pat, rep), ' ', replaced(wb, pat, rep));
        }
    }
}

/// The two differ in the kind of their white space at most.
spec fn like(s: Seq<char>, t: Seq<char>) -> bool {
    &&& s.len() == t.len()
    &&& forall|i: int|
        0 <= i < s.len() ==> (white_space(#[trigger] s[i]) && white_space(t[i])) || s[i] == t[i]
}

proof fn lemma_like_words(s: Seq<char>, t: Seq<char>)
    requires
        like(s, t),
    ensures
        words_joined(s) == words_joined(t),
    decreases s.len(),
{
    if s.len() > 0 {
        let a = s.drop_last();
        let b = t.drop_last();
        assert forall|i: int| 0 <= i < a.len() implies (white_space(#[trigger] a[i])
            && white_space(b[i])) || a[i] == b[i] by {
            assert(a[i] == s[i] && b[i] == t[i]);
        }
        lemma_like_words(a, b);
        let n = s.len() as int;
        assert((white_space(s[n - 1]) && white_space(t[n - 1])) || s[n - 1] == t[n - 1]);
        if n >= 2 {
            assert((white_space(s[n - 2]) && white_space(t[n - 2])) || s[n - 2] == t[n - 2]);
        }
    }
}

proof fn lemma_replaced_like(s: Seq<char>, pat: Seq<char>, rep: Seq<char>)
    requires
        pat.len() == 1,
        rep.len() == 1,
        white_space(pat[0]),
        white_space(rep[0]),
    ensures
        like(replaced(s, pat, rep), s),
    decreases s.len(),
{
    if s.len() > 0 {
        lemma_replaced_like(s.skip(1), pat, rep);
        let rest = replaced(s.skip(1), pat, rep);
        let all = replaced(s, pat, rep);
        let first = if starts(s, pat) {
            assert(s.take(1)[0] == s[0]);
            rep
        } else {
            seq![s[0]]
        };
        assert(all == first + rest);
        assert forall|i: int| 0 <= i < all.len() implies (white_space(#[trigger] all[i])
            && white_space(s[i])) || all[i] == s[i] by {
            if i > 0 {
                assert(all[i] == rest[i - 1]);
                assert(s[i] == s.skip(1)[i - 1]);
            }
        }
    }
}

/// A rule that looks for no white space, or turns one kind of it into another.
spec fn minds_words(r: Rule) -> bool {
    ||| r.0.len() > 0 && white_free(r.0)
    ||| r.0.len() == 1 && r.1.len() == 1 && white_space(r.0[0]) && white_space(r.1[0])
}

proof fn lemma_rule_words(s: Seq<char>, t: Seq<char>, r: Rule)
    requires
        minds_words(r),
        words_joined(s) == words_joined(t),
    ensures
        words_joined(replaced(s, r.0, r.1)) == words_joined(replaced(t, r.0, r.1)),
{
    if r.0.len() > 0 && white_free(r.0) {
        lemma_replaced_words(s, r.0, r.1);
        lemma_replaced_words(t, r.0, r.1);
    } else {
        lemma_replaced_like(s, r.0, r.1);
        lemma_like_words(replaced(s, r.0, r.1), s);
        lemma_replaced_like(t, r.0, r.1);
        lemma_like_words(replaced(t, r.0, r.1), t);
    }
}

proof fn lemma_rules_words(s: Seq<char>, t: Seq<char>, rules: Seq<Rule>)
    requires
        forall|k: int| 0 <= k < rules.len() ==> minds_words(#[trigger] rules[k]),
        words_joined(s) == words_joined(t),
    ensures
        words_joined(rewritten(s, rules)) == words_joined(rewritten(t, rules)),
    decreases rules.len(),
{
    if rules.len() > 0 {
        lemma_rules_words(s, t, rules.drop_last());
        assert(minds_words(rules[rules.len() - 1]));
        lemma_rule_words(
            rewritten(s, rules.drop_last()),
            rewritten(t, rules.drop_last()),
            rules.last(),
        );
    }
}

proof fn lemma_spacing_rules()
    ensures
        forall|k: int|
            0 <= k < spacing_rules().len() ==> minds_words(#[trigger] spacing_rules()[k]),
{
    reveal_strlit("\n");
    reveal_strlit("\r");
    reveal_strlit(" ");
    reveal_strlit("{");
    reveal_strlit("}");
    reveal_strlit(",");
    reveal_strlit("==");
    reveal_strlit("!=");
    reveal_strlit(">=");
    reveal_strlit("<=");
    reveal_strlit("&&");
    reveal_strlit("||");
    reveal_strlit("|");
    reveal_strlit("=");
    reveal_strlit(">");
    reveal_strlit("<");
    reveal_strlit("+");
    reveal_strlit("-");
    reveal_strlit("*");
    reveal_strlit("/");
}

/// How much white space stands between two words or around them, and of which kind it is,
/// makes no difference to a label.
pub proof fn law_label_by_words(s: Seq<char>, t: Seq<char>)
    requires
        words_joined(s) == words_joined(t),
    ensures
        cleaned(s) == cleaned(t),
{
    lemma_spacing_rules();
    lemma_rules_words(s, t, spacing_rules());
}

/// Putting line ends to spaces changes no words.
proof fn lemma_line_words(s: Seq<char>)
    ensures
        words_joined(replaced(replaced(s, "\n"@, " "@), "\r"@, " "@)) == words_joined(s),
{
    reveal_strlit("\n");
    reveal_strlit("\r");
    reveal_strlit(" ");
    let lines = replaced(s, "\n"@, " "@);
    lemma_replaced_like(s, "\n"@, " "@);
    lemma_like_words(lines, s);
    lemma_replaced_like(lines, "\r"@, " "@);
    lemma_like_words(replaced(lines, "\r"@, " "@), lines);
}

/// How much white space stands between two words or around them, and of which kind it is,
/// makes no difference to a tidied text.
pub proof fn law_tidied_by_words(s: Seq<char>, t: Seq<char>)
    requires
        words_joined(s) == words_joined(t),
    ensures
        tidied(s) == tidied(t),
{
    lemma_line_words(s);
    lemma_line_words(t);
}

/// The only white space in `s` is the plain space, no two spaces stand side by side, and none
/// stands at the end.
pub open spec fn singly_spaced(s: Seq<char>) -> bool {
    &&& forall|i: int| 0 <= i < s.len() ==> (white_space(#[trigger] s[i]) ==> s[i] == ' ')
    &&& forall|i: int, j: int|
        0 <= i < s.len() && j == i + 1 && j < s.len() ==> !(#[trigger] s[i] == ' '
            && #[trigger] s[j] == ' ')
    &&& s.len() > 0 ==> s.last() != ' '
}

/// No space stands at the front of `s`.
pub open spec fn flush(s: Seq<char>) -> bool {
    s.len() > 0 ==> s[0] != ' '
}

proof fn lemma_joined_spacing(s: Seq<char>)
    ensures
        singly_spaced(words_joined(s)),
        flush(words_joined(s)),
    decreases s.len(),
{
    if s.len() > 0 {
        lemma_joined_spacing(s.drop_last());
        let w = words_joined(s.drop_last());
        let all = words_joined(s);
        if !white_space(s.last()) {
            assert(s.last() != ' ');
            assert forall|i: int, j: int|
                0 <= i < all.len() && j == i + 1 && j < all.len() implies !(#[trigger] all[i] == ' '
                && #[trigger] all[j] == ' ') by {
                if j < w.len() {
                    assert(all[i] == w[i] && all[j] == w[j]);
                } else if j == w.len() {
                    assert(all[i] == w.last());
                }
            }
        }
    }
}

proof fn lemma_joined_stays(s: Seq<char>)
    requires
        singly_spaced(s),
        flush(s),
    ensures
        words_joined(s) == s,
    decreases s.len(),
{
    if s.len() > 0 {
        let n = s.len() as int;
        let t = s.drop_last();
        assert(s[n - 1] != ' ');
        assert(!white_space(s[n - 1]));
        if n >= 2 && s[n - 2] == ' ' {
            let u = t.drop_last();
            assert(t.last() == ' ');
            assert(n >= 3);
            assert(s[n - 3] != ' ') by {
                assert(!(s[n - 3] == ' ' && s[n - 2] == ' '));
            }
            assert(u.last() == s[n - 3]);
            lemma_prefix_spacing(s, n - 2);
            assert(u =~= s.take(n - 2));
            lemma_joined_stays(u);
            assert(words_joined(t) == u);
            assert(u + seq![' ', s.last()] =~= s);
        } else {
            if n >= 2 {
                assert(!white_space(s[n - 2]));
                assert(t.last() == s[n - 2]);
            }
            lemma_prefix_spacing(s, n - 1);
            assert(t =~= s.take(n - 1));
            lemma_joined_stays(t);
            assert(t.push(s.last()) =~= s);
        }
    }
}

proof fn lemma_prefix_spacing(s: Seq<char>, n: int)
    requires
        singly_spaced(s),
        flush(s),
        0 <= n <= s.len(),
        n > 0 ==> s[n - 1] != ' ',
    ensures
        singly_spaced(s.take(n)),
        flush(s.take(n)),
{
    let t = s.take(n);
    assert forall|i: int| 0 <= i < t.len() && white_space(#[trigger] t[i]) implies t[i] == ' ' by {
        assert(t[i] == s[i]);
    }
    assert forall|i: int, j: int|
        0 <= i < t.len() && j == i + 1 && j < t.len() implies !(#[trigger] t[i] == ' '
        && #[trigger] t[j] == ' ') by {
        assert(t[i] == s[i] && t[j] == s[j]);
    }
}

proof fn lemma_suffix_spacing(s: Seq<char>, n: int)
    requires
        singly_spaced(s),
        0 <= n <= s.len(),
    ensures
        singly_spaced(s.skip(n)),
{
    let t = s.skip(n);
    assert forall|i: int| 0 <= i < t.len() && white_space(#[trigger] t[i]) implies t[i] == ' ' by {
        assert(t[i] == s[i + n]);
    }
    assert forall|i: int, j: int|
        0 <= i < t.len() && j == i + 1 && j < t.len() implies !(#[trigger] t[i] == ' '
        && #[trigger] t[j] == ' ') by {
        assert(t[i] == s[i + n] && t[j] == s[j + n]);
    }
}

/// What occurs behind the front of a text occurs in the text.
proof fn lemma_holds_skip(s: Seq<char>, n: int, pat: Seq<char>)
    requires
        0 <= n <= s.len(),
        holds(s.skip(n), pat),
    ensures
        holds(s, pat),
{
    let i = choose|i: int| 0 <= i <= s.skip(n).len() && starts(#[trigger] s.skip(n).skip(i), pat);
    assert(s.skip(n).skip(i) =~= s.skip(n + i));
}

/// Where something occurs, it is at the front or behind it.
proof fn lemma_holds_front(c: char, s: Seq<char>, pat: Seq<char>)
    requires
        holds(seq![c] + s, pat),
        !starts(seq![c] + s, pat),
    ensures
        holds(s, pat),
{
    let t = seq![c] + s;
    let i = choose|i: int| 0 <= i <= t.len() && starts(#[trigger] t.skip(i), pat);
    if i == 0 {
        assert(t.skip(0) =~= t);
    } else {
        assert(t.skip(i) =~= s.skip(i - 1));
    }
}

proof fn lemma_not_held(s: Seq<char>, pat: Seq<char>, rep: Seq<char>)
    requires
        !holds(s, pat),
    ensures
        replaced(s, pat, rep) == s,
    decreases s.len(),
{
    if s.len() > 0 && pat.len() > 0 {
        assert(s.skip(0) =~= s);
        assert(!starts(s.skip(0), pat));
        if holds(s.skip(1), pat) {
            lemma_holds_skip(s, 1, pat);
        }
        lemma_not_held(s.skip(1), pat, rep);
        assert(seq![s[0]] + s.skip(1) =~= s);
    }
}

/// Colons with a space before them and one behind.
spec fn wide(colons: Seq<char>) -> Seq<char> {
    seq![' '] + colons + seq![' ']
}

/// One colon, or two of them.
spec fn is_colons(m: Seq<char>) -> bool {
    m == seq![':'] || m == seq![':', ':']
}

/// What the front of the result tells of the front of the text.
proof fn lemma_front(s: Seq<char>, m: Seq<char>)
    requires
        is_colons(m),
    ensures
        s.len() == 0 <==> replaced(s, wide(m), m).len() == 0,
        s.len() > 0 && !starts(s, wide(m)) ==> replaced(s, wide(m), m)[0] == s[0] && replaced(
            s,
            wide(m),
            m,
        ).skip(1) == replaced(s.skip(1), wide(m), m),
        s.len() > 0 && starts(s, wide(m)) ==> s[0] == ' ' && replaced(s, wide(m), m)[0] == ':',
{
    if s.len() > 0 {
        if starts(s, wide(m)) {
            assert(s.take(wide(m).len() as int)[0] == ' ');
            assert(replaced(s, wide(m), m)[0] == m[0]);
        } else {
            assert(replaced(s, wide(m), m) == seq![s[0]] + replaced(s.skip(1), wide(m), m));
            assert((seq![s[0]] + replaced(s.skip(1), wide(m), m)).skip(1) =~= replaced(
                s.skip(1),
                wide(m),
                m,
            ));
        }
    }
}

/// Where the result begins with a space, and `k` behind it, so does the text.
proof fn lemma_wide_front(s: Seq<char>, m: Seq<char>, k: Seq<char>)
    requires
        is_colons(m),
        is_colons(k),
        k.len() <= m.len(),
        singly_spaced(s),
        s.len() > 0,
        !starts(s, wide(m)),
        starts(replaced(s, wide(m), m), wide(k)),
    ensures
        starts(s, wide(k)),
{
    let r = replaced(s, wide(m), m);
    let p = wide(k);
    let n = p.len() as int;
    assert(r.take(n) == p);
    assert forall|i: int| 0 <= i < n implies #[trigger] r[i] == p[i] by {
        assert(r[i] == r.take(n)[i]);
    }
    assert(p[0] == ' ' && p[1] == ':' && p[n - 1] == ' ');
    assert(r[0] == p[0] && r[1] == p[1] && r[n - 1] == p[n - 1]);
    lemma_front(s, m);
    assert(s[0] == ' ');
    let s1 = s.skip(1);
    let r1 = r.skip(1);
    assert(r1[0] == ':');
    lemma_front(s1, m);
    assert(s1.len() > 0);
    assert(s1[0] == s[1]);
    assert(!(s[0] == ' ' && s[1] == ' '));
    assert(!starts(s1, wide(m)));
    assert(s1[0] == ':');
    let s2 = s1.skip(1);
    let r2 = r1.skip(1);
    assert(r2 == replaced(s2, wide(m), m));
    assert(r2[0] == r[2]);
    lemma_front(s2, m);
    assert(s2.len() > 0);
    assert(s2[0] == s[2]);
    if k.len() == 1 {
        assert(r2[0] == ' ');
        assert(s[2] == ' ');
        assert(s.take(3) =~= p);
    } else {
        assert(m =~= seq![':', ':']);
        assert(k =~= seq![':', ':']);
        assert(p[2] == ':' && p[3] == ' ');
        assert(r[2] == p[2] && r[3] == p[3]);
        assert(r2[0] == ':');
        assert(r2[1] == r[3]);
        if starts(s2, wide(m)) {
            assert(r2 == m + replaced(s2.skip(wide(m).len() as int), wide(m), m));
            assert(r2[1] == ':');
        }
        assert(s[2] == ':');
        let s3 = s2.skip(1);
        let r3 = r2.skip(1);
        assert(r3[0] == ' ');
        lemma_front(s3, m);
        assert(s3.len() > 0);
        assert(s3[0] == s[3]);
        assert(s[3] == ' ');
        assert(s.take(4) =~= p);
    }
}

/// Drawing colons together leaves a text singly spaced, leaves no such colons apart, and
/// brings forth no others.
proof fn lemma_drawn_together(s: Seq<char>, m: Seq<char>)
    requires
        is_colons(m),
        singly_spaced(s),
    ensures
        singly_spaced(replaced(s, wide(m), m)),
        !holds(replaced(s, wide(m), m), wide(m)),
        m.len() == 2 && !holds(s, wide(seq![':'])) ==> !holds(
            replaced(s, wide(m), m),
            wide(seq![':']),
        ),
        s.len() > 0 && s[0] != ' ' ==> flush(replaced(s, wide(m), m)),
    decreases s.len(),
{
    let p = wide(m);
    let r = replaced(s, p, m);
    lemma_front(s, m);
    if s.len() == 0 {
        assert(!holds(r, p)) by {
            if holds(r, p) {
                let i = choose|i: int| 0 <= i <= r.len() && starts(#[trigger] r.skip(i), p);
                assert(r.skip(i).len() == 0);
            }
        }
        assert(!holds(r, wide(seq![':']))) by {
            if holds(r, wide(seq![':'])) {
                let i = choose|i: int|
                    0 <= i <= r.len() && starts(#[trigger] r.skip(i), wide(seq![':']));
                assert(r.skip(i).len() == 0);
            }
        }
    } else if starts(s, p) {
        let n = p.len() as int;
        let z = s.skip(n);
        let rz = replaced(z, p, m);
        assert(s.take(n)[n - 1] == ' ');
        assert(s[n - 1] == ' ');
        assert(s.len() > n);
        assert(!(s[n - 1] == ' ' && s[n] == ' '));
        assert(z[0] == s[n]);
        lemma_suffix_spacing(s, n);
        lemma_drawn_together(z, m);
        lemma_front(z, m);
        assert(r == m + rz);
        lemma_glued_spacing(m, rz);
        lemma_glued_free(m, rz, p);
        if m.len() == 2 && !holds(s, wide(seq![':'])) {
            if holds(z, wide(seq![':'])) {
                lemma_holds_skip(s, n, wide(seq![':']));
            }
            lemma_glued_free(m, rz, wide(seq![':']));
        }
    } else {
        let y = s.skip(1);
        let ry = replaced(y, p, m);
        lemma_suffix_spacing(s, 1);
        lemma_drawn_together(y, m);
        lemma_front(y, m);
        assert(r == seq![s[0]] + ry);
        assert forall|i: int| 0 <= i < r.len() && white_space(#[trigger] r[i]) implies r[i] == ' ' by {
            if i > 0 {
                assert(r[i] == ry[i - 1]);
            }
        }
        assert forall|i: int, j: int|
            0 <= i < r.len() && j == i + 1 && j < r.len() implies !(#[trigger] r[i] == ' '
            && #[trigger] r[j] == ' ') by {
            if i > 0 {
                assert(r[i] == ry[i - 1] && r[j] == ry[j - 1]);
            } else {
                assert(r[1] == ry[0]);
                assert(y[0] == s[1]);
                assert(!(s[0] == ' ' && s[1] == ' '));
            }
        }
        if ry.len() > 0 {
            assert(r.last() == ry.last());
        } else {
            assert(s.len() == 1);
            assert(r.last() == s.last());
        }
        if holds(r, p) {
            if starts(r, p) {
                lemma_wide_front(s, m, m);
            } else {
                lemma_holds_front(s[0], ry, p);
            }
        }
        if m.len() == 2 && !holds(s, wide(seq![':'])) {
            let q = wide(seq![':']);
            if holds(y, q) {
                lemma_holds_skip(s, 1, q);
            }
            if holds(r, q) {
                if starts(r, q) {
                    lemma_wide_front(s, m, seq![':']);
                    assert(s.skip(0) =~= s);
                    assert(starts(s.skip(0), q));
                } else {
                    lemma_holds_front(s[0], ry, q);
                }
            }
        }
    }
}

proof fn lemma_glued_spacing(m: Seq<char>, s: Seq<char>)
    requires
        is_colons(m),
        singly_spaced(s),
    ensures
        singly_spaced(m + s),
{
    let r = m + s;
    assert forall|i: int| 0 <= i < r.len() && white_space(#[trigger] r[i]) implies r[i] == ' ' by {
        if i >= m.len() {
            assert(r[i] == s[i - m.len()]);
        } else {
            assert(r[i] == ':');
        }
    }
    assert forall|i: int, j: int|
        0 <= i < r.len() && j == i + 1 && j < r.len() implies !(#[trigger] r[i] == ' '
        && #[trigger] r[j] == ' ') by {
        if i >= m.len() {
            assert(r[i] == s[i - m.len()] && r[j] == s[j - m.len()]);
        } else {
            assert(r[i] == ':');
        }
    }
    if s.len() == 0 {
        assert(r.last() == ':');
    } else {
        assert(r.last() == s.last());
    }
}

proof fn lemma_glued_free(m: Seq<char>, s: Seq<char>, p: Seq<char>)
    requires
        is_colons(m),
        p.len() > 0,
        p[0] == ' ',
        !holds(s, p),
    ensures
        !holds(m + s, p),
{
    let r = m + s;
    if holds(r, p) {
        let i = choose|i: int| 0 <= i <= r.len() && starts(#[trigger] r.skip(i), p);
        assert(r.skip(i).take(p.len() as int)[0] == ' ');
        assert(r.skip(i)[0] == r[i]);
        if i < m.len() {
            assert(r[i] == ':');
        } else {
            assert(r.skip(i) =~= s.skip(i - m.len()));
        }
    }
}

/// A tidied text is singly spaced, without a space at either end, and without a space on both
/// sides of a colon or of two. Tidying it again changes nothing.
pub proof fn law_tidied_is_tidy(s: Seq<char>)
    ensures
        singly_spaced(tidied(s)),
        flush(tidied(s)),
        !holds(tidied(s), " : "@),
        !holds(tidied(s), " :: "@),
        tidied(tidied(s)) == tidied(s),
{
    reveal_strlit(" : ");
    reveal_strlit(":");
    reveal_strlit(" :: ");
    reveal_strlit("::");
    reveal_strlit("\n");
    reveal_strlit("\r");
    let one = seq![':'];
    let two = seq![':', ':'];
    assert(":"@ =~= one);
    assert("::"@ =~= two);
    assert(" : "@ =~= wide(one));
    assert(" :: "@ =~= wide(two));
    let w = words_joined(s);
    lemma_line_words(s);
    lemma_joined_spacing(s);
    let u = replaced(w, wide(one), one);
    lemma_drawn_together(w, one);
    lemma_front(w, one);
    let v = replaced(u, wide(two), two);
    lemma_drawn_together(u, two);
    lemma_front(u, two);
    assert(tidied(s) == v);
    lemma_line_words(v);
    lemma_joined_stays(v);
    lemma_not_held(v, wide(one), one);
    lemma_not_held(v, wide(two), two);
}

/// Words that stand apart by white space are joined by one space, in their order, and white
/// space around them goes; a word alone stays as it is.
pub proof fn law_words_joined(word: Seq<char>, a: Seq<char>, w: char, b: Seq<char>)
    requires
        forall|i: int| 0 <= i < word.len() ==> !white_space(#[trigger] word[i]),
        white_space(w),
    ensures
        words_joined(word) == word,
        words_joined(a).len() == 0 ==> words_joined(a + seq![w] + b) == words_joined(b),
        words_joined(b).len() == 0 ==> words_joined(a + seq![w] + b) == words_joined(a),
        words_joined(a).len() > 0 && words_joined(b).len() > 0 ==> words_joined(a + seq![w] + b)
            == words_joined(a) + seq![' '] + words_joined(b),
{
    lemma_one_word(word);
    lemma_words_parted(a, w, b);
    if words_joined(a).len() == 0 {
        assert(words_joined(a) =~= Seq::<char>::empty());
    }
    if words_joined(b).len() == 0 {
        assert(words_joined(b) =~= Seq::<char>::empty());
    }
}

} // verus!
