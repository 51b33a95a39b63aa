//! Text operations, stated over sequences of characters.
use vstd::prelude::*;
use vstd::utf8::encode_utf8;

verus! {

/// Appends one character. The contract says that the text grows by exactly that
/// character, at its end.
pub assume_specification[ String::push ](s: &mut String, c: char)
    ensures
        final(s)@ == old(s)@.push(c),
;

/// `c` is white space: the characters with the Unicode property `White_Space`.
pub open spec fn white_space(c: char) -> bool {
    ||| '\u{9}' <= c <= '\u{d}'
    ||| c == ' '
    ||| c == '\u{85}'
    ||| c == '\u{a0}'
    ||| c == '\u{1680}'
    ||| '\u{2000}' <= c <= '\u{200a}'
    ||| c == '\u{2028}'
    ||| c == '\u{2029}'
    ||| c == '\u{202f}'
    ||| c == '\u{205f}'
    ||| c == '\u{3000}'
}

/// Whether `c` is white space.
pub fn is_white_space(c: char) -> (r: bool)
    ensures
        r == white_space(c),
{
    ('\u{9}' <= c && c <= '\u{d}') || c == ' ' || c == '\u{85}' || c == '\u{a0}' || c == '\u{1680}'
        || ('\u{2000}' <= c && c <= '\u{200a}') || c == '\u{2028}' || c == '\u{2029}' || c
        == '\u{202f}' || c == '\u{205f}' || c == '\u{3000}'
}

/// `pat` starts `s`.
pub open spec fn starts(s: Seq<char>, pat: Seq<char>) -> bool {
    pat.len() <= s.len() && s.take(pat.len() as int) == pat
}

/// `pat` ends `s`.
pub open spec fn ends(s: Seq<char>, pat: Seq<char>) -> bool {
    pat.len() <= s.len() && s.skip(s.len() - pat.len()) == pat
}

/// `pat` occurs somewhere in `s`.
pub open spec fn holds(s: Seq<char>, pat: Seq<char>) -> bool {
    exists|i: int| 0 <= i <= s.len() && starts(#[trigger] s.skip(i), pat)
}

/// `s` with every occurrence of `pat` replaced by `rep`: occurrences are taken from
/// the left and do not overlap. An empty `pat` occurs nowhere.
pub open spec fn replaced(s: Seq<char>, pat: Seq<char>, rep: Seq<char>) -> Seq<char>
    decreases s.len(),
{
    if s.len() == 0 || pat.len() == 0 {
        s
    } else if starts(s, pat) {
        rep + replaced(s.skip(pat.len() as int), pat, rep)
    } else {
        seq![s[0]] + replaced(s.skip(1), pat, rep)
    }
}

/// The pieces of `s` between the occurrences of `sep`, which are taken from the left
/// and do not overlap. There is always at least one piece.
pub open spec fn pieces(s: Seq<char>, sep: Seq<char>) -> Seq<Seq<char>>
    decreases s.len(),
{
    if s.len() == 0 || sep.len() == 0 {
        seq![s]
    } else if starts(s, sep) {
        seq![Seq::<char>::empty()] + pieces(s.skip(sep.len() as int), sep)
    } else {
        prepended(seq![s[0]], pieces(s.skip(1), sep))
    }
}

/// The part of `s` before the first `stop`.
pub open spec fn before(s: Seq<char>, stop: Seq<char>) -> Seq<char> {
    pieces(s, stop)[0]
}

/// `head` put in front of the first of `rest`.
pub open spec fn prepended(head: Seq<char>, rest: Seq<Seq<char>>) -> Seq<Seq<char>> {
    rest.update(0, head + rest[0])
}

/// `s` without the white space at its front.
pub open spec fn left_trimmed(s: Seq<char>) -> Seq<char>
    decreases s.len(),
{
    if s.len() > 0 && white_space(s[0]) {
        left_trimmed(s.skip(1))
    } else {
        s
    }
}

/// `s` without the white space at its back.
pub open spec fn right_trimmed(s: Seq<char>) -> Seq<char>
    decreases s.len(),
{
    if s.len() > 0 && white_space(s.last()) {
        right_trimmed(s.drop_last())
    } else {
        s
    }
}

/// `s` without the white space around it.
pub open spec fn trimmed(s: Seq<char>) -> Seq<char> {
    right_trimmed(left_trimmed(s))
}

/// `s` with every `tail` taken off its back, as long as there is one.
pub open spec fn without_tails(s: Seq<char>, tail: Seq<char>) -> Seq<char>
    decreases s.len(),
{
    if tail.len() > 0 && ends(s, tail) {
        without_tails(s.take(s.len() - tail.len()), tail)
    } else {
        s
    }
}

/// The words of `s` (its longest runs without white space), joined by one space.
pub open spec fn words_joined(s: Seq<char>) -> Seq<char>
    decreases s.len(),
{
    if s.len() == 0 {
        s
    } else if white_space(s.last()) {
        words_joined(s.drop_last())
    } else if s.len() >= 2 && white_space(s[s.len() - 2]) && words_joined(s.drop_last()).len() > 0 {
        words_joined(s.drop_last()) + seq![' ', s.last()]
    } else {
        words_joined(s.drop_last()).push(s.last())
    }
}

/// `s` is short enough for a parser that counts bytes in 32 bits.
pub open spec fn fits(s: Seq<char>) -> bool {
    encode_utf8(s).len() <= u32::MAX
}

/// Whether `s` is short enough for a parser that counts bytes in 32 bits.
pub fn is_short(s: &str) -> (r: bool)
    ensures
        r == fits(s@),
{
    s.as_bytes().len() <= u32::MAX as usize
}

/// The characters of a text.
pub fn to_chars(s: &str) -> (r: Vec<char>)
    ensures
        r@ == s@,
{
    let mut r: Vec<char> = Vec::new();
    for c in it: s.chars()
        invariant
            it.seq() == s@,
            r@ == s@.take(it.index() as int),
    {
        r.push(c);
        assert(s@.take(it.index() as int + 1) == s@.take(it.index() as int).push(c));
    }
    assert(s@.take(s@.len() as int) == s@);
    r
}

/// The text that the characters of `v` from `from` up to `to` spell.
pub fn from_range(v: &Vec<char>, from: usize, to: usize) -> (r: String)
    requires
        from <= to <= v@.len(),
    ensures
        r@ == v@.subrange(from as int, to as int),
{
    let mut r: String = String::new();
    let mut i: usize = from;
    while i < to
        invariant
            from <= i <= to <= v@.len(),
            r@ == v@.subrange(from as int, i as int),
        decreases to - i,
    {
        r.push(v[i]);
        i = i + 1;
        assert(v@.subrange(from as int, i as int) == v@.subrange(from as int, i - 1).push(v@[i - 1]));
    }
    r
}

/// Whether `p` stands in `v` at position `i`.
fn stands_at(v: &Vec<char>, i: usize, p: &Vec<char>) -> (r: bool)
    requires
        i <= v@.len(),
    ensures
        r == starts(v@.skip(i as int), p@),
{
    if p.len() > v.len() - i {
        return false;
    }
    let mut j: usize = 0;
    while j < p.len()
        invariant
            i <= v.len(),
            p.len() <= v.len() - i,
            j <= p.len(),
            forall|k: int| 0 <= k < j ==> v@[i + k] == p@[k],
        decreases p@.len() - j,
    {
        if v[i + j] != p[j] {
            assert(v@.skip(i as int).take(p@.len() as int)[j as int] != p@[j as int]);
            return false;
        }
        j = j + 1;
    }
    assert(v@.skip(i as int).take(p@.len() as int) == p@);
    true
}

/// `s` with every occurrence of `pat` replaced by `rep`.
pub fn replace_all(s: &str, pat: &str, rep: &str) -> (r: String)
    ensures
        r@ == replaced(s@, pat@, rep@),
{
    let v: Vec<char> = to_chars(s);
    let p: Vec<char> = to_chars(pat);
    if p.len() == 0 {
        return s.to_string();
    }
    let mut out: String = String::new();
    let mut i: usize = 0;
    assert(v@.skip(0) == v@);
    while i < v.len()
        invariant
            i <= v@.len(),
            p@.len() > 0,
            p@ == pat@,
            out@ + replaced(v@.skip(i as int), p@, rep@) == replaced(v@, p@, rep@),
        decreases v@.len() - i,
    {
        if stands_at(&v, i, &p) {
            out.append(rep);
            assert(v@.skip(i as int).skip(p@.len() as int) == v@.skip(i + p@.len()));
            i = i + p.len();
        } else {
            out.push(v[i]);
            assert(v@.skip(i as int).skip(1) == v@.skip(i + 1));
            i = i + 1;
        }
    }
    out
}

/// The pieces of `s` between the occurrences of `sep`.
pub fn split_on(s: &str, sep: &str) -> (r: Vec<String>)
    ensures
        views(r@) == pieces(s@, sep@),
        r@.len() > 0,
{
    let v: Vec<char> = to_chars(s);
    let p: Vec<char> = to_chars(sep);
    let mut out: Vec<String> = Vec::new();
    if p.len() == 0 {
        out.push(s.to_string());
        assert(views(out@) == seq![s@]);
        return out;
    }
    let mut from: usize = 0;
    let mut i: usize = 0;
    proof {
        lemma_pieces_nonempty(v@, p@);
        assert(v@.skip(0) == v@);
        assert(views(out@) + prepended(v@.subrange(0, 0), pieces(v@, p@)) == pieces(v@, p@));
    }
    while i < v.len()
        invariant
            from <= i <= v@.len(),
            p@.len() > 0,
            p@ == sep@,
            views(out@) + prepended(v@.subrange(from as int, i as int), pieces(v@.skip(i as int), p@))
                == pieces(v@, p@),
        decreases v@.len() - i,
    {
        let ghost rest = v@.skip(i as int);
        proof {
            lemma_pieces_nonempty(rest.skip(1), p@);
        }
        if stands_at(&v, i, &p) {
            let ghost before = out@;
            let piece: String = from_range(&v, from, i);
            out.push(piece);
            i = i + p.len();
            from = i;
            proof {
                let tail = pieces(v@.skip(i as int), p@);
                lemma_pieces_nonempty(v@.skip(i as int), p@);
                assert(rest.skip(p@.len() as int) == v@.skip(i as int));
                assert(views(out@) == views(before).push(piece@));
                assert(prepended(piece@, pieces(rest, p@)) == seq![piece@] + tail);
                assert(prepended(v@.subrange(from as int, i as int), tail) == tail);
            }
        } else {
            i = i + 1;
            proof {
                let tail = pieces(v@.skip(i as int), p@);
                assert(rest.skip(1) == v@.skip(i as int));
                assert(v@.subrange(from as int, i as int) == v@.subrange(from as int, i - 1)
                    + seq![rest[0]]);
                lemma_pieces_nonempty(v@.skip(i as int), p@);
                let head = v@.subrange(from as int, i - 1);
                assert(head + (seq![rest[0]] + tail[0]) == (head + seq![rest[0]]) + tail[0]);
                assert(prepended(head, prepended(seq![rest[0]], tail)) == prepended(v@.subrange(from as int, i as int), tail));
            }
        }
    }
    let ghost before = out@;
    let piece: String = from_range(&v, from, i);
    out.push(piece);
    assert(views(out@) == views(before) + prepended(piece@, pieces(v@.skip(i as int), p@)));
    out
}

/// The part of `s` before the first `stop`.
pub fn text_before(s: &str, stop: &str) -> (r: String)
    ensures
        r@ == before(s@, stop@),
{
    let parts: Vec<String> = split_on(s, stop);
    assert(views(parts@)[0] == parts@[0]@);
    parts[0].clone()
}

/// There is always a first piece.
pub proof fn lemma_pieces_nonempty(s: Seq<char>, sep: Seq<char>)
    ensures
        pieces(s, sep).len() > 0,
    decreases s.len(),
{
    if s.len() == 0 || sep.len() == 0 {
    } else if starts(s, sep) {
    } else {
        lemma_pieces_nonempty(s.skip(1), sep);
    }
}

/// The characters of each of several texts.
pub open spec fn views(v: Seq<String>) -> Seq<Seq<char>> {
    v.map_values(|s: String| s@)
}

/// Whether `pat` starts `s`.
pub fn starts_with(s: &str, pat: &str) -> (r: bool)
    ensures
        r == starts(s@, pat@),
{
    let v: Vec<char> = to_chars(s);
    let p: Vec<char> = to_chars(pat);
    assert(v@.skip(0) == v@);
    stands_at(&v, 0, &p)
}

/// Whether `pat` ends `s`.
pub fn ends_with(s: &str, pat: &str) -> (r: bool)
    ensures
        r == ends(s@, pat@),
{
    let v: Vec<char> = to_chars(s);
    let p: Vec<char> = to_chars(pat);
    if p.len() > v.len() {
        return false;
    }
    assert(v@.skip(v@.len() - p@.len()).take(p@.len() as int) == v@.skip(v@.len() - p@.len()));
    stands_at(&v, v.len() - p.len(), &p)
}

/// Whether `pat` occurs in `s`.
pub fn contains(s: &str, pat: &str) -> (r: bool)
    ensures
        r == holds(s@, pat@),
{
    let v: Vec<char> = to_chars(s);
    let p: Vec<char> = to_chars(pat);
    let mut i: usize = 0;
    while i < v.len()
        invariant
            i <= v@.len(),
            v@ == s@,
            p@ == pat@,
            forall|k: int| 0 <= k < i ==> !starts(#[trigger] s@.skip(k), pat@),
        decreases v@.len() - i,
    {
        if stands_at(&v, i, &p) {
            return true;
        }
        i = i + 1;
    }
    let r: bool = stands_at(&v, i, &p);
    r
}

/// Whether two texts hold the same characters.
pub fn same(a: &str, b: &str) -> (r: bool)
    ensures
        r == (a@ == b@),
{
    let x: String = a.to_string();
    let y: String = b.to_string();
    x == y
}

/// `s` without the white space around it.
pub fn trim(s: &str) -> (r: String)
    ensures
        r@ == trimmed(s@),
{
    let v: Vec<char> = to_chars(s);
    let mut from: usize = 0;
    assert(v@.skip(0) == v@);
    while from < v.len() && is_white_space(v[from])
        invariant
            from <= v@.len(),
            left_trimmed(v@.skip(from as int)) == left_trimmed(v@),
        decreases v@.len() - from,
    {
        assert(v@.skip(from as int).skip(1) == v@.skip(from + 1));
        from = from + 1;
    }
    let mut to: usize = v.len();
    let ghost body = v@.skip(from as int);
    assert(left_trimmed(v@) == body);
    assert(v@.subrange(from as int, to as int) == body);
    while to > from && is_white_space(v[to - 1])
        invariant
            from <= to <= v@.len(),
            right_trimmed(v@.subrange(from as int, to as int)) == right_trimmed(body),
        decreases to - from,
    {
        assert(v@.subrange(from as int, to as int).drop_last() == v@.subrange(from as int, to - 1));
        to = to - 1;
    }
    from_range(&v, from, to)
}

/// `s` with every `tail` taken off its back, as long as there is one.
pub fn trim_tails(s: &str, tail: &str) -> (r: String)
    ensures
        r@ == without_tails(s@, tail@),
{
    let v: Vec<char> = to_chars(s);
    let p: Vec<char> = to_chars(tail);
    let mut to: usize = v.len();
    assert(v@.take(to as int) == v@);
    if p.len() > 0 {
        while to >= p.len()
            invariant_except_break
                to <= v@.len(),
                p@.len() > 0,
                without_tails(v@.take(to as int), p@) == without_tails(v@, p@),
            ensures
                to <= v@.len(),
                v@.take(to as int) == without_tails(v@, p@),
            decreases to,
        {
            let ghost cur = v@.take(to as int);
            assert(v@.skip(to - p@.len()).take(p@.len() as int) == cur.skip(cur.len() - p@.len()));
            if stands_at(&v, to - p.len(), &p) {
                assert(cur.take(cur.len() - p@.len()) == v@.take(to - p@.len()));
                to = to - p.len();
            } else {
                break;
            }
        }
    }
    assert(v@.subrange(0, to as int) == v@.take(to as int));
    from_range(&v, 0, to)
}

/// The words of `s`, joined by one space.
pub fn join_words(s: &str) -> (r: String)
    ensures
        r@ == words_joined(s@),
{
    let v: Vec<char> = to_chars(s);
    let mut out: String = String::new();
    let mut started: bool = false;
    let mut i: usize = 0;
    while i < v.len()
        invariant
            i <= v@.len(),
            out@ == words_joined(v@.take(i as int)),
            started == (out@.len() > 0),
        decreases v@.len() - i,
    {
        let ghost cur = v@.take(i + 1);
        assert(cur.drop_last() == v@.take(i as int));
        let c: char = v[i];
        if !is_white_space(c) {
            if i > 0 && started && is_white_space(v[i - 1]) {
                let ghost before = out@;
                out.push(' ');
                out.push(c);
                assert(out@ == before + seq![' ', c]);
            } else {
                out.push(c);
            }
            started = true;
        }
        i = i + 1;
    }
    assert(v@.take(v@.len() as int) == v@);
    out
}

/// Several texts, one behind the other.
pub fn concat2(a: &str, b: &str) -> (r: String)
    ensures
        r@ == a@ + b@,
{
    let mut r: String = a.to_string();
    r.append(b);
    r
}

/// A text that holds the separator has two pieces or more.
pub proof fn lemma_holds_splits(s: Seq<char>, sep: Seq<char>)
    requires
        sep.len() > 0,
        holds(s, sep),
    ensures
        pieces(s, sep).len() >= 2,
    decreases s.len(),
{
    let i = choose|i: int| 0 <= i <= s.len() && starts(#[trigger] s.skip(i), sep);
    if starts(s, sep) {
        lemma_pieces_nonempty(s.skip(sep.len() as int), sep);
    } else {
        if i == 0 {
            assert(s.skip(0) == s);
        }
        assert(s.skip(1).skip(i - 1) == s.skip(i));
        lemma_holds_splits(s.skip(1), sep);
    }
}

} // verus!
