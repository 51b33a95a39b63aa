//! Which names are taken for machines, by their characters, and where in a text they are found.
use vstd::prelude::*;

use crate::names::with_name;
use crate::positions::{
    is_first_of, lemma_first_place, lemma_place_first, lemma_unspaced, node_at, unspaced,
};
use crate::subfsm::{
    discovered_in, discovered_in_all, is_lower, is_subfsm, is_upper, lowercase, noticed,
    path_subfsm, uppercase, Discovery,
};
use crate::syntax::{nth_place, Role, TreeView};
use crate::text::{ends, lemma_pieces_nonempty, pieces};
use crate::text_laws::{absent_before, law_first_piece, law_occurrences, law_one_piece, stands_at};

verus! {

/// The last characters of `name` are those of `tail`.
pub open spec fn has_tail(name: Seq<char>, tail: Seq<char>) -> bool {
    stands_at(name, name.len() - tail.len(), tail)
}

/// The first character of `name` is an upper case letter.
pub open spec fn is_capital(name: Seq<char>) -> bool {
    &&& name.len() > 0
    &&& name[0] <= '\u{7f}' ==> 'A' <= name[0] && name[0] <= 'Z'
    &&& name[0] > '\u{7f}' ==> uppercase(name[0])
}

/// The character of `name` at `i` is a lower case letter.
pub open spec fn is_small_at(name: Seq<char>, i: int) -> bool {
    &&& 0 <= i < name.len()
    &&& name[i] <= '\u{7f}' ==> 'a' <= name[i] && name[i] <= 'z'
    &&& name[i] > '\u{7f}' ==> lowercase(name[i])
}

/// A name of the language that stands for no machine.
pub open spec fn is_reserved(name: Seq<char>) -> bool {
    ||| name == seq!['S', 'e', 'l', 'f']
    ||| name == seq!['T', 'r', 'a', 'n', 's', 'i', 't', 'i', 'o', 'n']
    ||| name == seq!['O', 'p', 't', 'i', 'o', 'n']
    ||| name == seq!['R', 'e', 's', 'u', 'l', 't']
    ||| name == seq!['S', 't', 'r', 'i', 'n', 'g']
}

/// The end of `name` tells that it is an event, a context or a state.
pub open spec fn is_part_name(name: Seq<char>) -> bool {
    ||| has_tail(name, seq!['E', 'v', 'e', 'n', 't'])
    ||| has_tail(name, seq!['E', 'v', 't'])
    ||| has_tail(name, seq!['C', 'o', 'n', 't', 'e', 'x', 't'])
    ||| has_tail(name, seq!['C', 't', 'x'])
    ||| has_tail(name, seq!['S', 't', 'a', 't', 'e'])
}

/// `name` has the form of the name of a machine: it has a small letter, or the end that
/// machines have.
pub open spec fn is_machine_name(name: Seq<char>) -> bool {
    ||| has_tail(name, seq!['F', 'S', 'M'])
    ||| has_tail(name, seq!['F', 's', 'm'])
    ||| exists|i: int| #[trigger] is_small_at(name, i)
}

/// In the machine `fsm`, the name `name` is that of another machine.
pub open spec fn names_machine(fsm: Seq<char>, name: Seq<char>) -> bool {
    &&& is_capital(name)
    &&& name != fsm
    &&& !is_reserved(name)
    &&& !is_part_name(name)
    &&& is_machine_name(name)
}

proof fn lemma_tail(name: Seq<char>, tail: Seq<char>)
    ensures
        ends(name, tail) <==> has_tail(name, tail),
{
    law_occurrences(name, tail);
}

/// A name is taken for a machine exactly where its characters say so: it starts with a capital
/// letter; it is neither the machine itself nor a name of the language; it does not end as the
/// name of an event, a context or a state does; and it has a small letter, or ends in `FSM` or
/// `Fsm`.
pub proof fn law_machine_names(fsm: Seq<char>, name: Seq<char>)
    ensures
        is_subfsm(fsm, name) <==> names_machine(fsm, name),
{
    reveal_strlit("Self");
    reveal_strlit("Transition");
    reveal_strlit("Option");
    reveal_strlit("Result");
    reveal_strlit("String");
    reveal_strlit("Event");
    reveal_strlit("Evt");
    reveal_strlit("Context");
    reveal_strlit("Ctx");
    reveal_strlit("State");
    reveal_strlit("FSM");
    reveal_strlit("Fsm");
    assert("Self"@ =~= seq!['S', 'e', 'l', 'f']);
    assert("Transition"@ =~= seq!['T', 'r', 'a', 'n', 's', 'i', 't', 'i', 'o', 'n']);
    assert("Option"@ =~= seq!['O', 'p', 't', 'i', 'o', 'n']);
    assert("Result"@ =~= seq!['R', 'e', 's', 'u', 'l', 't']);
    assert("String"@ =~= seq!['S', 't', 'r', 'i', 'n', 'g']);
    assert("Event"@ =~= seq!['E', 'v', 'e', 'n', 't']);
    assert("Evt"@ =~= seq!['E', 'v', 't']);
    assert("Context"@ =~= seq!['C', 'o', 'n', 't', 'e', 'x', 't']);
    assert("Ctx"@ =~= seq!['C', 't', 'x']);
    assert("State"@ =~= seq!['S', 't', 'a', 't', 'e']);
    assert("FSM"@ =~= seq!['F', 'S', 'M']);
    assert("Fsm"@ =~= seq!['F', 's', 'm']);
    lemma_tail(name, "Event"@);
    lemma_tail(name, "Evt"@);
    lemma_tail(name, "Context"@);
    lemma_tail(name, "Ctx"@);
    lemma_tail(name, "State"@);
    lemma_tail(name, "FSM"@);
    lemma_tail(name, "Fsm"@);
    if exists|i: int| 0 <= i < name.len() && is_lower(#[trigger] name[i]) {
        let i = choose|i: int| 0 <= i < name.len() && is_lower(#[trigger] name[i]);
        assert(is_small_at(name, i));
    }
    if exists|i: int| #[trigger] is_small_at(name, i) {
        let i = choose|i: int| #[trigger] is_small_at(name, i);
        assert(is_lower(name[i]));
    }
    if name.len() > 0 {
        assert(is_upper(name[0]) <==> is_capital(name));
    }
}

/// The path `text` starts with the segment `name`, and has more segments behind it.
pub open spec fn leads_from(text: Seq<char>, name: Seq<char>, rest: Seq<char>) -> bool {
    &&& unspaced(text) == name + seq![':', ':'] + rest
    &&& absent_before(unspaced(text), name.len() as int, seq![':', ':'])
}

proof fn lemma_path_machine(fsm: Seq<char>, text: Seq<char>, name: Seq<char>, rest: Seq<char>)
    requires
        leads_from(text, name, rest),
        names_machine(fsm, name),
    ensures
        path_subfsm(fsm, text) == Some(name),
{
    reveal_strlit("::");
    assert("::"@ =~= seq![':', ':']);
    lemma_unspaced(text);
    let s = name + "::"@ + rest;
    law_first_piece(name, "::"@, rest);
    lemma_pieces_nonempty(rest, "::"@);
    assert(pieces(s, "::"@)[0] == name);
    law_machine_names(fsm, name);
}

proof fn lemma_machine_path(fsm: Seq<char>, text: Seq<char>) -> (rest: Seq<char>)
    requires
        path_subfsm(fsm, text) is Some,
    ensures
        leads_from(text, path_subfsm(fsm, text)->0, rest),
        names_machine(fsm, path_subfsm(fsm, text)->0),
{
    reveal_strlit("::");
    assert("::"@ =~= seq![':', ':']);
    lemma_unspaced(text);
    law_machine_names(fsm, path_subfsm(fsm, text)->0);
    let s = unspaced(text);
    let sep = "::"@;
    if exists|i: int| #[trigger] stands_at(s, i, sep) {
        let i = lemma_first_standing(s, sep, choose|i: int| #[trigger] stands_at(s, i, sep));
        let a = s.take(i);
        let b = s.skip(i + 2);
        assert(s =~= a + sep + b) by {
            assert(s[i + 0] == sep[0] && s[i + 1] == sep[1]);
        }
        law_first_piece(a, sep, b);
        assert(pieces(s, sep)[0] == a);
        b
    } else {
        law_one_piece(s, sep);
        Seq::empty()
    }
}

/// The first place where `pat` stands, at `i` or before.
proof fn lemma_first_standing(s: Seq<char>, pat: Seq<char>, i: int) -> (r: int)
    requires
        stands_at(s, i, pat),
    ensures
        stands_at(s, r, pat),
        r <= i,
        forall|j: int| 0 <= j < r ==> !#[trigger] stands_at(s, j, pat),
    decreases i,
{
    if exists|j: int| 0 <= j < i && #[trigger] stands_at(s, j, pat) {
        let j = choose|j: int| 0 <= j < i && #[trigger] stands_at(s, j, pat);
        lemma_first_standing(s, pat, j)
    } else {
        i
    }
}

proof fn lemma_with_name(names: Seq<Seq<char>>, name: Seq<char>, x: Seq<char>)
    ensures
        with_name(names, name).contains(x) <==> names.contains(x) || x == name,
{
    if !names.contains(name) {
        let now = names.push(name);
        assert(now[names.len() as int] == name);
        if names.contains(x) {
            assert(now[names.index_of(x)] == x);
        }
    }
}

/// What the node `n` itself is good for: a path from a machine, or the use of a field.
pub open spec fn shows_machine(fsm: Seq<char>, n: TreeView, name: Seq<char>) -> bool {
    &&& n.kind == "PATH"@
    &&& names_machine(fsm, name)
    &&& exists|rest: Seq<char>| #[trigger] leads_from(n.text, name, rest)
}

/// The node `n` uses the field `name`.
pub open spec fn shows_field(n: TreeView, name: Seq<char>) -> bool {
    &&& n.kind == "FIELD_EXPR"@
    &&& exists|i: int| #[trigger] is_first_of(n.children, i, "NAME_REF"@) && n.children[i].text
        == name
}

/// Somewhere in `t` a path starts from the machine `name`.
pub open spec fn has_machine(fsm: Seq<char>, t: TreeView, name: Seq<char>) -> bool {
    exists|path: Seq<int>|
        (#[trigger] node_at(t, path)) matches Some(n) && shows_machine(fsm, n, name)
}

/// Somewhere in `t` the field `name` is used.
pub open spec fn has_field(t: TreeView, name: Seq<char>) -> bool {
    exists|path: Seq<int>| (#[trigger] node_at(t, path)) matches Some(n) && shows_field(n, name)
}

proof fn lemma_noticed(fsm: Seq<char>, t: TreeView, d: Discovery, x: Seq<char>)
    ensures
        noticed(fsm, t, d).machines.contains(x) <==> d.machines.contains(x) || shows_machine(
            fsm,
            t,
            x,
        ),
        noticed(fsm, t, d).fields.contains(x) <==> d.fields.contains(x) || shows_field(t, x),
{
    reveal_strlit("PATH");
    reveal_strlit("FIELD_EXPR");
    assert("PATH"@.len() != "FIELD_EXPR"@.len());
    if t.kind == "PATH"@ {
        if shows_machine(fsm, t, x) {
            let rest = choose|rest: Seq<char>| #[trigger] leads_from(t.text, x, rest);
            lemma_path_machine(fsm, t.text, x, rest);
        }
        match path_subfsm(fsm, t.text) {
            Some(name) => {
                lemma_with_name(d.machines, name, x);
                let rest = lemma_machine_path(fsm, t.text);
                assert(leads_from(t.text, name, rest));
            },
            None => {},
        }
    } else if t.kind == "FIELD_EXPR"@ {
        lemma_place_first(t.children, Role::Name, 0);
        match nth_place(t.children, Role::Name, 0) {
            Some(i) => {
                lemma_with_name(d.fields, t.children[i].text, x);
                assert(is_first_of(t.children, i, "NAME_REF"@));
            },
            None => {},
        }
        if shows_field(t, x) {
            let i = choose|i: int| #[trigger]
                is_first_of(t.children, i, "NAME_REF"@) && t.children[i].text == x;
            lemma_first_place(t.children, Role::Name, i, 0);
        }
    }
}

proof fn lemma_discovered(fsm: Seq<char>, t: TreeView, d: Discovery, x: Seq<char>)
    ensures
        discovered_in(fsm, t, d).machines.contains(x) <==> d.machines.contains(x) || has_machine(
            fsm,
            t,
            x,
        ),
        discovered_in(fsm, t, d).fields.contains(x) <==> d.fields.contains(x) || has_field(t, x),
    decreases t, 1nat,
{
    lemma_noticed(fsm, t, d, x);
    lemma_all_discovered(fsm, t.children, noticed(fsm, t, d), x);
    let here = Seq::<int>::empty();
    assert(node_at(t, here) == Some(t));
    if has_machine(fsm, t, x) {
        let path = choose|path: Seq<int>|
            (#[trigger] node_at(t, path)) matches Some(n) && shows_machine(fsm, n, x);
        if path.len() > 0 {
            assert(node_at(t.children[path[0]], path.drop_first()) == node_at(t, path));
            assert(has_machine(fsm, t.children[path[0]], x));
        }
    }
    if has_field(t, x) {
        let path = choose|path: Seq<int>|
            (#[trigger] node_at(t, path)) matches Some(n) && shows_field(n, x);
        if path.len() > 0 {
            assert(node_at(t.children[path[0]], path.drop_first()) == node_at(t, path));
            assert(has_field(t.children[path[0]], x));
        }
    }
    if exists|i: int| 0 <= i < t.children.len() && has_machine(fsm, #[trigger] t.children[i], x) {
        let i = choose|i: int|
            0 <= i < t.children.len() && has_machine(fsm, #[trigger] t.children[i], x);
        let path = choose|path: Seq<int>|
            (#[trigger] node_at(t.children[i], path)) matches Some(n) && shows_machine(fsm, n, x);
        let way = seq![i] + path;
        assert(way.drop_first() =~= path);
        assert(node_at(t, way) == node_at(t.children[i], path));
    }
    if exists|i: int| 0 <= i < t.children.len() && has_field(#[trigger] t.children[i], x) {
        let i = choose|i: int| 0 <= i < t.children.len() && has_field(#[trigger] t.children[i], x);
        let path = choose|path: Seq<int>|
            (#[trigger] node_at(t.children[i], path)) matches Some(n) && shows_field(n, x);
        let way = seq![i] + path;
        assert(way.drop_first() =~= path);
        assert(node_at(t, way) == node_at(t.children[i], path));
    }
}

proof fn lemma_all_discovered(fsm: Seq<char>, ts: Seq<TreeView>, d: Discovery, x: Seq<char>)
    ensures
        discovered_in_all(fsm, ts, d).machines.contains(x) <==> d.machines.contains(x) || exists|
            i: int,
        |
            0 <= i < ts.len() && has_machine(fsm, #[trigger] ts[i], x),
        discovered_in_all(fsm, ts, d).fields.contains(x) <==> d.fields.contains(x) || exists|i: int|
            0 <= i < ts.len() && has_field(#[trigger] ts[i], x),
    decreases ts, 0nat,
{
    if ts.len() > 0 {
        let rest = ts.drop_last();
        lemma_all_discovered(fsm, rest, d, x);
        lemma_discovered(fsm, ts.last(), discovered_in_all(fsm, rest, d), x);
        assert forall|i: int| 0 <= i < rest.len() implies #[trigger] ts[i] == rest[i] by {}
        assert(ts.last() == ts[ts.len() - 1]);
        if exists|i: int| 0 <= i < rest.len() && has_machine(fsm, #[trigger] rest[i], x) {
            let i = choose|i: int| 0 <= i < rest.len() && has_machine(fsm, #[trigger] rest[i], x);
            assert(has_machine(fsm, ts[i], x));
        }
        if exists|i: int| 0 <= i < rest.len() && has_field(#[trigger] rest[i], x) {
            let i = choose|i: int| 0 <= i < rest.len() && has_field(#[trigger] rest[i], x);
            assert(has_field(ts[i], x));
        }
        if exists|i: int| 0 <= i < ts.len() && has_machine(fsm, #[trigger] ts[i], x) {
            let i = choose|i: int| 0 <= i < ts.len() && has_machine(fsm, #[trigger] ts[i], x);
            if i < rest.len() {
                assert(has_machine(fsm, rest[i], x));
            }
        }
        if exists|i: int| 0 <= i < ts.len() && has_field(#[trigger] ts[i], x) {
            let i = choose|i: int| 0 <= i < ts.len() && has_field(#[trigger] ts[i], x);
            if i < rest.len() {
                assert(has_field(rest[i], x));
            }
        }
    }
}

/// A machine is discovered in a tree wherever a path in it starts from its name and goes on,
/// and nowhere else: the name of every machine that is discovered starts such a path.
pub proof fn law_machines_discovered(fsm: Seq<char>, t: TreeView, d: Discovery, name: Seq<char>)
    ensures
        discovered_in(fsm, t, d).machines.contains(name) <==> d.machines.contains(name)
            || has_machine(fsm, t, name),
{
    lemma_discovered(fsm, t, d, name);
}

/// The fields that are discovered in a tree are those whose names stand in its field
/// expressions.
pub proof fn law_fields_discovered(fsm: Seq<char>, t: TreeView, d: Discovery, name: Seq<char>)
    ensures
        discovered_in(fsm, t, d).fields.contains(name) <==> d.fields.contains(name) || has_field(
            t,
            name,
        ),
{
    lemma_discovered(fsm, t, d, name);
}

} // verus!
