//! What holds of the machines of a source tree.
use vstd::prelude::*;
use vstd::set_lib::lemma_len_subset;

use crate::model::FsmView;
use crate::names::NameMap;
use crate::nesting::{fsm_machines, nests, Surroundings};
use crate::reach::{law_below_below, law_nesting_ends_without_cycle, reachable, reaches};
use crate::workspace::{by_name, is_named, law_roots, root_fsms, tree_surroundings};

verus! {

/// No two of `fsms` have one name.
pub open spec fn named_apart(fsms: Seq<FsmView>) -> bool {
    forall|i: int, j: int|
        0 <= i < fsms.len() && 0 <= j < fsms.len() && i != j ==> (#[trigger] fsms[i]).name != (
        #[trigger] fsms[j]).name
}

proof fn lemma_found_by_name(fsms: Seq<FsmView>, i: int)
    requires
        named_apart(fsms),
        0 <= i < fsms.len(),
    ensures
        by_name(fsms).dom().contains(fsms[i].name),
        by_name(fsms)[fsms[i].name] == fsms[i],
    decreases fsms.len(),
{
    let rest = fsms.drop_last();
    if i < rest.len() {
        assert forall|a: int, b: int|
            0 <= a < rest.len() && 0 <= b < rest.len() && a != b implies (#[trigger] rest[a]).name
            != (#[trigger] rest[b]).name by {
            assert(rest[a] == fsms[a] && rest[b] == fsms[b]);
        }
        lemma_found_by_name(rest, i);
        assert(rest[i] == fsms[i]);
        assert(fsms.last() == fsms[fsms.len() - 1]);
    }
}

/// A source tree holds finitely many machines.
pub proof fn lemma_by_name_finite(fsms: Seq<FsmView>)
    ensures
        by_name(fsms).dom().finite(),
    decreases fsms.len(),
{
    if fsms.len() > 0 {
        lemma_by_name_finite(fsms.drop_last());
    }
}

/// The machines that `x` runs below.
pub open spec fn above(s: Surroundings, x: Seq<char>) -> Set<Seq<char>> {
    Set::new(|y: Seq<char>| s.fsms.dom().contains(y) && reachable(s, s.fsms[y], x))
}

/// Where the machines of a source tree have names of their own, and none of them runs inside
/// itself, every machine is a root or runs below one: the diagrams of the roots show them
/// all.
pub proof fn law_every_machine_below_a_root(
    fsms: Seq<FsmView>,
    structs: Map<Seq<char>, NameMap<String>>,
    i: int,
)
    requires
        named_apart(fsms),
        forall|k: int|
            0 <= k < fsms.len() ==> nests(tree_surroundings(fsms, structs), #[trigger] fsms[k]),
        0 <= i < fsms.len(),
    ensures
        exists|r: FsmView| #[trigger]
            root_fsms(fsms, structs).contains(r) && (r == fsms[i] || reachable(
                tree_surroundings(fsms, structs),
                r,
                fsms[i].name,
            )),
    decreases above(tree_surroundings(fsms, structs), fsms[i].name).len(),
{
    let s = tree_surroundings(fsms, structs);
    let x = fsms[i].name;
    lemma_by_name_finite(fsms);
    lemma_found_by_name(fsms, i);
    if !is_named(s, fsms, x) {
        law_roots(s, fsms, fsms, fsms[i]);
        assert(root_fsms(fsms, structs).contains(fsms[i]));
    } else {
        let k = choose|k: int|
            0 <= k < fsms.len() && #[trigger] fsm_machines(s, fsms[k]).contains(x);
        let y = fsms[k].name;
        lemma_found_by_name(fsms, k);
        assert(reaches(s, fsms[k], x, 0));
        assert(reachable(s, s.fsms[y], x));
        assert(above(s, y).subset_of(above(s, x))) by {
            assert forall|z: Seq<char>| above(s, y).contains(z) implies above(s, x).contains(z) by {
                law_below_below(s, s.fsms[z], y, x);
            }
        }
        assert(!above(s, y).contains(y)) by {
            if reachable(s, s.fsms[y], y) {
                law_nesting_ends_without_cycle(s, fsms[k]);
            }
        }
        assert(above(s, x).subset_of(s.fsms.dom()));
        lemma_len_subset(above(s, x), s.fsms.dom());
        assert(above(s, y).subset_of(above(s, x).remove(y)));
        lemma_len_subset(above(s, y), above(s, x).remove(y));
        law_every_machine_below_a_root(fsms, structs, k);
        let r = choose|r: FsmView| #[trigger]
            root_fsms(fsms, structs).contains(r) && (r == fsms[k] || reachable(s, r, y));
        if r == fsms[k] {
            assert(reachable(s, r, x));
        } else {
            law_below_below(s, r, y, x);
        }
    }
}

} // verus!
