//! All machines below a machine, at any depth.
use vstd::prelude::*;
use vstd::set_lib::lemma_len_subset;

use crate::model::{fsm_fits, FsmDefinition, FsmView};
use crate::names::{NameMap, NameSet};
use crate::nesting::{
    all_fit, discover_fsm, fsm_machines, fsm_views, lemma_machine_count, name_machines, nests,
    nests_within, resolves, state_machines, surroundings, Surroundings,
};
use crate::nesting_laws::{law_fsm_names_what_states_name, law_nesting_goes_down};
use crate::subfsm::SubFsmExtractor;

verus! {

/// Every type goes by its own name.
pub open spec fn as_is() -> spec_fn(Seq<char>) -> Seq<char> {
    |name: Seq<char>| name
}

/// The name `name` itself.
pub fn as_written(name: &str) -> (r: String)
    ensures
        r@ == name@,
{
    name.to_string()
}

/// What is known, where every type goes by its own name.
pub open spec fn plainly(
    fsms: Map<Seq<char>, &FsmDefinition>,
    structs: Map<Seq<char>, NameMap<String>>,
) -> Surroundings {
    surroundings(fsms, structs, as_is())
}

/// The machines that are not among `seen`.
pub open spec fn unseen(s: Surroundings, seen: Seq<Seq<char>>) -> Set<Seq<char>> {
    s.fsms.dom().difference(seen.to_set())
}

/// A machine that is seen is no longer among the unseen ones.
pub proof fn lemma_unseen(s: Surroundings, seen: Seq<Seq<char>>, name: Seq<char>)
    requires
        s.fsms.dom().finite(),
        s.fsms.dom().contains(name),
        !seen.contains(name),
    ensures
        unseen(s, seen.push(name)).finite(),
        unseen(s, seen.push(name)).len() < unseen(s, seen).len(),
{
    assert(unseen(s, seen.push(name)) =~= unseen(s, seen).remove(name)) by {
        assert forall|x: Seq<char>| seen.push(name).contains(x) <==> seen.contains(x) || x
            == name by {
            if seen.contains(x) {
                assert(seen.push(name)[seen.index_of(x)] == x);
            }
            assert(seen.push(name)[seen.len() as int] == name);
        }
    }
}

/// `seen`, with the machines of `work` that are new, and behind each of them, before the
/// next one of `work`, what is new below it.
pub open spec fn collected(
    s: Surroundings,
    work: Seq<Seq<char>>,
    seen: Seq<Seq<char>>,
) -> Seq<Seq<char>>
    decreases unseen(s, seen).len(), work.len(),
    when s.fsms.dom().finite()
{
    if work.len() == 0 {
        seen
    } else {
        let name = work[0];
        let rest = work.skip(1);
        if s.fsms.dom().contains(name) && !seen.contains(name) {
            proof {
                lemma_unseen(s, seen, name);
            }
            collected(s, fsm_machines(s, s.fsms[name]) + rest, seen.push(name))
        } else {
            collected(s, rest, seen)
        }
    }
}

/// All machines below `m`.
pub open spec fn machines_below(s: Surroundings, m: FsmView) -> Seq<Seq<char>> {
    collected(s, fsm_machines(s, m), Seq::empty())
}

/// What is collected from one list and then from another is what is collected from both.
proof fn lemma_collected_chain(
    s: Surroundings,
    a: Seq<Seq<char>>,
    b: Seq<Seq<char>>,
    seen: Seq<Seq<char>>,
)
    requires
        s.fsms.dom().finite(),
    ensures
        collected(s, a + b, seen) == collected(s, b, collected(s, a, seen)),
    decreases unseen(s, seen).len(), a.len(),
{
    if a.len() == 0 {
        assert(a + b =~= b);
    } else {
        let name = a[0];
        assert((a + b).skip(1) =~= a.skip(1) + b);
        if s.fsms.dom().contains(name) && !seen.contains(name) {
            let below = fsm_machines(s, s.fsms[name]);
            lemma_unseen(s, seen, name);
            lemma_collected_chain(s, below + a.skip(1), b, seen.push(name));
            assert(below + (a.skip(1) + b) =~= (below + a.skip(1)) + b);
        } else {
            lemma_collected_chain(s, a.skip(1), b, seen);
        }
    }
}

/// What has been seen stays, in its place, and no name comes in twice.
proof fn lemma_collected_grows(s: Surroundings, work: Seq<Seq<char>>, seen: Seq<Seq<char>>)
    requires
        s.fsms.dom().finite(),
    ensures
        seen.len() <= collected(s, work, seen).len(),
        collected(s, work, seen).take(seen.len() as int) == seen,
        seen.no_duplicates() ==> collected(s, work, seen).no_duplicates(),
        forall|x: Seq<char>| #[trigger]
            seen.contains(x) ==> collected(s, work, seen).contains(x),
    decreases unseen(s, seen).len(), work.len(),
{
    let all = collected(s, work, seen);
    if work.len() > 0 {
        let name = work[0];
        let rest = work.skip(1);
        if s.fsms.dom().contains(name) && !seen.contains(name) {
            lemma_unseen(s, seen, name);
            lemma_collected_grows(s, fsm_machines(s, s.fsms[name]) + rest, seen.push(name));
            assert(all.take(seen.len() as int) =~= all.take(seen.push(name).len() as int).take(
                seen.len() as int,
            ));
            assert(seen.push(name).take(seen.len() as int) =~= seen);
        } else {
            lemma_collected_grows(s, rest, seen);
        }
    } else {
        assert(seen.take(seen.len() as int) =~= seen);
    }
    assert forall|x: Seq<char>| #[trigger] seen.contains(x) implies all.contains(x) by {
        let i = seen.index_of(x);
        assert(all.take(seen.len() as int)[i] == x);
    }
}

/// `x` is a machine that runs `steps` levels further below `m` than those that `m` names.
pub open spec fn reaches(s: Surroundings, m: FsmView, x: Seq<char>, steps: nat) -> bool
    decreases steps,
{
    &&& s.fsms.dom().contains(x)
    &&& if steps == 0 {
        fsm_machines(s, m).contains(x)
    } else {
        exists|mid: Seq<char>|
            reaches(s, m, mid, (steps - 1) as nat) && #[trigger] fsm_machines(
                s,
                s.fsms[mid],
            ).contains(x)
    }
}

/// `x` is a machine that runs below `m`, at any depth.
pub open spec fn reachable(s: Surroundings, m: FsmView, x: Seq<char>) -> bool {
    exists|steps: nat| reaches(s, m, x, steps)
}

proof fn lemma_reach_chain(
    s: Surroundings,
    m: FsmView,
    mid: Seq<char>,
    x: Seq<char>,
    i: nat,
    j: nat,
)
    requires
        reaches(s, m, mid, i),
        reaches(s, s.fsms[mid], x, j),
    ensures
        reaches(s, m, x, i + j + 1),
    decreases j,
{
    if j == 0 {
        assert(fsm_machines(s, s.fsms[mid]).contains(x));
        assert((i + 1 - 1) as nat == i);
    } else {
        let y = choose|y: Seq<char>|
            reaches(s, s.fsms[mid], y, (j - 1) as nat) && #[trigger] fsm_machines(
                s,
                s.fsms[y],
            ).contains(x);
        lemma_reach_chain(s, m, mid, y, i, (j - 1) as nat);
        assert((i + j + 1 - 1) as nat == i + (j - 1) as nat + 1);
    }
}

/// What runs below a machine that runs below `m` runs below `m`.
pub proof fn law_below_below(s: Surroundings, m: FsmView, mid: Seq<char>, x: Seq<char>)
    requires
        reachable(s, m, mid),
        reachable(s, s.fsms[mid], x),
    ensures
        reachable(s, m, x),
{
    let i = choose|i: nat| reaches(s, m, mid, i);
    let j = choose|j: nat| reaches(s, s.fsms[mid], x, j);
    lemma_reach_chain(s, m, mid, x, i, j);
}

proof fn lemma_collected_reachable(
    s: Surroundings,
    m: FsmView,
    work: Seq<Seq<char>>,
    seen: Seq<Seq<char>>,
)
    requires
        s.fsms.dom().finite(),
        forall|w: Seq<char>| #[trigger]
            work.contains(w) && s.fsms.dom().contains(w) ==> reachable(s, m, w),
        forall|x: Seq<char>| #[trigger] seen.contains(x) ==> reachable(s, m, x),
    ensures
        forall|x: Seq<char>| #[trigger]
            collected(s, work, seen).contains(x) ==> reachable(s, m, x),
    decreases unseen(s, seen).len(), work.len(),
{
    if work.len() > 0 {
        let name = work[0];
        let rest = work.skip(1);
        assert(work.contains(name));
        assert forall|w: Seq<char>| #[trigger] rest.contains(w) implies work.contains(w) by {
            assert(work[rest.index_of(w) + 1] == w);
        }
        if s.fsms.dom().contains(name) && !seen.contains(name) {
            let below = fsm_machines(s, s.fsms[name]);
            let steps = choose|steps: nat| reaches(s, m, name, steps);
            assert forall|w: Seq<char>| #[trigger]
                (below + rest).contains(w) && s.fsms.dom().contains(w) implies reachable(
                s,
                m,
                w,
            ) by {
                let i = (below + rest).index_of(w);
                if i < below.len() {
                    assert(below[i] == w);
                    assert(fsm_machines(s, s.fsms[name]).contains(w));
                    assert((steps + 1 - 1) as nat == steps);
                    assert(reaches(s, m, w, steps + 1));
                } else {
                    assert(rest[i - below.len()] == w);
                    assert(rest.contains(w));
                }
            }
            assert forall|x: Seq<char>| #[trigger] seen.push(name).contains(x) implies reachable(
                s,
                m,
                x,
            ) by {
                let i = seen.push(name).index_of(x);
                if i < seen.len() {
                    assert(seen[i] == x);
                    assert(seen.contains(x));
                }
            }
            lemma_unseen(s, seen, name);
            lemma_collected_reachable(s, m, below + rest, seen.push(name));
            assert(collected(s, work, seen) == collected(s, below + rest, seen.push(name)));
        } else {
            lemma_collected_reachable(s, m, rest, seen);
            assert(collected(s, work, seen) == collected(s, rest, seen));
        }
    }
}

/// Every machine that `x` names is among `all`.
spec fn is_closed_at(s: Surroundings, all: Seq<Seq<char>>, x: Seq<char>) -> bool {
    forall|y: Seq<char>| #[trigger]
        fsm_machines(s, s.fsms[x]).contains(y) && s.fsms.dom().contains(y) ==> all.contains(y)
}

proof fn lemma_collected_closed(s: Surroundings, work: Seq<Seq<char>>, seen: Seq<Seq<char>>)
    requires
        s.fsms.dom().finite(),
    ensures
        forall|w: Seq<char>| #[trigger]
            work.contains(w) && s.fsms.dom().contains(w) ==> collected(s, work, seen).contains(w),
        forall|x: Seq<char>| #[trigger]
            collected(s, work, seen).contains(x) && !seen.contains(x) ==> is_closed_at(
                s,
                collected(s, work, seen),
                x,
            ),
    decreases unseen(s, seen).len(), work.len(),
{
    let all = collected(s, work, seen);
    if work.len() > 0 {
        let name = work[0];
        let rest = work.skip(1);
        assert forall|w: Seq<char>| #[trigger] work.contains(w) implies w == name || rest.contains(
            w,
        ) by {
            let i = work.index_of(w);
            if i > 0 {
                assert(rest[i - 1] == w);
            }
        }
        if s.fsms.dom().contains(name) && !seen.contains(name) {
            let below = fsm_machines(s, s.fsms[name]);
            lemma_unseen(s, seen, name);
            lemma_collected_closed(s, below + rest, seen.push(name));
            lemma_collected_grows(s, below + rest, seen.push(name));
            assert(seen.push(name)[seen.len() as int] == name);
            assert(seen.push(name).contains(name));
            assert forall|y: Seq<char>| #[trigger] below.contains(y) implies (below
                + rest).contains(y) by {
                assert((below + rest)[below.index_of(y)] == y);
            }
            assert forall|y: Seq<char>| #[trigger] rest.contains(y) implies (below
                + rest).contains(y) by {
                assert((below + rest)[below.len() + rest.index_of(y)] == y);
            }
            assert(is_closed_at(s, all, name));
            assert forall|x: Seq<char>| #[trigger]
                all.contains(x) && !seen.contains(x) implies is_closed_at(s, all, x) by {
                if x != name {
                    assert(!seen.push(name).contains(x)) by {
                        if seen.push(name).contains(x) {
                            let i = seen.push(name).index_of(x);
                            assert(seen[i] == x);
                        }
                    }
                }
            }
        } else {
            lemma_collected_closed(s, rest, seen);
            lemma_collected_grows(s, rest, seen);
        }
    }
}

proof fn lemma_reached_is_collected(s: Surroundings, m: FsmView, x: Seq<char>, steps: nat)
    requires
        s.fsms.dom().finite(),
        reaches(s, m, x, steps),
    ensures
        machines_below(s, m).contains(x),
    decreases steps,
{
    lemma_collected_closed(s, fsm_machines(s, m), Seq::empty());
    if steps > 0 {
        let mid = choose|mid: Seq<char>|
            reaches(s, m, mid, (steps - 1) as nat) && #[trigger] fsm_machines(
                s,
                s.fsms[mid],
            ).contains(x);
        lemma_reached_is_collected(s, m, mid, (steps - 1) as nat);
        assert(is_closed_at(s, machines_below(s, m), mid));
    }
}

/// The machines below a machine are exactly those that can be reached from it, each of them
/// once, also where machines run inside each other.
pub proof fn law_machines_below(s: Surroundings, m: FsmView)
    requires
        s.fsms.dom().finite(),
    ensures
        machines_below(s, m).no_duplicates(),
        forall|x: Seq<char>| #[trigger]
            machines_below(s, m).contains(x) <==> reachable(s, m, x),
{
    let named = fsm_machines(s, m);
    assert forall|w: Seq<char>| #[trigger]
        named.contains(w) && s.fsms.dom().contains(w) implies reachable(s, m, w) by {
        assert(reaches(s, m, w, 0));
    }
    lemma_collected_reachable(s, m, named, Seq::empty());
    lemma_collected_grows(s, named, Seq::empty());
    assert forall|x: Seq<char>| reachable(s, m, x) implies #[trigger] machines_below(
        s,
        m,
    ).contains(x) by {
        let steps = choose|steps: nat| reaches(s, m, x, steps);
        lemma_reached_is_collected(s, m, x, steps);
    }
}

proof fn lemma_nesting_reached(s: Surroundings, m: FsmView, x: Seq<char>, steps: nat)
    requires
        nests(s, m),
        reaches(s, m, x, steps),
    ensures
        nests(s, s.fsms[x]),
    decreases steps,
{
    if steps == 0 {
        law_nesting_goes_down(s, m, x);
    } else {
        let mid = choose|mid: Seq<char>|
            reaches(s, m, mid, (steps - 1) as nat) && #[trigger] fsm_machines(
                s,
                s.fsms[mid],
            ).contains(x);
        lemma_nesting_reached(s, m, mid, (steps - 1) as nat);
        law_nesting_goes_down(s, s.fsms[mid], x);
    }
}

/// Where the nesting below a machine comes to an end, so does the nesting below each
/// machine that runs below it.
pub proof fn law_nesting_below(s: Surroundings, m: FsmView, x: Seq<char>)
    requires
        nests(s, m),
        reachable(s, m, x),
    ensures
        nests(s, s.fsms[x]),
{
    let steps = choose|steps: nat| reaches(s, m, x, steps);
    lemma_nesting_reached(s, m, x, steps);
}

/// How deep a machine nests that is reached in `steps` steps from one that nests within
/// `depth`.
proof fn lemma_depth_reached(s: Surroundings, m: FsmView, x: Seq<char>, steps: nat, depth: nat)
    requires
        nests_within(s, m, depth),
        reaches(s, m, x, steps),
    ensures
        steps < depth,
        nests_within(s, s.fsms[x], (depth - steps - 1) as nat),
    decreases steps,
{
    if steps == 0 {
        lemma_depth_named(s, m, x, depth);
    } else {
        let mid = choose|mid: Seq<char>|
            reaches(s, m, mid, (steps - 1) as nat) && #[trigger] fsm_machines(
                s,
                s.fsms[mid],
            ).contains(x);
        lemma_depth_reached(s, m, mid, (steps - 1) as nat, depth);
        lemma_depth_named(s, s.fsms[mid], x, (depth - steps) as nat);
    }
}

proof fn lemma_depth_named(s: Surroundings, m: FsmView, x: Seq<char>, depth: nat)
    requires
        nests_within(s, m, depth),
        fsm_machines(s, m).contains(x),
        s.fsms.dom().contains(x),
    ensures
        0 < depth,
        nests_within(s, s.fsms[x], (depth - 1) as nat),
{
    law_fsm_names_what_states_name(s, m, x);
    let i = choose|i: int|
        0 <= i < m.states.len() && #[trigger] state_machines(s, m, m.states[i]).contains(x);
    let k = state_machines(s, m, m.states[i]).index_of(x);
    assert(s.fsms.dom().contains(state_machines(s, m, m.states[i])[k]));
}

proof fn lemma_no_cycle(s: Surroundings, x: Seq<char>, steps: nat, depth: nat)
    requires
        nests_within(s, s.fsms[x], depth),
    ensures
        !reaches(s, s.fsms[x], x, steps),
    decreases depth,
{
    if reaches(s, s.fsms[x], x, steps) {
        lemma_depth_reached(s, s.fsms[x], x, steps, depth);
        lemma_no_cycle(s, x, steps, (depth - steps - 1) as nat);
    }
}

/// Each of `path` names the next one, and `m` names the first.
spec fn is_path(s: Surroundings, m: FsmView, path: Seq<Seq<char>>) -> bool {
    &&& forall|k: int| 0 <= k < path.len() ==> s.fsms.dom().contains(#[trigger] path[k])
    &&& path.len() > 0 ==> fsm_machines(s, m).contains(path[0])
    &&& forall|k: int|
        #![trigger path[k]]
        0 < k < path.len() ==> fsm_machines(s, s.fsms[path[k - 1]]).contains(path[k])
}

/// A path of more than `depth` machines, where `m` does not nest within `depth`.
proof fn lemma_long_path(s: Surroundings, m: FsmView, depth: nat) -> (path: Seq<Seq<char>>)
    requires
        !nests_within(s, m, depth),
    ensures
        path.len() == depth + 1,
        is_path(s, m, path),
    decreases depth,
{
    let (i, k) = choose|i: int, k: int|
        0 <= i < m.states.len() && 0 <= k < state_machines(s, m, m.states[i]).len()
            && s.fsms.dom().contains(#[trigger] state_machines(s, m, m.states[i])[k]) && !(depth > 0
            && nests_within(
            s,
            s.fsms[state_machines(s, m, m.states[i])[k]],
            (depth - 1) as nat,
        ));
    let x = state_machines(s, m, m.states[i])[k];
    assert(state_machines(s, m, m.states[i]).contains(x));
    law_fsm_names_what_states_name(s, m, x);
    if depth == 0 {
        seq![x]
    } else {
        let rest = lemma_long_path(s, s.fsms[x], (depth - 1) as nat);
        let path = seq![x] + rest;
        assert forall|k: int|
            #![trigger path[k]]
            0 < k < path.len() implies fsm_machines(s, s.fsms[path[k - 1]]).contains(path[k]) by {
            assert(path[k] == rest[k - 1]);
            if k > 1 {
                assert(path[k - 1] == rest[k - 2]);
            }
        }
        path
    }
}

proof fn lemma_path_reaches(s: Surroundings, m: FsmView, path: Seq<Seq<char>>, k: int)
    requires
        is_path(s, m, path),
        0 <= k < path.len(),
    ensures
        reaches(s, m, path[k], k as nat),
    decreases k,
{
    if k > 0 {
        lemma_path_reaches(s, m, path, k - 1);
        assert(fsm_machines(s, s.fsms[path[k - 1]]).contains(path[k]));
        assert((k as nat - 1) as nat == (k - 1) as nat);
    }
}

/// The nesting below a machine comes to an end if and only if no machine that runs below it
/// runs below itself.
pub proof fn law_nesting_ends_without_cycle(s: Surroundings, m: FsmView)
    requires
        s.fsms.dom().finite(),
    ensures
        nests(s, m) <==> forall|x: Seq<char>| #[trigger]
            reachable(s, m, x) ==> !reachable(s, s.fsms[x], x),
{
    if nests(s, m) {
        assert forall|x: Seq<char>| #[trigger] reachable(s, m, x) implies !reachable(
            s,
            s.fsms[x],
            x,
        ) by {
            law_nesting_below(s, m, x);
            if reachable(s, s.fsms[x], x) {
                let depth = choose|depth: nat| nests_within(s, s.fsms[x], depth);
                let steps = choose|steps: nat| reaches(s, s.fsms[x], x, steps);
                lemma_no_cycle(s, x, steps, depth);
            }
        }
    } else {
        let n = s.fsms.dom().len();
        let path = lemma_long_path(s, m, n);
        if path.no_duplicates() {
            path.unique_seq_to_set();
            lemma_len_subset(path.to_set(), s.fsms.dom());
        }
        let (i, j) = choose|i: int, j: int|
            0 <= i < path.len() && 0 <= j < path.len() && i < j && #[trigger] path[i]
                == #[trigger] path[j];
        let x = path[i];
        lemma_path_reaches(s, m, path, i);
        assert(reachable(s, m, x));
        let tail = path.skip(i + 1);
        assert(is_path(s, s.fsms[x], tail)) by {
            assert(tail[0] == path[i + 1]);
            assert forall|k: int|
                #![trigger tail[k]]
                0 < k < tail.len() implies fsm_machines(s, s.fsms[tail[k - 1]]).contains(tail[k]) by {
                assert(tail[k] == path[k + i + 1]);
                assert(tail[k - 1] == path[k + i + 1 - 1]);
            }
        }
        lemma_path_reaches(s, s.fsms[x], tail, j - i - 1);
        assert(tail[j - i - 1] == x);
        assert(reachable(s, s.fsms[x], x));
    }
}

/// The machines that `fsm` names.
pub fn machines_of(
    fsm: &FsmDefinition,
    all_fsms: &NameMap<&FsmDefinition>,
    struct_map: &NameMap<NameMap<String>>,
) -> (r: NameSet)
    requires
        fsm_fits(fsm@),
    ensures
        r@ == fsm_machines(plainly(all_fsms@, struct_map@), fsm@),
        r.wf(),
{
    let x: SubFsmExtractor = discover_fsm(fsm);
    assert(resolves(as_written, as_is()));
    name_machines(fsm, &x, all_fsms, struct_map, &as_written)
}

/// Puts all machines below `fsm` into `discovered`. What is there already is not looked at
/// again.
pub fn collect_all_subfsms(
    fsm: &FsmDefinition,
    all_fsms: &NameMap<&FsmDefinition>,
    struct_map: &NameMap<NameMap<String>>,
    discovered: &mut NameSet,
)
    requires
        fsm_fits(fsm@),
        all_fit(fsm_views(all_fsms@)),
    ensures
        final(discovered)@ == collected(
            plainly(all_fsms@, struct_map@),
            fsm_machines(plainly(all_fsms@, struct_map@), fsm@),
            old(discovered)@,
        ),
        old(discovered).wf() ==> final(discovered).wf(),
    decreases unseen(plainly(all_fsms@, struct_map@), old(discovered)@).len(),
{
    let ghost s = plainly(all_fsms@, struct_map@);
    let ghost before = discovered@;
    proof {
        lemma_machine_count(all_fsms);
    }
    let names: NameSet = machines_of(fsm, all_fsms, struct_map);
    let mut i: usize = 0;
    assert(names@.take(0) =~= Seq::empty());
    while i < names.len()
        invariant
            s == plainly(all_fsms@, struct_map@),
            s.fsms.dom().finite(),
            before == old(discovered)@,
            all_fit(fsm_views(all_fsms@)),
            i <= names@.len(),
            discovered@ == collected(s, names@.take(i as int), before),
            old(discovered).wf() ==> discovered.wf(),
        decreases names@.len() - i,
    {
        let name: &String = names.get(i);
        let ghost now = discovered@;
        let ghost one = seq![name@];
        proof {
            assert(names@.take(i + 1) =~= names@.take(i as int) + one);
            lemma_collected_chain(s, names@.take(i as int), one, before);
            lemma_collected_grows(s, names@.take(i as int), before);
            assert(one.skip(1) =~= Seq::empty());
            assert(collected(s, one.skip(1), now) == now);
        }
        match all_fsms.get(name.as_str()) {
            Some(sub) => {
                assert(s.fsms.dom().contains(name@));
                assert(s.fsms[name@] == sub@);
                if !discovered.contains(name.as_str()) {
                    discovered.insert(name.clone());
                    proof {
                        lemma_unseen(s, now, name@);
                        lemma_fewer_unseen(s, before, now);
                        assert(fsm_machines(s, sub@) + Seq::<Seq<char>>::empty() =~= fsm_machines(
                            s,
                            sub@,
                        ));
                    }
                    collect_all_subfsms(sub, all_fsms, struct_map, discovered);
                }
            },
            None => {
                assert(!s.fsms.dom().contains(name@));
            },
        }
        i = i + 1;
    }
    assert(names@.take(i as int) =~= names@);
}

/// The more is seen, the less is unseen.
proof fn lemma_fewer_unseen(s: Surroundings, less: Seq<Seq<char>>, more: Seq<Seq<char>>)
    requires
        s.fsms.dom().finite(),
        forall|x: Seq<char>| #[trigger] less.contains(x) ==> more.contains(x),
    ensures
        unseen(s, more).len() <= unseen(s, less).len(),
{
    assert(unseen(s, more).subset_of(unseen(s, less)));
    lemma_len_subset(unseen(s, more), unseen(s, less));
}

} // verus!
