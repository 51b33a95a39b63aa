//! State machines as they are written down, and the transitions found in them.
use vstd::prelude::*;

use crate::labels::label_view;
use crate::fence::{is_parsable, parsable};

verus! {

/// A state machine.
#[derive(Debug)]
pub struct FsmDefinition {
    pub name: String,
    pub context_type: Option<String>,
    pub states: Vec<StateDefinition>,
}

/// A state of a machine: its fields as pairs of a name and a type, and the source text
/// of what it does on entry, on an event, and on exit.
#[derive(Debug)]
pub struct StateDefinition {
    pub name: String,
    pub fields: Vec<(String, String)>,
    pub entry_block: Option<String>,
    pub process_block: String,
    pub exit_block: Option<String>,
}

/// A transition from one state to another.
#[derive(Debug)]
pub struct TransitionInfo {
    pub source: String,
    pub target: String,
    pub label: String,
}

/// What an [`FsmDefinition`] says.
#[verifier::ext_equal]
pub struct FsmView {
    pub name: Seq<char>,
    pub context_type: Option<Seq<char>>,
    pub states: Seq<StateView>,
}

/// What a [`StateDefinition`] says.
#[verifier::ext_equal]
pub struct StateView {
    pub name: Seq<char>,
    pub fields: Seq<(Seq<char>, Seq<char>)>,
    pub entry_block: Option<Seq<char>>,
    pub process_block: Seq<char>,
    pub exit_block: Option<Seq<char>>,
}

/// What a [`TransitionInfo`] says.
#[verifier::ext_equal]
pub struct TransitionView {
    pub source: Seq<char>,
    pub target: Seq<char>,
    pub label: Seq<char>,
}

/// What the fields of a state say.
pub open spec fn field_views(fields: Seq<(String, String)>) -> Seq<(Seq<char>, Seq<char>)> {
    fields.map_values(|f: (String, String)| (f.0@, f.1@))
}

/// What several states say.
pub open spec fn state_views(states: Seq<StateDefinition>) -> Seq<StateView> {
    states.map_values(|s: StateDefinition| s@)
}

/// What several transitions say.
pub open spec fn transition_views(ts: Seq<TransitionInfo>) -> Seq<TransitionView> {
    ts.map_values(|t: TransitionInfo| t@)
}

impl View for StateDefinition {
    type V = StateView;

    open spec fn view(&self) -> StateView {
        StateView {
            name: self.name@,
            fields: field_views(self.fields@),
            entry_block: label_view(self.entry_block),
            process_block: self.process_block@,
            exit_block: label_view(self.exit_block),
        }
    }
}

impl View for FsmDefinition {
    type V = FsmView;

    open spec fn view(&self) -> FsmView {
        FsmView {
            name: self.name@,
            context_type: label_view(self.context_type),
            states: state_views(self.states@),
        }
    }
}

impl View for TransitionInfo {
    type V = TransitionView;

    open spec fn view(&self) -> TransitionView {
        TransitionView { source: self.source@, target: self.target@, label: self.label@ }
    }
}

/// The parser of source text takes an optional text.
pub open spec fn block_fits(block: Option<Seq<char>>) -> bool {
    match block {
        Some(b) => parsable(b),
        None => true,
    }
}

/// The parser of source text takes every text of the state.
pub open spec fn state_fits(s: StateView) -> bool {
    &&& block_fits(s.entry_block)
    &&& parsable(s.process_block)
    &&& block_fits(s.exit_block)
    &&& forall|i: int| 0 <= i < s.fields.len() ==> parsable((#[trigger] s.fields[i]).1)
}

/// The parser of source text takes every text of the machine.
pub open spec fn fsm_fits(m: FsmView) -> bool {
    forall|i: int| 0 <= i < m.states.len() ==> state_fits(#[trigger] m.states[i])
}

impl StateDefinition {
    /// Whether the parser of source text takes every text of the state.
    pub fn is_parsable(&self) -> (r: bool)
        ensures
            r == state_fits(self@),
    {
        let entry_fits: bool = match &self.entry_block {
            Some(b) => is_parsable(b.as_str()),
            None => true,
        };
        let exit_fits: bool = match &self.exit_block {
            Some(b) => is_parsable(b.as_str()),
            None => true,
        };
        if !entry_fits || !exit_fits || !is_parsable(self.process_block.as_str()) {
            return false;
        }
        let mut i: usize = 0;
        while i < self.fields.len()
            invariant
                i <= self.fields@.len(),
                forall|k: int| 0 <= k < i ==> parsable((#[trigger] self@.fields[k]).1),
            decreases self.fields@.len() - i,
        {
            if !is_parsable(self.fields[i].1.as_str()) {
                assert(!parsable(self@.fields[i as int].1));
                return false;
            }
            i = i + 1;
        }
        true
    }
}

impl FsmDefinition {
    /// Whether the parser of source text takes every text of the machine.
    pub fn is_parsable(&self) -> (r: bool)
        ensures
            r == fsm_fits(self@),
    {
        let mut i: usize = 0;
        while i < self.states.len()
            invariant
                i <= self.states@.len(),
                forall|k: int| 0 <= k < i ==> state_fits(#[trigger] self@.states[k]),
            decreases self.states@.len() - i,
        {
            if !self.states[i].is_parsable() {
                assert(!state_fits(self@.states[i as int]));
                return false;
            }
            i = i + 1;
        }
        true
    }
}

} // verus!
