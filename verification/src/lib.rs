//! Mermaid state diagrams for finite state machines that are written with the
//! `state_machine!` macro.

pub mod text;
pub mod text_laws;
pub mod fence;
pub mod fence_laws;
pub mod labels;
pub mod config;
pub mod label_laws;
pub mod keeping_laws;
pub mod names;
pub mod syntax;
pub mod positions;
pub mod model;
pub mod transitions;
pub mod transition_laws;
pub mod extraction_laws;
pub mod reason_laws;
pub mod macro_body;
pub mod reading_laws;
pub mod subfsm;
pub mod subfsm_laws;
pub mod nesting;
pub mod nesting_laws;
pub mod diagram;
pub mod diagram_laws;
pub mod drawing_laws;
pub mod reach;
pub mod workspace;
pub mod workspace_laws;
pub mod output;
pub mod source;
pub mod tree_laws;
pub mod input;
pub mod visit;
pub mod visit_laws;
pub mod space_laws;
pub mod spelling_laws;
pub mod parsed;
pub mod definition_laws;
pub mod expand;
pub mod expand_source;
pub mod planning_laws;
