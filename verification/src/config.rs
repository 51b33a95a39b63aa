//! What the command line tool is told: the settings of a configuration file, and
//! the options that override them.
use vstd::prelude::*;

use crate::labels::label_view;

verus! {

/// Which diagram is drawn of a root state machine.
#[derive(Debug, Clone, Copy, PartialEq, Eq, Structural)]
pub enum DiagramMode {
    /// One level.
    Simple,
    /// States hold the diagrams of the machines that they run.
    Hierarchical,
}

/// Which diagrams are drawn of the machines below a root.
#[derive(Debug, Clone, Copy, PartialEq, Eq, Structural)]
pub enum BreakdownMode {
    Off,
    Flat,
    Nested,
    Both,
}

/// The settings that a configuration file can hold.
#[derive(Debug)]
pub struct MermaidConfig {
    pub scan_dir: String,
    pub output_dir: String,
    pub mode: DiagramMode,
    pub breakdown: BreakdownMode,
    pub include_guards: bool,
}

/// The directory that is scanned where none is named.
pub fn default_scan_dir() -> (r: String)
    ensures
        r@ == "src"@,
{
    "src".to_string()
}

/// The directory that diagrams are written to where none is named.
pub fn default_output_dir() -> (r: String)
    ensures
        r@ == "target/docs/diagrams"@,
{
    "target/docs/diagrams".to_string()
}

/// The mode where none is named.
pub fn default_mode() -> (r: DiagramMode)
    ensures
        r == DiagramMode::Hierarchical,
{
    DiagramMode::Hierarchical
}

/// The breakdown where none is named.
pub fn default_breakdown() -> (r: BreakdownMode)
    ensures
        r == BreakdownMode::Flat,
{
    BreakdownMode::Flat
}

impl Default for MermaidConfig {
    fn default() -> (r: Self)
        ensures
            r.scan_dir@ == "src"@,
            r.output_dir@ == "target/docs/diagrams"@,
            r.mode == DiagramMode::Hierarchical,
            r.breakdown == BreakdownMode::Flat,
            r.include_guards,
    {
        MermaidConfig {
            scan_dir: default_scan_dir(),
            output_dir: default_output_dir(),
            mode: default_mode(),
            breakdown: default_breakdown(),
            include_guards: true,
        }
    }
}

/// The options of the command line that stand in for settings.
#[derive(Debug)]
pub struct Overrides {
    pub scan: Option<String>,
    pub output: Option<String>,
    pub include_guards: Option<bool>,
}

/// `option`, or `setting` where the option was not given.
pub open spec fn chosen<T>(option: Option<T>, setting: T) -> T {
    match option {
        Some(v) => v,
        None => setting,
    }
}

/// The text `option`, or `setting` where the option was not given.
fn choose_text(option: Option<String>, setting: String) -> (r: String)
    ensures
        r@ == chosen(label_view(option), setting@),
{
    match option {
        Some(v) => v,
        None => setting,
    }
}

/// The path of the configuration file.
pub fn config_path(option: Option<String>) -> (r: String)
    ensures
        r@ == chosen(label_view(option), ".typed-fsm.toml"@),
{
    choose_text(option, ".typed-fsm.toml".to_string())
}

impl MermaidConfig {
    /// These settings, with the options of the command line in place of those that they
    /// stand in for.
    pub fn overridden(self, options: Overrides) -> (r: MermaidConfig)
        ensures
            r.scan_dir@ == chosen(label_view(options.scan), self.scan_dir@),
            r.output_dir@ == chosen(label_view(options.output), self.output_dir@),
            r.include_guards == chosen(options.include_guards, self.include_guards),
            r.mode == self.mode,
            r.breakdown == self.breakdown,
    {
        let include_guards: bool = match options.include_guards {
            Some(v) => v,
            None => self.include_guards,
        };
        MermaidConfig {
            scan_dir: choose_text(options.scan, self.scan_dir),
            output_dir: choose_text(options.output, self.output_dir),
            mode: self.mode,
            breakdown: self.breakdown,
            include_guards,
        }
    }
}

} // verus!
