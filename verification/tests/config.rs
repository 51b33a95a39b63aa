use typed_fsm_diagram::config::{
    config_path, default_breakdown, default_mode, default_output_dir, default_scan_dir,
    BreakdownMode, DiagramMode, MermaidConfig, Overrides,
};

#[test]
fn defaults() {
    assert_eq!(default_scan_dir(), "src");
    assert_eq!(default_output_dir(), "target/docs/diagrams");
    assert_eq!(default_mode(), DiagramMode::Hierarchical);
    assert_eq!(default_breakdown(), BreakdownMode::Flat);
    let c = MermaidConfig::default();
    assert_eq!(c.scan_dir, "src");
    assert_eq!(c.output_dir, "target/docs/diagrams");
    assert_eq!(c.mode, DiagramMode::Hierarchical);
    assert_eq!(c.breakdown, BreakdownMode::Flat);
    assert!(c.include_guards);
}

#[test]
fn options_override_settings() {
    let options = Overrides {
        scan: Some("examples/".to_string()),
        output: Some("some_other_folder/".to_string()),
        include_guards: Some(false),
    };
    let c = MermaidConfig::default().overridden(options);
    assert_eq!(c.scan_dir, "examples/");
    assert_eq!(c.output_dir, "some_other_folder/");
    assert!(!c.include_guards);
    assert_eq!(c.mode, DiagramMode::Hierarchical);
}

#[test]
fn missing_options_leave_settings() {
    let options = Overrides { scan: None, output: None, include_guards: None };
    let c = MermaidConfig::default().overridden(options);
    assert_eq!(c.scan_dir, "src");
    assert_eq!(c.output_dir, "target/docs/diagrams");
    assert!(c.include_guards);
}

#[test]
fn the_configuration_file_has_a_default_path() {
    assert_eq!(config_path(None), ".typed-fsm.toml");
    assert_eq!(config_path(Some("x.toml".to_string())), "x.toml");
}
