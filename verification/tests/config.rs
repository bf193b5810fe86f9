use writerm::config::Config;

#[test]
fn defaults_match_writerm_plan() {
    let config = Config::default();

    assert!(config.ui.mouse);
    assert!(config.autosave.enabled);
    assert_eq!(config.autosave.delay_ms, 1000);
    assert!(!config.workspace.show_hidden);
    assert!(config.workspace.markdown_first);
    assert_eq!(config.layout.headings_width, 28);
    assert_eq!(config.layout.files_width, 34);
    assert!(config.layout.paragraph_indent);
}
