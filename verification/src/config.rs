//! The settings of the application.

use vstd::prelude::*;

verus! {

/// The name under which settings and data are kept.
pub const APP_NAME: &'static str = "writerm";

/// The name of the settings file.
pub const CONFIG_FILE_NAME: &'static str = "config.toml";

/// All settings.
#[derive(Debug, PartialEq, Eq, Structural)]
pub struct Config {
    pub ui: UiConfig,
    pub autosave: AutosaveConfig,
    pub workspace: WorkspaceConfig,
    pub layout: LayoutConfig,
}

/// Settings of the user interface.
#[derive(Debug, PartialEq, Eq, Structural)]
pub struct UiConfig {
    pub mouse: bool,
}

/// When a changed document is saved by itself.
#[derive(Debug, PartialEq, Eq, Structural)]
pub struct AutosaveConfig {
    pub enabled: bool,
    pub delay_ms: u64,
}

/// What the file browser shows.
#[derive(Debug, PartialEq, Eq, Structural)]
pub struct WorkspaceConfig {
    pub show_hidden: bool,
    pub markdown_first: bool,
}

/// The widths of the sidebars, and whether paragraphs are indented.
#[derive(Debug, PartialEq, Eq, Structural)]
pub struct LayoutConfig {
    pub headings_width: u16,
    pub files_width: u16,
    pub paragraph_indent: bool,
}

impl Default for UiConfig {
    fn default() -> (config: UiConfig)
        ensures
            config.mouse,
    {
        UiConfig { mouse: default_true() }
    }
}

impl Default for AutosaveConfig {
    fn default() -> (config: AutosaveConfig)
        ensures
            config.enabled,
            config.delay_ms == 1000,
    {
        AutosaveConfig { enabled: default_true(), delay_ms: default_autosave_delay() }
    }
}

impl Default for WorkspaceConfig {
    fn default() -> (config: WorkspaceConfig)
        ensures
            !config.show_hidden,
            config.markdown_first,
    {
        WorkspaceConfig { show_hidden: false, markdown_first: default_true() }
    }
}

impl Default for LayoutConfig {
    fn default() -> (config: LayoutConfig)
        ensures
            config.headings_width == 28,
            config.files_width == 34,
            config.paragraph_indent,
    {
        LayoutConfig {
            headings_width: default_headings_width(),
            files_width: default_files_width(),
            paragraph_indent: default_true(),
        }
    }
}

impl Default for Config {
    fn default() -> (config: Config)
        ensures
            config == (Config {
                ui: UiConfig { mouse: true },
                autosave: AutosaveConfig { enabled: true, delay_ms: 1000 },
                workspace: WorkspaceConfig { show_hidden: false, markdown_first: true },
                layout: LayoutConfig {
                    headings_width: 28,
                    files_width: 34,
                    paragraph_indent: true,
                },
            }),
    {
        Config {
            ui: UiConfig::default(),
            autosave: AutosaveConfig::default(),
            workspace: WorkspaceConfig::default(),
            layout: LayoutConfig::default(),
        }
    }
}

/// What a switch that is on by default is set to.
pub fn default_true() -> (value: bool)
    ensures
        value,
{
    true
}

/// The milliseconds without a change after which a document is saved.
pub fn default_autosave_delay() -> (delay: u64)
    ensures
        delay == 1000,
{
    1000
}

/// The inner width of the headings sidebar.
pub fn default_headings_width() -> (width: u16)
    ensures
        width == 28,
{
    28
}

/// The inner width of the files sidebar.
pub fn default_files_width() -> (width: u16)
    ensures
        width == 34,
{
    34
}

} // verus!
