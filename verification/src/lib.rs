//! Core of an embeddable editor shell: a dockable panel layout engine and a
//! generic undo/redo command stack.
//!
//! The layout engine keeps a tree of regions and tabs in an arena whose panel
//! identities survive serialization and re-registration. The command stack
//! records reversible edits and replays them for exact history navigation.
//! Rendering, input sources and file access are left to the host application.

pub mod console;
pub mod dock;
pub mod i18n;
pub mod keybind;
pub mod layout;
pub mod mode;
pub mod text;
pub mod undo;

use vstd::prelude::*;

verus! {

/// Main configuration for the workbench editor shell.
pub struct WorkbenchConfig {
    /// Requested layout mode for the host window.
    pub layout: crate::layout::LayoutMode,
    /// Whether the host shows the menu bar.
    pub show_menu_bar: bool,
    /// Whether the host shows the built-in console panel.
    pub show_console: bool,
    /// Whether the host shows the Play/Stop/Pause toolbar.
    pub show_toolbar: bool,
    /// Whether the built-in game-view pipeline is enabled.
    pub enable_game_view: bool,
}

impl Default for WorkbenchConfig {
    /// Every optional part of the shell is enabled by default.
    fn default() -> (r: Self)
        ensures
            r.layout == crate::layout::LayoutMode::Auto,
            r.show_menu_bar,
            r.show_console,
            r.show_toolbar,
            r.enable_game_view,
    {
        WorkbenchConfig {
            layout: crate::layout::LayoutMode::Auto,
            show_menu_bar: true,
            show_console: true,
            show_toolbar: true,
            enable_game_view: true,
        }
    }
}

} // verus!
