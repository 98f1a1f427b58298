//! Responsive layout mode: desktop (landscape) and portrait detection.

use vstd::prelude::*;

verus! {

/// Layout mode configuration.
#[derive(Debug, Clone, Copy, PartialEq, Eq, Structural)]
pub enum LayoutMode {
    /// Auto-detect from the window's proportions.
    Auto,
    /// Force the desktop landscape layout.
    Desktop,
    /// Force the portrait layout.
    Portrait,
}

/// The currently active layout.
#[derive(Debug, Clone, Copy, PartialEq, Eq, Structural)]
pub enum ActiveLayout {
    Desktop,
    Portrait,
}

/// The layout a fresh state starts in: what a forced mode dictates, and
/// desktop until auto-detection has seen a window.
pub open spec fn spec_initial_active(mode: LayoutMode) -> ActiveLayout {
    match mode {
        LayoutMode::Desktop => ActiveLayout::Desktop,
        LayoutMode::Portrait => ActiveLayout::Portrait,
        LayoutMode::Auto => ActiveLayout::Desktop,
    }
}

/// The active layout after seeing a window of the given pixel size: a forced
/// mode keeps its layout; auto mode goes portrait exactly when the window is
/// taller than wide.
pub open spec fn spec_detect_active(mode: LayoutMode, width: u32, height: u32, current: ActiveLayout) -> ActiveLayout {
    match mode {
        LayoutMode::Auto => if width < height {
            ActiveLayout::Portrait
        } else {
            ActiveLayout::Desktop
        },
        _ => current,
    }
}

/// The current layout state.
#[derive(Debug, Clone, Copy, PartialEq, Eq, Structural)]
pub struct LayoutState {
    pub mode: LayoutMode,
    pub active: ActiveLayout,
}

impl LayoutState {
    /// A state for the given mode, initially active per the mode.
    pub fn new(mode: LayoutMode) -> (s: Self)
        ensures
            s.mode == mode,
            s.active == spec_initial_active(mode),
    {
        LayoutState {
            mode,
            active: match mode {
                LayoutMode::Desktop => ActiveLayout::Desktop,
                LayoutMode::Portrait => ActiveLayout::Portrait,
                LayoutMode::Auto => ActiveLayout::Desktop,
            },
        }
    }

    /// Re-detects the active layout from the window's pixel size.
    pub fn update_for_window(&mut self, width: u32, height: u32)
        ensures
            final(self).mode == old(self).mode,
            final(self).active == spec_detect_active(old(self).mode, width, height, old(self).active),
    {
        match self.mode {
            LayoutMode::Auto => {
                self.active = if width < height {
                    ActiveLayout::Portrait
                } else {
                    ActiveLayout::Desktop
                };
            },
            _ => {},
        }
    }
}

} // verus!
