//! Editor mode state machine: Edit / Play / Pause.
//!
//! The decisions live here; the host performs the transitions its input
//! events call for and keeps its own clock.

use vstd::prelude::*;

verus! {

/// The current editor mode.
#[derive(Debug, Clone, Copy, PartialEq, Eq, Structural)]
pub enum EditorMode {
    /// Editing: panels visible, game stopped.
    Edit,
    /// Playing: game running.
    Play,
    /// Paused during play.
    Pause,
}

impl Default for EditorMode {
    /// The editor starts in Edit mode.
    fn default() -> (r: Self)
        ensures
            r == EditorMode::Edit,
    {
        EditorMode::Edit
    }
}

/// Settings controlling mode behavior.
#[derive(Debug, Clone, Copy, PartialEq, Eq, Structural)]
pub struct ModeController {
    /// Whether to hide editor panels when entering Play mode.
    pub hide_panels_on_play: bool,
}

impl Default for ModeController {
    /// Panels stay visible during play by default.
    fn default() -> (r: Self)
        ensures
            r == (ModeController { hide_panels_on_play: false }),
    {
        ModeController { hide_panels_on_play: false }
    }
}

/// Where the play/stop toggle goes from each mode.
pub open spec fn spec_play_stop_target(current: EditorMode) -> EditorMode {
    match current {
        EditorMode::Edit => EditorMode::Play,
        EditorMode::Play => EditorMode::Edit,
        EditorMode::Pause => EditorMode::Edit,
    }
}

/// Where the pause/resume toggle goes from each mode; it does nothing in
/// Edit mode.
pub open spec fn spec_pause_resume_target(current: EditorMode) -> Option<EditorMode> {
    match current {
        EditorMode::Play => Some(EditorMode::Pause),
        EditorMode::Pause => Some(EditorMode::Play),
        EditorMode::Edit => None,
    }
}

/// The mode the editor switches to this frame, given which toggles fired.
/// When both fire at once the pause/resume decision wins where it applies,
/// as the later of the two writes.
pub open spec fn spec_mode_transition(current: EditorMode, play_stop: bool, pause_resume: bool) -> Option<EditorMode> {
    if pause_resume && spec_pause_resume_target(current) is Some {
        spec_pause_resume_target(current)
    } else if play_stop {
        Some(spec_play_stop_target(current))
    } else {
        None
    }
}

/// Decides this frame's mode switch from the current mode and the two
/// toggle inputs; `None` keeps the current mode.
pub fn mode_transition(current: EditorMode, play_stop: bool, pause_resume: bool) -> (r: Option<EditorMode>)
    ensures
        r == spec_mode_transition(current, play_stop, pause_resume),
{
    let mut next: Option<EditorMode> = None;
    if play_stop {
        next = Some(match current {
            EditorMode::Edit => EditorMode::Play,
            EditorMode::Play => EditorMode::Edit,
            EditorMode::Pause => EditorMode::Edit,
        });
    }
    if pause_resume {
        match current {
            EditorMode::Play => {
                next = Some(EditorMode::Pause);
            },
            EditorMode::Pause => {
                next = Some(EditorMode::Play);
            },
            EditorMode::Edit => {},
        }
    }
    next
}

/// Whether entering Play is a fresh start, not a resume: the session clock
/// resets exactly when play is entered from Edit.
pub fn on_fresh_play(previous_mode: EditorMode) -> (r: bool)
    ensures
        r == (previous_mode == EditorMode::Edit),
{
    match previous_mode {
        EditorMode::Edit => true,
        _ => false,
    }
}

} // verus!
