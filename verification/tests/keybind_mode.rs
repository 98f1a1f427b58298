//! Tests for keybindings, editor modes, responsive layout and locale
//! selection.

use workbench_core::i18n::Locale;
use workbench_core::keybind::{InputState, Key, KeyBind, KeyBindSlot, KeyBindings};
use workbench_core::layout::{ActiveLayout, LayoutMode, LayoutState};
use workbench_core::mode::{mode_transition, on_fresh_play, EditorMode};

fn input(keys: Vec<Key>, ctrl: bool, shift: bool, alt: bool) -> InputState {
    InputState { just_pressed: keys, ctrl, shift, alt }
}

#[test]
fn binding_requires_exact_modifiers() {
    let undo = KeyBind::ctrl(Key::KeyZ);
    assert!(undo.just_pressed(&input(vec![Key::KeyZ], true, false, false)));
    // The key alone, extra shift, or a different key do not fire it.
    assert!(!undo.just_pressed(&input(vec![Key::KeyZ], false, false, false)));
    assert!(!undo.just_pressed(&input(vec![Key::KeyZ], true, true, false)));
    assert!(!undo.just_pressed(&input(vec![Key::KeyY], true, false, false)));
}

#[test]
fn slot_fires_on_any_alternative() {
    let slot = KeyBindSlot::from(vec![KeyBind::key(Key::F5), KeyBind::ctrl(Key::KeyP)]);
    assert!(slot.just_pressed(&input(vec![Key::F5], false, false, false)));
    assert!(slot.just_pressed(&input(vec![Key::KeyP], true, false, false)));
    assert!(!slot.just_pressed(&input(vec![Key::KeyP], false, false, false)));
    assert!(!slot.just_pressed(&input(vec![Key::F6], false, false, false)));
}

#[test]
fn labels_join_modifiers_and_alternatives() {
    assert_eq!(KeyBind::ctrl(Key::KeyZ).label(), "Ctrl+Z");
    assert_eq!(KeyBind::ctrl_shift(Key::KeyZ).label(), "Ctrl+Shift+Z");
    assert_eq!(KeyBind::key(Key::F5).label(), "F5");
    let slot = KeyBindSlot::from(vec![KeyBind::key(Key::F5), KeyBind::ctrl(Key::KeyP)]);
    assert_eq!(slot.label(), "F5 / Ctrl+P");
    assert_eq!(KeyBindSlot::from(vec![]).label(), "");
}

#[test]
fn stock_bindings() {
    let b = KeyBindings::default();
    assert!(b.undo.just_pressed(&input(vec![Key::KeyZ], true, false, false)));
    assert!(b.redo.just_pressed(&input(vec![Key::KeyZ], true, true, false)));
    assert!(b.play_stop.just_pressed(&input(vec![Key::F5], false, false, false)));
    assert!(b.pause_resume.just_pressed(&input(vec![Key::KeyP], true, true, false)));
    assert!(!b.undo.just_pressed(&input(vec![Key::KeyZ], true, true, false)));
}

#[test]
fn mode_transitions() {
    // Play/Stop toggles between Edit and a running game.
    assert_eq!(mode_transition(EditorMode::Edit, true, false), Some(EditorMode::Play));
    assert_eq!(mode_transition(EditorMode::Play, true, false), Some(EditorMode::Edit));
    assert_eq!(mode_transition(EditorMode::Pause, true, false), Some(EditorMode::Edit));
    // Pause/Resume only applies while a game runs.
    assert_eq!(mode_transition(EditorMode::Play, false, true), Some(EditorMode::Pause));
    assert_eq!(mode_transition(EditorMode::Pause, false, true), Some(EditorMode::Play));
    assert_eq!(mode_transition(EditorMode::Edit, false, true), None);
    // Nothing pressed, nothing changes.
    assert_eq!(mode_transition(EditorMode::Play, false, false), None);
    // With both pressed at once, pause wins where it applies.
    assert_eq!(mode_transition(EditorMode::Play, true, true), Some(EditorMode::Pause));
    assert_eq!(mode_transition(EditorMode::Edit, true, true), Some(EditorMode::Play));
}

#[test]
fn clock_resets_only_on_fresh_play() {
    assert!(on_fresh_play(EditorMode::Edit));
    assert!(!on_fresh_play(EditorMode::Pause));
    assert!(!on_fresh_play(EditorMode::Play));
}

#[test]
fn layout_detection() {
    let mut auto = LayoutState::new(LayoutMode::Auto);
    assert_eq!(auto.active, ActiveLayout::Desktop);
    auto.update_for_window(600, 800);
    assert_eq!(auto.active, ActiveLayout::Portrait);
    auto.update_for_window(800, 600);
    assert_eq!(auto.active, ActiveLayout::Desktop);

    let mut forced = LayoutState::new(LayoutMode::Portrait);
    assert_eq!(forced.active, ActiveLayout::Portrait);
    forced.update_for_window(1920, 1080);
    assert_eq!(forced.active, ActiveLayout::Portrait);
}

#[test]
fn locale_selection_by_tag() {
    assert_eq!(Locale::locale_for_tag("zh-CN"), Locale::ZhCn);
    assert_eq!(Locale::locale_for_tag("ZH-TW"), Locale::ZhCn);
    assert_eq!(Locale::locale_for_tag("Zh"), Locale::ZhCn);
    assert_eq!(Locale::locale_for_tag("en-US"), Locale::En);
    assert_eq!(Locale::locale_for_tag("z"), Locale::En);
    assert_eq!(Locale::locale_for_tag(""), Locale::En);
    assert_eq!(Locale::locale_for_tag("fr"), Locale::En);
}

#[test]
fn locale_tags_and_labels() {
    assert_eq!(Locale::En.lang_tag(), "en");
    assert_eq!(Locale::ZhCn.lang_tag(), "zh-CN");
    assert_eq!(Locale::En.label(), "English");
}

#[test]
fn from_system_returns_a_supported_locale() {
    let l = Locale::from_system();
    assert!(l == Locale::En || l == Locale::ZhCn);
}
