//! Configurable keybindings for editor actions.
//!
//! A binding is a primary key plus exact modifier requirements; a slot holds
//! alternative bindings for one action. The host samples its input source
//! once per frame into an [`InputState`] of plain values and asks the
//! bindings which actions fired.

use vstd::prelude::*;
use vstd::string::*;

verus! {

/// A keyboard key, by location. Keys the editor cannot label map to `Other`.
#[derive(Debug, Clone, Copy, PartialEq, Eq, Structural)]
pub enum Key {
    KeyA, KeyB, KeyC, KeyD, KeyE, KeyF, KeyG, KeyH, KeyI, KeyJ, KeyK, KeyL, KeyM,
    KeyN, KeyO, KeyP, KeyQ, KeyR, KeyS, KeyT, KeyU, KeyV, KeyW, KeyX, KeyY, KeyZ,
    Digit0, Digit1, Digit2, Digit3, Digit4, Digit5, Digit6, Digit7, Digit8, Digit9,
    F1, F2, F3, F4, F5, F6, F7, F8, F9, F10, F11, F12,
    Space, Enter, Escape, Backspace, Tab, Delete, Home, End,
    ArrowUp, ArrowDown, ArrowLeft, ArrowRight,
    Other,
}

/// Display label of a key.
pub open spec fn spec_key_label(k: Key) -> Seq<char> {
    match k {
        Key::KeyA => "A"@, Key::KeyB => "B"@, Key::KeyC => "C"@, Key::KeyD => "D"@,
        Key::KeyE => "E"@, Key::KeyF => "F"@, Key::KeyG => "G"@, Key::KeyH => "H"@,
        Key::KeyI => "I"@, Key::KeyJ => "J"@, Key::KeyK => "K"@, Key::KeyL => "L"@,
        Key::KeyM => "M"@, Key::KeyN => "N"@, Key::KeyO => "O"@, Key::KeyP => "P"@,
        Key::KeyQ => "Q"@, Key::KeyR => "R"@, Key::KeyS => "S"@, Key::KeyT => "T"@,
        Key::KeyU => "U"@, Key::KeyV => "V"@, Key::KeyW => "W"@, Key::KeyX => "X"@,
        Key::KeyY => "Y"@, Key::KeyZ => "Z"@,
        Key::Digit0 => "0"@, Key::Digit1 => "1"@, Key::Digit2 => "2"@, Key::Digit3 => "3"@,
        Key::Digit4 => "4"@, Key::Digit5 => "5"@, Key::Digit6 => "6"@, Key::Digit7 => "7"@,
        Key::Digit8 => "8"@, Key::Digit9 => "9"@,
        Key::F1 => "F1"@, Key::F2 => "F2"@, Key::F3 => "F3"@, Key::F4 => "F4"@,
        Key::F5 => "F5"@, Key::F6 => "F6"@, Key::F7 => "F7"@, Key::F8 => "F8"@,
        Key::F9 => "F9"@, Key::F10 => "F10"@, Key::F11 => "F11"@, Key::F12 => "F12"@,
        Key::Space => "Space"@, Key::Enter => "Enter"@, Key::Escape => "Esc"@,
        Key::Backspace => "Backspace"@, Key::Tab => "Tab"@, Key::Delete => "Del"@,
        Key::Home => "Home"@, Key::End => "End"@,
        Key::ArrowUp => "Up"@, Key::ArrowDown => "Down"@,
        Key::ArrowLeft => "Left"@, Key::ArrowRight => "Right"@,
        Key::Other => "?"@,
    }
}

/// Display label of a key.
pub fn key_label(k: Key) -> (r: &'static str)
    ensures
        r@ == spec_key_label(k),
{
    match k {
        Key::KeyA => "A", Key::KeyB => "B", Key::KeyC => "C", Key::KeyD => "D",
        Key::KeyE => "E", Key::KeyF => "F", Key::KeyG => "G", Key::KeyH => "H",
        Key::KeyI => "I", Key::KeyJ => "J", Key::KeyK => "K", Key::KeyL => "L",
        Key::KeyM => "M", Key::KeyN => "N", Key::KeyO => "O", Key::KeyP => "P",
        Key::KeyQ => "Q", Key::KeyR => "R", Key::KeyS => "S", Key::KeyT => "T",
        Key::KeyU => "U", Key::KeyV => "V", Key::KeyW => "W", Key::KeyX => "X",
        Key::KeyY => "Y", Key::KeyZ => "Z",
        Key::Digit0 => "0", Key::Digit1 => "1", Key::Digit2 => "2", Key::Digit3 => "3",
        Key::Digit4 => "4", Key::Digit5 => "5", Key::Digit6 => "6", Key::Digit7 => "7",
        Key::Digit8 => "8", Key::Digit9 => "9",
        Key::F1 => "F1", Key::F2 => "F2", Key::F3 => "F3", Key::F4 => "F4",
        Key::F5 => "F5", Key::F6 => "F6", Key::F7 => "F7", Key::F8 => "F8",
        Key::F9 => "F9", Key::F10 => "F10", Key::F11 => "F11", Key::F12 => "F12",
        Key::Space => "Space", Key::Enter => "Enter", Key::Escape => "Esc",
        Key::Backspace => "Backspace", Key::Tab => "Tab", Key::Delete => "Del",
        Key::Home => "Home", Key::End => "End",
        Key::ArrowUp => "Up", Key::ArrowDown => "Down",
        Key::ArrowLeft => "Left", Key::ArrowRight => "Right",
        Key::Other => "?",
    }
}

/// One frame of keyboard input, as plain values: the keys that went down
/// this frame and the state of each modifier.
#[derive(Debug)]
pub struct InputState {
    /// Keys newly pressed this frame.
    pub just_pressed: Vec<Key>,
    /// A control key is held.
    pub ctrl: bool,
    /// A shift key is held.
    pub shift: bool,
    /// An alt key is held.
    pub alt: bool,
}

/// A single key binding: a primary key plus required modifiers. Modifiers
/// must match exactly: a binding without shift does not fire while shift is
/// held.
#[derive(Debug, Clone, Copy, PartialEq, Eq, Structural)]
pub struct KeyBind {
    pub key: Key,
    pub ctrl: bool,
    pub shift: bool,
    pub alt: bool,
}

/// The binding fires on this frame's input.
pub open spec fn spec_bind_pressed(b: KeyBind, keys: Seq<Key>, ctrl: bool, shift: bool, alt: bool) -> bool {
    keys.contains(b.key) && ctrl == b.ctrl && shift == b.shift && alt == b.alt
}

impl KeyBind {
    /// Simple key without modifiers.
    pub fn key(key: Key) -> (r: Self)
        ensures
            r == (KeyBind { key, ctrl: false, shift: false, alt: false }),
    {
        KeyBind { key, ctrl: false, shift: false, alt: false }
    }

    /// Ctrl + key.
    pub fn ctrl(key: Key) -> (r: Self)
        ensures
            r == (KeyBind { key, ctrl: true, shift: false, alt: false }),
    {
        KeyBind { key, ctrl: true, shift: false, alt: false }
    }

    /// Ctrl + Shift + key.
    pub fn ctrl_shift(key: Key) -> (r: Self)
        ensures
            r == (KeyBind { key, ctrl: true, shift: true, alt: false }),
    {
        KeyBind { key, ctrl: true, shift: true, alt: false }
    }

    /// Whether this binding was just pressed: its key went down this frame
    /// and every modifier state matches the requirement exactly.
    pub fn just_pressed(&self, input: &InputState) -> (r: bool)
        ensures
            r == spec_bind_pressed(*self, input.just_pressed@, input.ctrl, input.shift, input.alt),
    {
        if input.ctrl != self.ctrl || input.shift != self.shift || input.alt != self.alt {
            return false;
        }
        let n = input.just_pressed.len();
        let mut i: usize = 0;
        while i < n
            invariant
                n == input.just_pressed@.len(),
                i <= n,
                input.ctrl == self.ctrl,
                input.shift == self.shift,
                input.alt == self.alt,
                forall|k: int| 0 <= k < i ==> input.just_pressed@[k] != self.key,
            decreases n - i,
        {
            if input.just_pressed[i] == self.key {
                proof {
                    assert(input.just_pressed@[i as int] == self.key);
                    assert(input.just_pressed@.contains(self.key));
                }
                return true;
            }
            i = i + 1;
        }
        false
    }

    /// Human-readable label, the held modifiers and the key joined by `+`.
    pub open spec fn spec_label(self) -> Seq<char> {
        (if self.ctrl { "Ctrl+"@ } else { Seq::<char>::empty() })
            + (if self.shift { "Shift+"@ } else { Seq::<char>::empty() })
            + (if self.alt { "Alt+"@ } else { Seq::<char>::empty() })
            + spec_key_label(self.key)
    }

    /// Human-readable label for UI display.
    pub fn label(&self) -> (r: String)
        ensures
            r@ == self.spec_label(),
    {
        let mut s = String::new();
        if self.ctrl {
            s.append("Ctrl+");
        }
        if self.shift {
            s.append("Shift+");
        }
        if self.alt {
            s.append("Alt+");
        }
        s.append(key_label(self.key));
        proof {
            assert(s@ =~= self.spec_label());
        }
        s
    }
}

/// A keybinding slot holding alternative bindings for one action.
#[derive(Debug)]
pub struct KeyBindSlot {
    pub bindings: Vec<KeyBind>,
}

/// Some binding of the slot fires on this frame's input.
pub open spec fn spec_slot_pressed(bs: Seq<KeyBind>, keys: Seq<Key>, ctrl: bool, shift: bool, alt: bool) -> bool {
    exists|i: int| 0 <= i < bs.len() && spec_bind_pressed(#[trigger] bs[i], keys, ctrl, shift, alt)
}

/// The labels of all alternatives, joined by " / ".
pub open spec fn spec_slot_label(bs: Seq<KeyBind>) -> Seq<char>
    decreases bs.len(),
{
    if bs.len() == 0 {
        Seq::empty()
    } else if bs.len() == 1 {
        bs[0].spec_label()
    } else {
        spec_slot_label(bs.drop_last()) + " / "@ + bs.last().spec_label()
    }
}

impl KeyBindSlot {
    /// A slot with one binding.
    pub fn single(bind: KeyBind) -> (r: Self)
        ensures
            r.bindings@ == seq![bind],
    {
        let mut bindings: Vec<KeyBind> = Vec::new();
        bindings.push(bind);
        proof {
            assert(bindings@ =~= seq![bind]);
        }
        KeyBindSlot { bindings }
    }

    /// A slot with the given alternatives.
    pub fn from(binds: Vec<KeyBind>) -> (r: Self)
        ensures
            r.bindings@ == binds@,
    {
        KeyBindSlot { bindings: binds }
    }

    /// Whether any binding in this slot was just pressed.
    pub fn just_pressed(&self, input: &InputState) -> (r: bool)
        ensures
            r == spec_slot_pressed(self.bindings@, input.just_pressed@, input.ctrl, input.shift, input.alt),
    {
        let n = self.bindings.len();
        let mut i: usize = 0;
        while i < n
            invariant
                n == self.bindings@.len(),
                i <= n,
                forall|k: int| 0 <= k < i ==> !spec_bind_pressed(#[trigger] self.bindings@[k],
                    input.just_pressed@, input.ctrl, input.shift, input.alt),
            decreases n - i,
        {
            if self.bindings[i].just_pressed(input) {
                return true;
            }
            i = i + 1;
        }
        false
    }

    /// Human-readable label showing all alternatives.
    pub fn label(&self) -> (r: String)
        ensures
            r@ == spec_slot_label(self.bindings@),
    {
        let n = self.bindings.len();
        let mut s = String::new();
        let mut i: usize = 0;
        while i < n
            invariant
                n == self.bindings@.len(),
                i <= n,
                s@ == spec_slot_label(self.bindings@.subrange(0, i as int)),
            decreases n - i,
        {
            if i > 0 {
                s.append(" / ");
            }
            let part = self.bindings[i].label();
            s.append(part.as_str());
            proof {
                let q = self.bindings@.subrange(0, i + 1);
                assert(q.drop_last() =~= self.bindings@.subrange(0, i as int));
                assert(q.last() == self.bindings@[i as int]);
                if i == 0 {
                    assert(s@ =~= spec_slot_label(q));
                } else {
                    assert(s@ =~= spec_slot_label(q));
                }
            }
            i = i + 1;
        }
        proof {
            assert(self.bindings@.subrange(0, n as int) =~= self.bindings@);
        }
        s
    }
}

/// All configurable keybindings for the editor.
#[derive(Debug)]
pub struct KeyBindings {
    /// Undo (default: Ctrl+Z).
    pub undo: KeyBindSlot,
    /// Redo (default: Ctrl+Shift+Z).
    pub redo: KeyBindSlot,
    /// Play/Stop toggle (default: F5, Ctrl+P).
    pub play_stop: KeyBindSlot,
    /// Pause/Resume (default: F6, Ctrl+Shift+P).
    pub pause_resume: KeyBindSlot,
}

impl Default for KeyBindings {
    /// The stock bindings: Ctrl+Z undoes, Ctrl+Shift+Z redoes, F5 or Ctrl+P
    /// toggles play, F6 or Ctrl+Shift+P pauses.
    fn default() -> (r: Self)
        ensures
            r.undo.bindings@ == seq![KeyBind { key: Key::KeyZ, ctrl: true, shift: false, alt: false }],
            r.redo.bindings@ == seq![KeyBind { key: Key::KeyZ, ctrl: true, shift: true, alt: false }],
            r.play_stop.bindings@ == seq![
                KeyBind { key: Key::F5, ctrl: false, shift: false, alt: false },
                KeyBind { key: Key::KeyP, ctrl: true, shift: false, alt: false },
            ],
            r.pause_resume.bindings@ == seq![
                KeyBind { key: Key::F6, ctrl: false, shift: false, alt: false },
                KeyBind { key: Key::KeyP, ctrl: true, shift: true, alt: false },
            ],
    {
        let mut play: Vec<KeyBind> = Vec::new();
        play.push(KeyBind::key(Key::F5));
        play.push(KeyBind::ctrl(Key::KeyP));
        let mut pause: Vec<KeyBind> = Vec::new();
        pause.push(KeyBind::key(Key::F6));
        pause.push(KeyBind::ctrl_shift(Key::KeyP));
        let r = KeyBindings {
            undo: KeyBindSlot::single(KeyBind::ctrl(Key::KeyZ)),
            redo: KeyBindSlot::single(KeyBind::ctrl_shift(Key::KeyZ)),
            play_stop: KeyBindSlot::from(play),
            pause_resume: KeyBindSlot::from(pause),
        };
        proof {
            assert(r.play_stop.bindings@ =~= seq![
                KeyBind { key: Key::F5, ctrl: false, shift: false, alt: false },
                KeyBind { key: Key::KeyP, ctrl: true, shift: false, alt: false },
            ]);
            assert(r.pause_resume.bindings@ =~= seq![
                KeyBind { key: Key::F6, ctrl: false, shift: false, alt: false },
                KeyBind { key: Key::KeyP, ctrl: true, shift: true, alt: false },
            ]);
        }
        r
    }
}

} // verus!
