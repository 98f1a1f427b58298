//! Undo/redo command stack.
//!
//! A reversible edit is an action exposing a forward and an inverse
//! operation plus a description. The stack keeps two ordered lists of
//! actions, bounded by `max_history`: the undo list (oldest to newest) and
//! the redo list (next-to-redo to furthest). The current position in history
//! is implicitly the undo count. Actions whose target no longer exists
//! degrade to silent no-ops at the mutation site.
//!
//! The action kinds here are a closed set, so every replay is verified;
//! edits that only a host-supplied closure pair could express have no
//! counterpart, since an opaque closure's effect cannot be specified.

use vstd::prelude::*;
use vstd::string::*;
use crate::dock::{DockView, LayoutSnapshot, NodeView, SnapView, TileLayoutState};

verus! {

/// One atomic reversible edit.
#[derive(Debug)]
pub enum BasicUndoAction {
    /// A component field change on an entity: the old and the new value are
    /// stored and written back wholesale. A missing entity makes both
    /// directions silent no-ops.
    Component { entity: usize, old_value: u64, new_value: u64, desc: String },
    /// A resource change: applying either direction (re)inserts the stored
    /// value into the resource slot.
    Resource { slot: usize, old_value: u64, new_value: u64, desc: String },
    /// A structural layout edit, held as whole-tree snapshots from before and
    /// after; applying a direction swaps the matching snapshot in.
    LayoutSnap { before: LayoutSnapshot, after: LayoutSnapshot, desc: String },
}

/// A reversible edit as the stack stores it: a single atomic edit, or a
/// group of them applied as one unit — redone in forward order and undone in
/// reverse order.
#[derive(Debug)]
pub enum UndoAction {
    Basic { action: BasicUndoAction },
    Group { actions: Vec<BasicUndoAction>, desc: String },
}

/// Mathematical model of a [`BasicUndoAction`].
#[verifier::ext_equal]
pub enum BasicView {
    Component { entity: usize, old_value: u64, new_value: u64, desc: Seq<char> },
    Resource { slot: usize, old_value: u64, new_value: u64, desc: Seq<char> },
    LayoutSnap { before: SnapView, after: SnapView, desc: Seq<char> },
}

/// Mathematical model of an [`UndoAction`].
#[verifier::ext_equal]
pub enum ActionView {
    Basic { action: BasicView },
    Group { actions: Seq<BasicView>, desc: Seq<char> },
}

impl View for BasicUndoAction {
    type V = BasicView;

    open spec fn view(&self) -> BasicView {
        match self {
            BasicUndoAction::Component { entity, old_value, new_value, desc } =>
                BasicView::Component { entity: *entity, old_value: *old_value, new_value: *new_value, desc: desc@ },
            BasicUndoAction::Resource { slot, old_value, new_value, desc } =>
                BasicView::Resource { slot: *slot, old_value: *old_value, new_value: *new_value, desc: desc@ },
            BasicUndoAction::LayoutSnap { before, after, desc } =>
                BasicView::LayoutSnap { before: before@, after: after@, desc: desc@ },
        }
    }
}

pub open spec fn basics_view(s: Seq<BasicUndoAction>) -> Seq<BasicView> {
    Seq::new(s.len(), |i: int| s[i]@)
}

impl View for UndoAction {
    type V = ActionView;

    open spec fn view(&self) -> ActionView {
        match self {
            UndoAction::Basic { action } => ActionView::Basic { action: action@ },
            UndoAction::Group { actions, desc } =>
                ActionView::Group { actions: basics_view(actions@), desc: desc@ },
        }
    }
}

pub open spec fn actions_view(s: Seq<UndoAction>) -> Seq<ActionView> {
    Seq::new(s.len(), |i: int| s[i]@)
}

/// The description of an action, as shown in history lists.
pub open spec fn spec_description(a: ActionView) -> Seq<char> {
    match a {
        ActionView::Basic { action } => spec_basic_description(action),
        ActionView::Group { desc, .. } => desc,
    }
}

pub open spec fn spec_basic_description(a: BasicView) -> Seq<char> {
    match a {
        BasicView::Component { desc, .. } => desc,
        BasicView::Resource { desc, .. } => desc,
        BasicView::LayoutSnap { desc, .. } => desc,
    }
}

/// The host state the stack's actions mutate: entity component cells,
/// resource slots, and the layout manager. It stands in for whatever world
/// the embedding application keeps; the stack never inspects it beyond the
/// targets of its actions.
pub struct EditorWorld {
    /// One opaque component value per entity; `None` marks a despawned or
    /// never-spawned entity.
    pub components: Vec<Option<u64>>,
    /// One opaque value per resource slot; `None` marks an absent resource.
    pub resources: Vec<Option<u64>>,
    /// The layout manager, target of structural layout actions.
    pub layout: TileLayoutState,
}

/// Mathematical model of an [`EditorWorld`].
#[verifier::ext_equal]
pub struct WorldView {
    pub components: Seq<Option<u64>>,
    pub resources: Seq<Option<u64>>,
    pub layout: DockView,
}

impl View for EditorWorld {
    type V = WorldView;

    open spec fn view(&self) -> WorldView {
        WorldView { components: self.components@, resources: self.resources@, layout: self.layout@ }
    }
}

/// The world after one atomic edit is applied in the undo direction.
pub open spec fn basic_undo(a: BasicView, w: WorldView) -> WorldView {
    match a {
        BasicView::Component { entity, old_value, .. } => {
            if entity < w.components.len() && w.components[entity as int] is Some {
                WorldView { components: w.components.update(entity as int, Some(old_value)), ..w }
            } else {
                w
            }
        },
        BasicView::Resource { slot, old_value, .. } => {
            if slot < w.resources.len() {
                WorldView { resources: w.resources.update(slot as int, Some(old_value)), ..w }
            } else {
                w
            }
        },
        BasicView::LayoutSnap { before, .. } => WorldView {
            layout: DockView {
                tiles: before.tiles,
                root: before.root,
                tile_of: before.tile_of,
                ..w.layout
            },
            ..w
        },
    }
}

/// The world after one atomic edit is applied in the redo direction.
pub open spec fn basic_redo(a: BasicView, w: WorldView) -> WorldView {
    match a {
        BasicView::Component { entity, new_value, .. } => {
            if entity < w.components.len() && w.components[entity as int] is Some {
                WorldView { components: w.components.update(entity as int, Some(new_value)), ..w }
            } else {
                w
            }
        },
        BasicView::Resource { slot, new_value, .. } => {
            if slot < w.resources.len() {
                WorldView { resources: w.resources.update(slot as int, Some(new_value)), ..w }
            } else {
                w
            }
        },
        BasicView::LayoutSnap { after, .. } => WorldView {
            layout: DockView {
                tiles: after.tiles,
                root: after.root,
                tile_of: after.tile_of,
                ..w.layout
            },
            ..w
        },
    }
}

/// A group undone: members applied in reverse order, each in the undo
/// direction.
pub open spec fn seq_undo(s: Seq<BasicView>, w: WorldView) -> WorldView
    decreases s.len(),
{
    if s.len() == 0 {
        w
    } else {
        seq_undo(s.drop_last(), basic_undo(s.last(), w))
    }
}

/// A group redone: members applied in forward order, each in the redo
/// direction.
pub open spec fn seq_redo(s: Seq<BasicView>, w: WorldView) -> WorldView
    decreases s.len(),
{
    if s.len() == 0 {
        w
    } else {
        seq_redo(s.drop_first(), basic_redo(s[0], w))
    }
}

/// An action applied in the undo direction.
pub open spec fn action_undo(a: ActionView, w: WorldView) -> WorldView {
    match a {
        ActionView::Basic { action } => basic_undo(action, w),
        ActionView::Group { actions, .. } => seq_undo(actions, w),
    }
}

/// An action applied in the redo direction.
pub open spec fn action_redo(a: ActionView, w: WorldView) -> WorldView {
    match a {
        ActionView::Basic { action } => basic_redo(action, w),
        ActionView::Group { actions, .. } => seq_redo(actions, w),
    }
}

/// The undo/redo stack: two bounded lists of reversible actions plus the
/// one-shot request flags the host reads and clears each frame.
pub struct UndoStack {
    undo_actions: Vec<UndoAction>,
    redo_actions: Vec<UndoAction>,
    /// Maximum number of undo history entries.
    pub max_history: usize,
    /// Set to request an undo on the next frame (for menu buttons).
    pub undo_requested: bool,
    /// Set to request a redo on the next frame (for menu buttons).
    pub redo_requested: bool,
    /// Set to request jumping to a specific history index.
    pub jump_requested: Option<usize>,
}

/// Mathematical model of an [`UndoStack`].
#[verifier::ext_equal]
pub struct StackView {
    /// Undoable actions, oldest first.
    pub undo: Seq<ActionView>,
    /// Redoable actions, furthest first: the last entry is next to redo.
    pub redo: Seq<ActionView>,
    pub max_history: usize,
    pub undo_requested: bool,
    pub redo_requested: bool,
    pub jump_requested: Option<usize>,
}

impl View for UndoStack {
    type V = StackView;

    closed spec fn view(&self) -> StackView {
        StackView {
            undo: actions_view(self.undo_actions@),
            redo: actions_view(self.redo_actions@),
            max_history: self.max_history,
            undo_requested: self.undo_requested,
            redo_requested: self.redo_requested,
            jump_requested: self.jump_requested,
        }
    }
}

/// The undo list after a push: the action is appended, and when the list
/// outgrows `max_history` the oldest entry is evicted from the front.
pub open spec fn spec_pushed_undo(undo: Seq<ActionView>, a: ActionView, max: usize) -> Seq<ActionView> {
    let grown = undo.push(a);
    if grown.len() > max {
        grown.drop_first()
    } else {
        grown
    }
}

/// One undo step: with an empty undo list nothing happens; otherwise the
/// newest action is popped, applied in the undo direction, and moved onto
/// the redo list.
pub open spec fn spec_undo_step(s: StackView, w: WorldView) -> (StackView, WorldView) {
    if s.undo.len() == 0 {
        (s, w)
    } else {
        let a = s.undo.last();
        (StackView { undo: s.undo.drop_last(), redo: s.redo.push(a), ..s }, action_undo(a, w))
    }
}

/// One redo step, symmetric to [`spec_undo_step`].
pub open spec fn spec_redo_step(s: StackView, w: WorldView) -> (StackView, WorldView) {
    if s.redo.len() == 0 {
        (s, w)
    } else {
        let a = s.redo.last();
        (StackView { undo: s.undo.push(a), redo: s.redo.drop_last(), ..s }, action_redo(a, w))
    }
}

/// `n` single undo steps in sequence.
pub open spec fn spec_undo_steps(s: StackView, w: WorldView, n: nat) -> (StackView, WorldView)
    decreases n,
{
    if n == 0 {
        (s, w)
    } else {
        let (s1, w1) = spec_undo_step(s, w);
        spec_undo_steps(s1, w1, (n - 1) as nat)
    }
}

/// `n` single redo steps in sequence.
pub open spec fn spec_redo_steps(s: StackView, w: WorldView, n: nat) -> (StackView, WorldView)
    decreases n,
{
    if n == 0 {
        (s, w)
    } else {
        let (s1, w1) = spec_redo_step(s, w);
        spec_redo_steps(s1, w1, (n - 1) as nat)
    }
}

/// Applies one atomic edit in the undo direction.
fn apply_basic_undo(a: &BasicUndoAction, world: &mut EditorWorld)
    ensures
        final(world)@ == basic_undo(a@, old(world)@),
{
    match a {
        BasicUndoAction::Component { entity, old_value, .. } => {
            let e = *entity;
            if e < world.components.len() && world.components[e].is_some() {
                world.components[e] = Some(*old_value);
                proof {
                    assert(world@ =~= basic_undo(a@, old(world)@));
                }
            }
        },
        BasicUndoAction::Resource { slot, old_value, .. } => {
            let s = *slot;
            if s < world.resources.len() {
                world.resources[s] = Some(*old_value);
                proof {
                    assert(world@ =~= basic_undo(a@, old(world)@));
                }
            }
        },
        BasicUndoAction::LayoutSnap { before, .. } => {
            world.layout.restore_snapshot(before.clone());
            proof {
                assert(world@ =~= basic_undo(a@, old(world)@));
            }
        },
    }
}

/// Applies one atomic edit in the redo direction.
fn apply_basic_redo(a: &BasicUndoAction, world: &mut EditorWorld)
    ensures
        final(world)@ == basic_redo(a@, old(world)@),
{
    match a {
        BasicUndoAction::Component { entity, new_value, .. } => {
            let e = *entity;
            if e < world.components.len() && world.components[e].is_some() {
                world.components[e] = Some(*new_value);
                proof {
                    assert(world@ =~= basic_redo(a@, old(world)@));
                }
            }
        },
        BasicUndoAction::Resource { slot, new_value, .. } => {
            let s = *slot;
            if s < world.resources.len() {
                world.resources[s] = Some(*new_value);
                proof {
                    assert(world@ =~= basic_redo(a@, old(world)@));
                }
            }
        },
        BasicUndoAction::LayoutSnap { after, .. } => {
            world.layout.restore_snapshot(after.clone());
            proof {
                assert(world@ =~= basic_redo(a@, old(world)@));
            }
        },
    }
}

/// Applies an action in the undo direction; a group is undone member by
/// member in reverse order.
fn apply_action_undo(a: &UndoAction, world: &mut EditorWorld)
    ensures
        final(world)@ == action_undo(a@, old(world)@),
{
    match a {
        UndoAction::Basic { action } => {
            apply_basic_undo(action, world);
        },
        UndoAction::Group { actions, .. } => {
            let ghost s = basics_view(actions@);
            let ghost w0 = world@;
            let mut i: usize = actions.len();
            proof {
                assert(s.subrange(0, actions@.len() as int) =~= s);
            }
            while i > 0
                invariant
                    i <= actions@.len(),
                    s == basics_view(actions@),
                    seq_undo(s, w0) == seq_undo(s.subrange(0, i as int), world@),
                decreases i,
            {
                i = i - 1;
                apply_basic_undo(&actions[i], world);
                proof {
                    let q = s.subrange(0, i + 1);
                    assert(q.drop_last() =~= s.subrange(0, i as int));
                    assert(q.last() == s[i as int]);
                }
            }
            proof {
                assert(s.subrange(0, 0) =~= Seq::<BasicView>::empty());
            }
        },
    }
}

/// Applies an action in the redo direction; a group is redone member by
/// member in forward order.
fn apply_action_redo(a: &UndoAction, world: &mut EditorWorld)
    ensures
        final(world)@ == action_redo(a@, old(world)@),
{
    match a {
        UndoAction::Basic { action } => {
            apply_basic_redo(action, world);
        },
        UndoAction::Group { actions, .. } => {
            let ghost s = basics_view(actions@);
            let ghost w0 = world@;
            let n = actions.len();
            let mut i: usize = 0;
            proof {
                assert(s.subrange(0, n as int) =~= s);
            }
            while i < n
                invariant
                    n == actions@.len(),
                    i <= n,
                    s == basics_view(actions@),
                    seq_redo(s, w0) == seq_redo(s.subrange(i as int, n as int), world@),
                decreases n - i,
            {
                apply_basic_redo(&actions[i], world);
                proof {
                    let q = s.subrange(i as int, n as int);
                    assert(q[0] == s[i as int]);
                    assert(q.drop_first() =~= s.subrange(i + 1, n as int));
                }
                i = i + 1;
            }
            proof {
                assert(s.subrange(n as int, n as int) =~= Seq::<BasicView>::empty());
            }
        },
    }
}

/// Where `jump_to(target)` lands: from depth `c = undo.len()`, exactly
/// `c - target` single undo steps when the target lies behind, exactly
/// `target - c` single redo steps when it lies ahead, and nothing at the
/// current position. Each step is a discrete, fully applied `spec_undo_step`
/// or `spec_redo_step`, never a batch.
pub open spec fn spec_jump(s: StackView, w: WorldView, target: usize) -> (StackView, WorldView) {
    let c = s.undo.len();
    if target < c {
        spec_undo_steps(s, w, (c - target) as nat)
    } else if target > c {
        spec_redo_steps(s, w, (target - c) as nat)
    } else {
        (s, w)
    }
}

proof fn lemma_undo_steps_snoc(s: StackView, w: WorldView, n: nat)
    ensures
        spec_undo_steps(s, w, (n + 1) as nat) == spec_undo_step(
            spec_undo_steps(s, w, n).0,
            spec_undo_steps(s, w, n).1,
        ),
    decreases n,
{
    let (s1, w1) = spec_undo_step(s, w);
    if n > 0 {
        lemma_undo_steps_snoc(s1, w1, (n - 1) as nat);
        assert(spec_undo_steps(s, w, (n + 1) as nat) == spec_undo_steps(s1, w1, n));
        assert(spec_undo_steps(s, w, n) == spec_undo_steps(s1, w1, (n - 1) as nat));
    } else {
        assert(spec_undo_steps(s, w, 1nat) == spec_undo_steps(s1, w1, 0nat));
        assert(spec_undo_steps(s, w, 0nat) == (s, w));
    }
}

proof fn lemma_redo_steps_snoc(s: StackView, w: WorldView, n: nat)
    ensures
        spec_redo_steps(s, w, (n + 1) as nat) == spec_redo_step(
            spec_redo_steps(s, w, n).0,
            spec_redo_steps(s, w, n).1,
        ),
    decreases n,
{
    let (s1, w1) = spec_redo_step(s, w);
    if n > 0 {
        lemma_redo_steps_snoc(s1, w1, (n - 1) as nat);
        assert(spec_redo_steps(s, w, (n + 1) as nat) == spec_redo_steps(s1, w1, n));
        assert(spec_redo_steps(s, w, n) == spec_redo_steps(s1, w1, (n - 1) as nat));
    } else {
        assert(spec_redo_steps(s, w, 1nat) == spec_redo_steps(s1, w1, 0nat));
        assert(spec_redo_steps(s, w, 0nat) == (s, w));
    }
}

impl BasicUndoAction {
    /// Human-readable description for history display.
    pub fn description(&self) -> (r: &String)
        ensures
            r@ == spec_basic_description(self@),
    {
        match self {
            BasicUndoAction::Component { desc, .. } => desc,
            BasicUndoAction::Resource { desc, .. } => desc,
            BasicUndoAction::LayoutSnap { desc, .. } => desc,
        }
    }
}

impl UndoAction {
    /// Human-readable description for history display.
    pub fn description(&self) -> (r: &String)
        ensures
            r@ == spec_description(self@),
    {
        match self {
            UndoAction::Basic { action } => action.description(),
            UndoAction::Group { desc, .. } => desc,
        }
    }

    /// Groups several atomic edits into one action: redone in forward order,
    /// undone in reverse order, one unit from the stack's point of view.
    pub fn group(desc: String, actions: Vec<BasicUndoAction>) -> (r: Self)
        ensures
            r@ == (ActionView::Group { actions: basics_view(actions@), desc: desc@ }),
    {
        UndoAction::Group { actions, desc }
    }

    /// An action that swaps whole layout snapshots from before and after a
    /// structural edit.
    pub fn layout_snapshot(desc: String, before: LayoutSnapshot, after: LayoutSnapshot) -> (r: Self)
        ensures
            r@ == (ActionView::Basic { action: BasicView::LayoutSnap {
                before: before@,
                after: after@,
                desc: desc@,
            } }),
    {
        UndoAction::Basic { action: BasicUndoAction::LayoutSnap { before, after, desc } }
    }
}

impl Default for UndoStack {
    /// An empty stack holding up to 100 entries, with no pending requests.
    fn default() -> (s: Self)
        ensures
            s@ == (StackView {
                undo: Seq::<ActionView>::empty(),
                redo: Seq::<ActionView>::empty(),
                max_history: 100,
                undo_requested: false,
                redo_requested: false,
                jump_requested: None,
            }),
    {
        let s = UndoStack {
            undo_actions: Vec::new(),
            redo_actions: Vec::new(),
            max_history: 100,
            undo_requested: false,
            redo_requested: false,
            jump_requested: None,
        };
        proof {
            assert(s@ =~= (StackView {
                undo: Seq::<ActionView>::empty(),
                redo: Seq::<ActionView>::empty(),
                max_history: 100,
                undo_requested: false,
                redo_requested: false,
                jump_requested: None,
            }));
        }
        s
    }
}

impl UndoStack {
    /// Pushes a reversible action: the redo list is cleared, the action is
    /// appended to the undo list, and when the list outgrows `max_history`
    /// the oldest entry is evicted.
    pub fn push(&mut self, action: UndoAction)
        ensures
            final(self)@ == (StackView {
                undo: spec_pushed_undo(old(self)@.undo, action@, old(self)@.max_history),
                redo: Seq::<ActionView>::empty(),
                ..old(self)@
            }),
            final(self)@.redo.len() == 0,
    {
        self.redo_actions.clear();
        self.undo_actions.push(action);
        let ghost grown = self.undo_actions@;
        if self.undo_actions.len() > self.max_history {
            self.undo_actions.remove(0);
            proof {
                assert(actions_view(self.undo_actions@) =~= actions_view(grown).drop_first()) by {
                    assert(self.undo_actions@ =~= grown.subrange(1, grown.len() as int));
                }
            }
        }
        proof {
            assert(actions_view(grown) =~= actions_view(old(self).undo_actions@).push(action@));
            assert(actions_view(Seq::<UndoAction>::empty()) =~= Seq::<ActionView>::empty());
            assert(final(self)@ =~= (StackView {
                undo: spec_pushed_undo(old(self)@.undo, action@, old(self)@.max_history),
                redo: Seq::<ActionView>::empty(),
                ..old(self)@
            }));
        }
    }

    /// Pushes a boxed reversible action, as [`Self::push`] does.
    pub fn push_boxed(&mut self, action: Box<UndoAction>)
        ensures
            final(self)@ == (StackView {
                undo: spec_pushed_undo(old(self)@.undo, action@, old(self)@.max_history),
                redo: Seq::<ActionView>::empty(),
                ..old(self)@
            }),
            final(self)@.redo.len() == 0,
    {
        self.push(*action);
    }

    /// Records a component change on an entity as an undoable action, with
    /// the edited entity named in the description.
    pub fn record_component(&mut self, entity: usize, old_value: u64, new_value: u64)
        ensures
            final(self)@ == (StackView {
                undo: spec_pushed_undo(old(self)@.undo, ActionView::Basic {
                    action: BasicView::Component {
                        entity,
                        old_value,
                        new_value,
                        desc: "Modify component on entity "@ + crate::text::spec_udec(entity as int),
                    },
                }, old(self)@.max_history),
                redo: Seq::<ActionView>::empty(),
                ..old(self)@
            }),
    {
        let mut desc = "Modify component on entity ".to_owned();
        let number = crate::text::usize_to_decimal(entity);
        desc.append(number.as_str());
        self.push(UndoAction::Basic { action: BasicUndoAction::Component { entity, old_value, new_value, desc } });
    }

    /// Records a resource change as an undoable action, with the edited slot
    /// named in the description.
    pub fn record_resource(&mut self, slot: usize, old_value: u64, new_value: u64)
        ensures
            final(self)@ == (StackView {
                undo: spec_pushed_undo(old(self)@.undo, ActionView::Basic {
                    action: BasicView::Resource {
                        slot,
                        old_value,
                        new_value,
                        desc: "Modify resource in slot "@ + crate::text::spec_udec(slot as int),
                    },
                }, old(self)@.max_history),
                redo: Seq::<ActionView>::empty(),
                ..old(self)@
            }),
    {
        let mut desc = "Modify resource in slot ".to_owned();
        let number = crate::text::usize_to_decimal(slot);
        desc.append(number.as_str());
        self.push(UndoAction::Basic { action: BasicUndoAction::Resource { slot, old_value, new_value, desc } });
    }

    /// Sets the history bound. The lists are not truncated here: the next
    /// push enforces the bound by evicting at the old end. Verified callers
    /// use this instead of writing the public field, whose effect on the
    /// stack's model stays opaque to them.
    pub fn set_max_history(&mut self, max: usize)
        ensures
            final(self)@ == (StackView { max_history: max, ..old(self)@ }),
    {
        self.max_history = max;
        proof {
            assert(final(self)@ =~= (StackView { max_history: max, ..old(self)@ }));
        }
    }

    /// Requests an undo for the next frame, as a menu button does.
    pub fn request_undo(&mut self)
        ensures
            final(self)@ == (StackView { undo_requested: true, ..old(self)@ }),
    {
        self.undo_requested = true;
        proof {
            assert(final(self)@ =~= (StackView { undo_requested: true, ..old(self)@ }));
        }
    }

    /// Requests a redo for the next frame, as a menu button does.
    pub fn request_redo(&mut self)
        ensures
            final(self)@ == (StackView { redo_requested: true, ..old(self)@ }),
    {
        self.redo_requested = true;
        proof {
            assert(final(self)@ =~= (StackView { redo_requested: true, ..old(self)@ }));
        }
    }

    /// Requests a jump to a history index, as the history list does.
    pub fn request_jump(&mut self, target_index: usize)
        ensures
            final(self)@ == (StackView { jump_requested: Some(target_index), ..old(self)@ }),
    {
        self.jump_requested = Some(target_index);
        proof {
            assert(final(self)@ =~= (StackView { jump_requested: Some(target_index), ..old(self)@ }));
        }
    }

    /// Undoes the last action: pops it, applies its inverse operation, and
    /// moves it onto the redo list. A no-op with an empty undo list.
    pub fn undo(&mut self, world: &mut EditorWorld)
        ensures
            (final(self)@, final(world)@) == spec_undo_step(old(self)@, old(world)@),
    {
        match self.undo_actions.pop() {
            Some(a) => {
                apply_action_undo(&a, world);
                self.redo_actions.push(a);
                proof {
                    assert(actions_view(old(self).undo_actions@).last() == a@);
                    assert(actions_view(self.undo_actions@)
                        =~= actions_view(old(self).undo_actions@).drop_last());
                    assert(actions_view(self.redo_actions@)
                        =~= actions_view(old(self).redo_actions@).push(a@));
                    assert(final(self)@ =~= spec_undo_step(old(self)@, old(world)@).0);
                }
            },
            None => {},
        }
    }

    /// Redoes the last undone action, symmetrically to [`Self::undo`].
    pub fn redo(&mut self, world: &mut EditorWorld)
        ensures
            (final(self)@, final(world)@) == spec_redo_step(old(self)@, old(world)@),
    {
        match self.redo_actions.pop() {
            Some(a) => {
                apply_action_redo(&a, world);
                self.undo_actions.push(a);
                proof {
                    assert(actions_view(old(self).redo_actions@).last() == a@);
                    assert(actions_view(self.redo_actions@)
                        =~= actions_view(old(self).redo_actions@).drop_last());
                    assert(actions_view(self.undo_actions@)
                        =~= actions_view(old(self).undo_actions@).push(a@));
                    assert(final(self)@ =~= spec_redo_step(old(self)@, old(world)@).0);
                }
            },
            None => {},
        }
    }

    /// Clears all history; the request flags are untouched.
    pub fn clear(&mut self)
        ensures
            final(self)@ == (StackView {
                undo: Seq::<ActionView>::empty(),
                redo: Seq::<ActionView>::empty(),
                ..old(self)@
            }),
    {
        self.undo_actions.clear();
        self.redo_actions.clear();
        proof {
            assert(actions_view(Seq::<UndoAction>::empty()) =~= Seq::<ActionView>::empty());
            assert(final(self)@ =~= (StackView {
                undo: Seq::<ActionView>::empty(),
                redo: Seq::<ActionView>::empty(),
                ..old(self)@
            }));
        }
    }

    /// Whether there are actions to undo.
    pub fn can_undo(&self) -> (r: bool)
        ensures
            r == (self@.undo.len() > 0),
    {
        self.undo_actions.len() > 0
    }

    /// Whether there are actions to redo.
    pub fn can_redo(&self) -> (r: bool)
        ensures
            r == (self@.redo.len() > 0),
    {
        self.redo_actions.len() > 0
    }

    /// Number of actions in the undo list: the current history position.
    pub fn undo_count(&self) -> (r: usize)
        ensures
            r == self@.undo.len(),
    {
        self.undo_actions.len()
    }

    /// Number of actions in the redo list.
    pub fn redo_count(&self) -> (r: usize)
        ensures
            r == self@.redo.len(),
    {
        self.redo_actions.len()
    }

    /// Description of the action that [`Self::undo`] would revert next.
    pub fn undo_description(&self) -> (r: Option<&String>)
        ensures
            match r {
                Some(d) => self@.undo.len() > 0 && d@ == spec_description(self@.undo.last()),
                None => self@.undo.len() == 0,
            },
    {
        let n = self.undo_actions.len();
        if n == 0 {
            None
        } else {
            Some(self.undo_actions[n - 1].description())
        }
    }

    /// Description of the action that [`Self::redo`] would reapply next.
    pub fn redo_description(&self) -> (r: Option<&String>)
        ensures
            match r {
                Some(d) => self@.redo.len() > 0 && d@ == spec_description(self@.redo.last()),
                None => self@.redo.len() == 0,
            },
    {
        let n = self.redo_actions.len();
        if n == 0 {
            None
        } else {
            Some(self.redo_actions[n - 1].description())
        }
    }

    /// Descriptions of all undo entries, oldest first.
    pub fn undo_history(&self) -> (r: Vec<String>)
        ensures
            r@.len() == self@.undo.len(),
            forall|i: int| 0 <= i < r@.len()
                ==> #[trigger] r@[i]@ == spec_description(self@.undo[i]),
    {
        let n = self.undo_actions.len();
        let mut r: Vec<String> = Vec::new();
        let mut i: usize = 0;
        while i < n
            invariant
                n == self.undo_actions@.len(),
                i <= n,
                r@.len() == i,
                forall|k: int| 0 <= k < i
                    ==> #[trigger] r@[k]@ == spec_description(self@.undo[k]),
            decreases n - i,
        {
            r.push(self.undo_actions[i].description().clone());
            i = i + 1;
        }
        r
    }

    /// Descriptions of all redo entries, next-to-redo first.
    pub fn redo_history(&self) -> (r: Vec<String>)
        ensures
            r@.len() == self@.redo.len(),
            forall|i: int| 0 <= i < r@.len()
                ==> #[trigger] r@[i]@ == spec_description(self@.redo[self@.redo.len() - 1 - i]),
    {
        let n = self.redo_actions.len();
        let mut r: Vec<String> = Vec::new();
        let mut i: usize = 0;
        while i < n
            invariant
                n == self.redo_actions@.len(),
                i <= n,
                r@.len() == i,
                forall|k: int| 0 <= k < i
                    ==> #[trigger] r@[k]@ == spec_description(self@.redo[self@.redo.len() - 1 - k]),
            decreases n - i,
        {
            r.push(self.redo_actions[n - 1 - i].description().clone());
            i = i + 1;
        }
        r
    }

    /// Jumps to a history index: index 0 is the initial state (everything
    /// undone), index `undo_count()` the current state. The walk is made of
    /// discrete single steps — exactly `undo_count() - target` undos or
    /// `target - undo_count()` redos — so every intermediate action is fully
    /// applied along the way.
    pub fn jump_to(&mut self, target_index: usize, world: &mut EditorWorld)
        ensures
            (final(self)@, final(world)@) == spec_jump(old(self)@, old(world)@, target_index),
    {
        let ghost s0 = self@;
        let ghost w0 = world@;
        let current = self.undo_actions.len();
        if target_index < current {
            let steps = current - target_index;
            let mut k: usize = 0;
            while k < steps
                invariant
                    k <= steps,
                    (self@, world@) == spec_undo_steps(s0, w0, k as nat),
                decreases steps - k,
            {
                proof {
                    lemma_undo_steps_snoc(s0, w0, k as nat);
                }
                self.undo(world);
                k = k + 1;
            }
        } else if target_index > current {
            let steps = target_index - current;
            let mut k: usize = 0;
            while k < steps
                invariant
                    k <= steps,
                    (self@, world@) == spec_redo_steps(s0, w0, k as nat),
                decreases steps - k,
            {
                proof {
                    lemma_redo_steps_snoc(s0, w0, k as nat);
                }
                self.redo(world);
                k = k + 1;
            }
        }
    }

    /// Services the one-shot requests for this frame: reads the key events
    /// and the menu flags, clears the flags, and performs at most one
    /// operation, preferring a requested jump, then redo, then undo.
    pub fn service_requests(&mut self, world: &mut EditorWorld, key_undo: bool, key_redo: bool)
        ensures
            ({
                let cleared = StackView {
                    undo_requested: false,
                    redo_requested: false,
                    jump_requested: None,
                    ..old(self)@
                };
                let want_undo = key_undo || old(self)@.undo_requested;
                let want_redo = key_redo || old(self)@.redo_requested;
                match old(self)@.jump_requested {
                    Some(t) => (final(self)@, final(world)@) == spec_jump(cleared, old(world)@, t),
                    None => if want_redo {
                        (final(self)@, final(world)@) == spec_redo_step(cleared, old(world)@)
                    } else if want_undo {
                        (final(self)@, final(world)@) == spec_undo_step(cleared, old(world)@)
                    } else {
                        final(self)@ == cleared && final(world)@ == old(world)@
                    },
                }
            }),
    {
        let want_undo = key_undo || self.undo_requested;
        let want_redo = key_redo || self.redo_requested;
        let jump = self.jump_requested;
        self.undo_requested = false;
        self.redo_requested = false;
        self.jump_requested = None;
        match jump {
            Some(t) => {
                self.jump_to(t, world);
            },
            None => {
                if want_redo {
                    self.redo(world);
                } else if want_undo {
                    self.undo(world);
                }
            },
        }
    }
}

/// The restorable part of a layout state as a snapshot model.
pub open spec fn snap_of(v: DockView) -> SnapView {
    SnapView { tiles: v.tiles, root: v.root, tile_of: v.tile_of }
}

/// An insertion by `open_or_focus_panel` makes the panel visible and keeps
/// every other panel's visibility.
proof fn lemma_open_insert_visibility(pre: DockView, post: DockView, p: usize)
    requires
        pre.wf(),
        crate::dock::open_insert_rel(pre, post, p),
        p < pre.tile_of.len(),
        pre.tiles.len() <= usize::MAX,
    ensures
        post.is_visible(p),
        forall|q: usize| q != p && pre.is_visible(q) ==> post.is_visible(q),
{
    let t = pre.tiles.len() as usize;
    let pane = Some(NodeView::Pane { panel: p });
    assert(post.tile_of[p as int] == Some(t));
    match pre.root {
        None => {
            assert(post.tiles == pre.tiles.push(pane));
            assert(post.tiles[t as int] == pane);
        },
        Some(r) => match pre.node(r) {
            NodeView::Container { kind, children } => {
                assert(post.tiles[t as int] == pane) by {
                    assert(post.tiles == pre.tiles.push(pane).update(r as int,
                        Some(NodeView::Container {
                            kind,
                            children: children.push(crate::dock::ChildRef {
                                tile: t,
                                share: crate::dock::DEFAULT_SHARE,
                            }),
                        })));
                    assert(r < pre.tiles.len());
                }
            },
            NodeView::Pane { .. } => {
                assert(post.tiles[t as int] == pane);
            },
        },
    }
    assert(post.is_visible(p));
    assert forall|q: usize| q != p && pre.is_visible(q) implies post.is_visible(q) by {
        let tq = pre.tile_of[q as int].unwrap();
        assert(pre.alive(tq));
        assert(post.tile_of[q as int] == pre.tile_of[q as int]);
        match pre.root {
            None => {
                assert(post.tiles[tq as int] == pre.tiles[tq as int]);
            },
            Some(r) => match pre.node(r) {
                NodeView::Container { .. } => {
                    if tq != r {
                        assert(post.tiles[tq as int] == pre.tiles[tq as int]);
                    } else {
                        assert(post.tiles[tq as int] is Some);
                    }
                },
                NodeView::Pane { .. } => {
                    assert(post.tiles[tq as int] == pre.tiles[tq as int]);
                },
            },
        }
        assert(post.alive(tq));
    }
}

/// Services a pending layout reset: rebuilds the procedural default tree and
/// records the whole edit on the stack as a single snapshot action, so one
/// undo restores the tree that was thrown away. Without a pending request
/// nothing changes. Deleting a persisted layout file is the host's concern.
pub fn process_layout_reset(state: &mut TileLayoutState, stack: &mut UndoStack)
    requires
        old(state)@.wf(),
    ensures
        final(state)@.wf(),
        !final(state)@.layout_reset_requested,
        !old(state)@.layout_reset_requested
            ==> final(state)@ == old(state)@ && *final(stack) == *old(stack),
        old(state)@.layout_reset_requested ==> {
            &&& final(state)@.panels == old(state)@.panels
            &&& crate::dock::default_built_rel(
                (DockView { layout_reset_requested: false, ..old(state)@ }),
                final(state)@,
            )
            &&& forall|p: usize| final(state)@.is_visible(p)
                <==> p < old(state)@.panels.len() && old(state)@.panels[p as int].default_visible
            &&& final(stack)@ == (StackView {
                undo: spec_pushed_undo(old(stack)@.undo, ActionView::Basic {
                    action: BasicView::LayoutSnap {
                        before: snap_of(old(state)@),
                        after: snap_of(final(state)@),
                        desc: "Reset layout"@,
                    },
                }, old(stack)@.max_history),
                redo: Seq::<ActionView>::empty(),
                ..old(stack)@
            })
        },
{
    if !state.layout_reset_requested {
        return;
    }
    let ghost pre = state@;
    let before = state.snapshot();
    state.layout_reset_requested = false;
    proof {
        crate::dock::lemma_wf_same_core(pre, state@);
    }
    state.build_default_tree();
    let after = state.snapshot();
    stack.push(UndoAction::layout_snapshot("Reset layout".to_owned(), before, after));
    proof {
        assert(before@ =~= snap_of(pre));
        assert(after@ =~= snap_of(state@));
    }
}

/// Services the queued open requests: opens or focuses each requested panel
/// in order and records the combined structural change as one snapshot
/// action. Every panel that was visible stays visible, and every requested
/// panel that is registered ends up visible. With an empty queue nothing
/// changes.
pub fn process_open_requests(state: &mut TileLayoutState, stack: &mut UndoStack)
    requires
        old(state)@.wf(),
    ensures
        final(state)@.wf(),
        final(state)@.pending_open.len() == 0,
        final(state)@.panels == old(state)@.panels,
        old(state)@.pending_open.len() == 0
            ==> final(state)@ == (DockView { pending_open: Seq::empty(), ..old(state)@ })
                && *final(stack) == *old(stack),
        forall|q: usize| old(state)@.is_visible(q) ==> final(state)@.is_visible(q),
        forall|k: int| 0 <= k < old(state)@.pending_open.len()
            ==> match crate::dock::spec_find_panel(old(state)@.panels,
                #[trigger] old(state)@.pending_open[k]) {
                Some(p) => final(state)@.is_visible(p as usize),
                None => true,
            },
        old(state)@.pending_open.len() > 0 ==> final(stack)@ == (StackView {
            undo: spec_pushed_undo(old(stack)@.undo, ActionView::Basic {
                action: BasicView::LayoutSnap {
                    before: snap_of(DockView { pending_open: Seq::empty(), ..old(state)@ }),
                    after: snap_of(final(state)@),
                    desc: "Open panels"@,
                },
            }, old(stack)@.max_history),
            redo: Seq::<ActionView>::empty(),
            ..old(stack)@
        }),
{
    let ghost pre = state@;
    let requests = state.take_open_requests();
    let ghost drained = state@;
    proof {
        crate::dock::lemma_wf_same_core(pre, drained);
    }
    if requests.len() == 0 {
        return;
    }
    let before = state.snapshot();
    let n = requests.len();
    let mut i: usize = 0;
    while i < n
        invariant
            n == requests@.len(),
            i <= n,
            crate::dock::strings_view(requests@) == pre.pending_open,
            drained == (DockView { pending_open: Seq::empty(), ..pre }),
            state@.wf(),
            state@.panels == pre.panels,
            state@.tile_of.len() == pre.tile_of.len(),
            state@.tiles.len() >= pre.tiles.len(),
            state@.pending_open.len() == 0,
            forall|q: usize| drained.is_visible(q) ==> state@.is_visible(q),
            forall|k: int| 0 <= k < i
                ==> match crate::dock::spec_find_panel(pre.panels,
                    #[trigger] pre.pending_open[k]) {
                    Some(p) => state@.is_visible(p as usize),
                    None => true,
                },
        decreases n - i,
    {
        let ghost mid = state@;
        let cap = state.tiles.len();
        proof {
            assert(mid.tiles.len() == cap);
        }
        state.open_or_focus_panel(requests[i].as_str());
        proof {
            let post = state@;
            assert(requests@[i as int]@ == pre.pending_open[i as int]);
            assert(crate::dock::open_rel(mid, post, pre.pending_open[i as int]));
            crate::dock::lemma_find_panel(mid.panels, pre.pending_open[i as int]);
            match crate::dock::spec_find_panel(mid.panels, pre.pending_open[i as int]) {
                Some(p) => {
                    if mid.is_visible(p as usize) {
                        assert(post == mid);
                    } else {
                        lemma_open_insert_visibility(mid, post, p as usize);
                    }
                    assert(post.is_visible(p as usize));
                },
                None => {
                    assert(post == mid);
                },
            }
            assert forall|q: usize| drained.is_visible(q) implies post.is_visible(q) by {
                assert(mid.is_visible(q));
                match crate::dock::spec_find_panel(mid.panels, pre.pending_open[i as int]) {
                    Some(p) => {
                        if !mid.is_visible(p as usize) {
                            lemma_open_insert_visibility(mid, post, p as usize);
                        }
                    },
                    None => {},
                }
            }
            assert forall|k: int| 0 <= k < i + 1 implies match crate::dock::spec_find_panel(
                pre.panels, #[trigger] pre.pending_open[k]) {
                Some(p) => post.is_visible(p as usize),
                None => true,
            } by {
                if k < i {
                    match crate::dock::spec_find_panel(pre.panels, pre.pending_open[k]) {
                        Some(p) => {
                            assert(mid.is_visible(p as usize));
                            match crate::dock::spec_find_panel(mid.panels, pre.pending_open[i as int]) {
                                Some(p2) => {
                                    if !mid.is_visible(p2 as usize) {
                                        lemma_open_insert_visibility(mid, post, p2 as usize);
                                    }
                                },
                                None => {},
                            }
                        },
                        None => {},
                    }
                }
            }
        }
        i = i + 1;
    }
    let after = state.snapshot();
    stack.push(UndoAction::layout_snapshot("Open panels".to_owned(), before, after));
    proof {
        assert(before@ =~= snap_of(drained));
        assert(after@ =~= snap_of(state@));
        assert forall|q: usize| pre.is_visible(q) implies state@.is_visible(q) by {
            assert(drained.is_visible(q) == pre.is_visible(q));
        }
    }
}

/// The action writes the component cell of entity `e`.
pub open spec fn is_comp_at(a: BasicView, e: int) -> bool {
    match a {
        BasicView::Component { entity, .. } => entity == e,
        _ => false,
    }
}

/// The action writes resource slot `r`.
pub open spec fn is_res_at(a: BasicView, r: int) -> bool {
    match a {
        BasicView::Resource { slot, .. } => slot == r,
        _ => false,
    }
}

/// Some member writes the component cell of entity `e`.
pub open spec fn comp_targeted(s: Seq<BasicView>, e: int) -> bool {
    exists|k: int| 0 <= k < s.len() && is_comp_at(#[trigger] s[k], e)
}

/// Some member writes resource slot `r`.
pub open spec fn res_targeted(s: Seq<BasicView>, r: int) -> bool {
    exists|k: int| 0 <= k < s.len() && is_res_at(#[trigger] s[k], r)
}

/// Some member swaps the layout tree.
pub open spec fn layout_targeted(s: Seq<BasicView>) -> bool {
    exists|k: int| 0 <= k < s.len() && (#[trigger] s[k]) is LayoutSnap
}

/// The shape of the world that actions preserve: table lengths, which
/// entities exist, and the parts of the layout state no snapshot restores.
pub open spec fn same_shape(v: WorldView, w: WorldView) -> bool {
    &&& v.components.len() == w.components.len()
    &&& forall|i: int| 0 <= i < v.components.len()
        ==> (v.components[i] is Some <==> w.components[i] is Some)
    &&& v.resources.len() == w.resources.len()
    &&& v.layout.panels == w.layout.panels
    &&& v.layout.tree_built == w.layout.tree_built
    &&& v.layout.layout_reset_requested == w.layout.layout_reset_requested
    &&& v.layout.pending_open == w.layout.pending_open
}

/// Two worlds of the same shape that can differ only at the locations the
/// action list writes.
pub open spec fn agree_except(v: WorldView, w: WorldView, s: Seq<BasicView>) -> bool {
    &&& same_shape(v, w)
    &&& forall|i: int| 0 <= i < v.components.len() && !comp_targeted(s, i)
        ==> v.components[i] == w.components[i]
    &&& forall|i: int| 0 <= i < v.resources.len() && !res_targeted(s, i)
        ==> v.resources[i] == w.resources[i]
    &&& !layout_targeted(s) ==> v.layout.tiles == w.layout.tiles
        && v.layout.root == w.layout.root && v.layout.tile_of == w.layout.tile_of
}

/// One atomic edit, in either direction, keeps the shape and writes only its
/// own location.
proof fn lemma_basic_step_frame(a: BasicView, w: WorldView, forward: bool)
    ensures
        same_shape(if forward { basic_redo(a, w) } else { basic_undo(a, w) }, w),
        agree_except(if forward { basic_redo(a, w) } else { basic_undo(a, w) }, w, seq![a]),
{
    let v = if forward { basic_redo(a, w) } else { basic_undo(a, w) };
    match a {
        BasicView::Component { entity, .. } => {
            assert(is_comp_at(seq![a][0], entity as int));
            assert(comp_targeted(seq![a], entity as int));
        },
        BasicView::Resource { slot, .. } => {
            assert(is_res_at(seq![a][0], slot as int));
            assert(res_targeted(seq![a], slot as int));
        },
        BasicView::LayoutSnap { .. } => {
            assert(seq![a][0] is LayoutSnap);
            assert(layout_targeted(seq![a]));
        },
    }
}

/// Every location a suffix or a member writes, the whole list writes.
proof fn lemma_targeted_widen(s: Seq<BasicView>, sub: Seq<BasicView>, off: int)
    requires
        0 <= off,
        off + sub.len() <= s.len(),
        forall|k: int| 0 <= k < sub.len() ==> #[trigger] sub[k] == s[k + off],
    ensures
        forall|e: int| comp_targeted(sub, e) ==> comp_targeted(s, e),
        forall|r: int| res_targeted(sub, r) ==> res_targeted(s, r),
        layout_targeted(sub) ==> layout_targeted(s),
{
    assert forall|e: int| comp_targeted(sub, e) implies comp_targeted(s, e) by {
        let k = choose|k: int| 0 <= k < sub.len() && is_comp_at(#[trigger] sub[k], e);
        assert(is_comp_at(s[k + off], e));
    }
    assert forall|r: int| res_targeted(sub, r) implies res_targeted(s, r) by {
        let k = choose|k: int| 0 <= k < sub.len() && is_res_at(#[trigger] sub[k], r);
        assert(is_res_at(s[k + off], r));
    }
    if layout_targeted(sub) {
        let k = choose|k: int| 0 <= k < sub.len() && (#[trigger] sub[k]) is LayoutSnap;
        assert(s[k + off] is LayoutSnap);
    }
}

/// Redoing a list keeps the shape and writes only its own locations.
proof fn lemma_seq_redo_frame(s: Seq<BasicView>, w: WorldView)
    ensures
        same_shape(seq_redo(s, w), w),
        agree_except(seq_redo(s, w), w, s),
    decreases s.len(),
{
    if s.len() > 0 {
        let a = s[0];
        let rest = s.drop_first();
        let w1 = basic_redo(a, w);
        lemma_basic_step_frame(a, w, true);
        lemma_seq_redo_frame(rest, w1);
        lemma_targeted_widen(s, rest, 1);
        lemma_targeted_widen(s, seq![a], 0);
        let v = seq_redo(rest, w1);
        assert(seq_redo(s, w) == v);
        assert forall|i: int| 0 <= i < v.components.len() && !comp_targeted(s, i)
            implies v.components[i] == w.components[i] by {
            assert(!comp_targeted(rest, i));
            assert(!comp_targeted(seq![a], i));
            assert(v.components[i] == w1.components[i]);
            assert(w1.components[i] == w.components[i]);
        }
        assert forall|i: int| 0 <= i < v.resources.len() && !res_targeted(s, i)
            implies v.resources[i] == w.resources[i] by {
            assert(!res_targeted(rest, i));
            assert(!res_targeted(seq![a], i));
        }
        if !layout_targeted(s) {
            assert(!layout_targeted(rest));
            assert(!layout_targeted(seq![a]));
        }
    }
}

/// Undoing a list keeps the shape and writes only its own locations.
proof fn lemma_seq_undo_frame(s: Seq<BasicView>, w: WorldView)
    ensures
        same_shape(seq_undo(s, w), w),
        agree_except(seq_undo(s, w), w, s),
    decreases s.len(),
{
    if s.len() > 0 {
        let a = s.last();
        let prefix = s.drop_last();
        let w1 = basic_undo(a, w);
        lemma_basic_step_frame(a, w, false);
        lemma_seq_undo_frame(prefix, w1);
        lemma_targeted_widen(s, prefix, 0);
        lemma_targeted_widen(s, seq![a], s.len() - 1);
        let v = seq_undo(prefix, w1);
        assert(seq_undo(s, w) == v);
        assert forall|i: int| 0 <= i < v.components.len() && !comp_targeted(s, i)
            implies v.components[i] == w.components[i] by {
            assert(!comp_targeted(prefix, i));
            assert(!comp_targeted(seq![a], i));
        }
        assert forall|i: int| 0 <= i < v.resources.len() && !res_targeted(s, i)
            implies v.resources[i] == w.resources[i] by {
            assert(!res_targeted(prefix, i));
            assert(!res_targeted(seq![a], i));
        }
        if !layout_targeted(s) {
            assert(!layout_targeted(prefix));
            assert(!layout_targeted(seq![a]));
        }
    }
}

/// Redoing a list is insensitive to what the list overwrites anyway: two
/// worlds of the same shape that agree outside the list's locations end up
/// equal.
proof fn lemma_seq_redo_congruent(s: Seq<BasicView>, v: WorldView, w: WorldView)
    requires
        agree_except(v, w, s),
    ensures
        seq_redo(s, v) == seq_redo(s, w),
    decreases s.len(),
{
    if s.len() == 0 {
        assert(v =~= w) by {
            assert forall|i: int| 0 <= i < v.components.len()
                implies v.components[i] == w.components[i] by {
                assert(!comp_targeted(s, i)) by {
                    if comp_targeted(s, i) {
                        let k = choose|k: int| 0 <= k < s.len() && is_comp_at(#[trigger] s[k], i);
                    }
                }
            }
            assert forall|i: int| 0 <= i < v.resources.len()
                implies v.resources[i] == w.resources[i] by {
                assert(!res_targeted(s, i)) by {
                    if res_targeted(s, i) {
                        let k = choose|k: int| 0 <= k < s.len() && is_res_at(#[trigger] s[k], i);
                    }
                }
            }
            assert(!layout_targeted(s)) by {
                if layout_targeted(s) {
                    let k = choose|k: int| 0 <= k < s.len() && (#[trigger] s[k]) is LayoutSnap;
                }
            }
            assert(v.components =~= w.components);
            assert(v.resources =~= w.resources);
            assert(v.layout =~= w.layout);
        }
    } else {
        let a = s[0];
        let rest = s.drop_first();
        let v1 = basic_redo(a, v);
        let w1 = basic_redo(a, w);
        lemma_basic_step_frame(a, v, true);
        lemma_basic_step_frame(a, w, true);
        lemma_targeted_widen(s, rest, 1);
        lemma_targeted_widen(s, seq![a], 0);
        assert(agree_except(v1, w1, rest)) by {
            assert forall|i: int| 0 <= i < v1.components.len() && !comp_targeted(rest, i)
                implies v1.components[i] == w1.components[i] by {
                if is_comp_at(a, i) {
                    // The head writes the cell identically in both worlds,
                    // or leaves it absent in both.
                    assert(v.components[i] is Some <==> w.components[i] is Some);
                } else {
                    assert(v1.components[i] == v.components[i]);
                    assert(w1.components[i] == w.components[i]);
                    assert(!comp_targeted(seq![a], i)) by {
                        assert(seq![a].len() == 1);
                        assert(!is_comp_at(seq![a][0], i));
                    }
                    assert(!comp_targeted(s, i)) by {
                        if comp_targeted(s, i) {
                            let k = choose|k: int| 0 <= k < s.len()
                                && is_comp_at(#[trigger] s[k], i);
                            if k == 0 {
                                assert(is_comp_at(a, i));
                            } else {
                                assert(rest[k - 1] == s[k]);
                                assert(is_comp_at(rest[k - 1], i));
                            }
                        }
                    }
                }
            }
            assert forall|i: int| 0 <= i < v1.resources.len() && !res_targeted(rest, i)
                implies v1.resources[i] == w1.resources[i] by {
                if is_res_at(a, i) {
                } else {
                    assert(v1.resources[i] == v.resources[i]);
                    assert(w1.resources[i] == w.resources[i]);
                    assert(!res_targeted(s, i)) by {
                        if res_targeted(s, i) {
                            let k = choose|k: int| 0 <= k < s.len()
                                && is_res_at(#[trigger] s[k], i);
                            if k == 0 {
                                assert(is_res_at(a, i));
                            } else {
                                assert(rest[k - 1] == s[k]);
                                assert(is_res_at(rest[k - 1], i));
                            }
                        }
                    }
                }
            }
            if !layout_targeted(rest) {
                if a is LayoutSnap {
                    assert(v1.layout =~= w1.layout);
                } else {
                    assert(!layout_targeted(s)) by {
                        if layout_targeted(s) {
                            let k = choose|k: int| 0 <= k < s.len() && (#[trigger] s[k]) is LayoutSnap;
                            if k == 0 {
                            } else {
                                assert(rest[k - 1] == s[k]);
                            }
                        }
                    }
                    assert(v1.layout.tiles == w1.layout.tiles);
                    assert(v1.layout.root == w1.layout.root);
                    assert(v1.layout.tile_of == w1.layout.tile_of);
                }
            }
        }
        lemma_seq_redo_congruent(rest, v1, w1);
    }
}

/// Law: undo followed immediately by redo restores, bit for bit, the state
/// produced by the action's forward application. Holds for any action and
/// any starting world, at the level of one action's operations.
pub proof fn lemma_action_round_trip(a: ActionView, w0: WorldView)
    ensures
        action_redo(a, action_undo(a, action_redo(a, w0))) == action_redo(a, w0),
{
    match a {
        ActionView::Basic { action } => {
            let w = basic_redo(action, w0);
            let u = basic_undo(action, w);
            lemma_basic_step_frame(action, w, false);
            lemma_basic_step_frame(action, w0, true);
            match action {
                BasicView::Component { entity, .. } => {
                    assert(basic_redo(action, u) =~~= w);
                },
                BasicView::Resource { slot, .. } => {
                    assert(basic_redo(action, u) =~~= w);
                },
                BasicView::LayoutSnap { .. } => {
                    assert(basic_redo(action, u) =~~= w);
                },
            }
        },
        ActionView::Group { actions, .. } => {
            let s = actions;
            let w = seq_redo(s, w0);
            let u = seq_undo(s, w);
            lemma_seq_undo_frame(s, w);
            lemma_seq_redo_congruent(s, u, w);
            lemma_seq_redo_frame(s, w0);
            lemma_seq_redo_congruent(s, w, w0);
        },
    }
}

/// Law: after any sequence of pushes, `undo()` followed immediately by
/// `redo()` restores both the stack and the world that the last pushed
/// action's forward application had produced.
pub proof fn lemma_undo_then_redo_restores(s: StackView, w0: WorldView)
    requires
        s.undo.len() > 0,
    ensures
        ({
            let a = s.undo.last();
            let w = action_redo(a, w0);
            let (s1, w1) = spec_undo_step(s, w);
            let (s2, w2) = spec_redo_step(s1, w1);
            s2 == s && w2 == w
        }),
{
    let a = s.undo.last();
    let w = action_redo(a, w0);
    let (s1, w1) = spec_undo_step(s, w);
    let (s2, w2) = spec_redo_step(s1, w1);
    assert(s1.redo.last() == a);
    lemma_action_round_trip(a, w0);
    assert(s2.undo =~= s.undo) by {
        assert(s2.undo == s.undo.drop_last().push(a));
    }
    assert(s2.redo =~= s.redo) by {
        assert(s2.redo == s.redo.push(a).drop_last());
    }
    assert(s2 =~= s);
}

/// Law: the history never outgrows `max_history`. When the two lists
/// together hold at most `max_history` entries, they still do after a push
/// (which evicts at the old end when needed), after an undo step and after a
/// redo step — the last two only move an entry between the lists.
pub proof fn lemma_history_stays_bounded(s: StackView, w: WorldView, a: ActionView)
    requires
        s.undo.len() + s.redo.len() <= s.max_history,
    ensures
        spec_pushed_undo(s.undo, a, s.max_history).len() <= s.max_history,
        spec_undo_step(s, w).0.undo.len() + spec_undo_step(s, w).0.redo.len()
            <= s.max_history,
        spec_redo_step(s, w).0.undo.len() + spec_redo_step(s, w).0.redo.len()
            <= s.max_history,
{
}

/// Law: a push bounds the history. Whenever the undo list is within
/// `max_history` beforehand, it is within `max_history` afterwards, and a
/// push at the bound evicts exactly the oldest entry.
pub proof fn lemma_push_bounded(s: StackView, a: ActionView)
    requires
        s.undo.len() <= s.max_history,
    ensures
        spec_pushed_undo(s.undo, a, s.max_history).len() <= s.max_history,
        s.undo.len() == s.max_history && s.max_history > 0
            ==> spec_pushed_undo(s.undo, a, s.max_history)
                =~= s.undo.drop_first().push(a),
{
}

} // verus!
