//! Dockable panel layout engine.
//!
//! The layout is a tree of tiles kept in an arena: a tile is either a pane
//! showing one registered panel, or a container grouping child tiles as tabs
//! or as a weighted split. Panels are registered once per run and addressed by
//! a numeric handle; their string ids are stable across runs and are what the
//! persisted layout document records.

use vstd::prelude::*;
use crate::text::{contains_sub, seq_contains, str_eq, str_lt};

verus! {

/// Where a panel is placed by the default layout builder.
#[derive(Debug, Clone, Copy, PartialEq, Eq, Structural)]
pub enum PanelSlot {
    /// Right side column.
    Right,
    /// Bottom row.
    Bottom,
    /// Central area.
    Center,
    /// Left side column.
    Left,
}

/// How a container arranges its children.
#[derive(Debug, Clone, Copy, PartialEq, Eq, Structural)]
pub enum ContainerKind {
    /// Mutually exclusive tabs.
    Tabs,
    /// Horizontal weighted split.
    Horizontal,
    /// Vertical weighted split.
    Vertical,
}

/// A container's reference to one child tile, with the child's weight share.
/// Shares are in tenths, so a share of 10 is one weight unit.
#[derive(Debug, Clone, Copy, PartialEq, Eq, Structural)]
pub struct ChildRef {
    pub tile: usize,
    pub share: u32,
}

/// One slot of the layout arena.
#[derive(Debug, PartialEq)]
pub enum LayoutNode {
    /// A leaf tile showing the panel with the given handle.
    Pane { panel: usize },
    /// A grouping tile; children point into the arena.
    Container { kind: ContainerKind, children: Vec<ChildRef> },
}

/// Mathematical model of a [`LayoutNode`].
#[verifier::ext_equal]
pub enum NodeView {
    Pane { panel: usize },
    Container { kind: ContainerKind, children: Seq<ChildRef> },
}

/// A registered panel: the capability record the layout engine keeps for each
/// pluggable region. Drawing is the host's concern and is not part of it.
#[derive(Debug)]
pub struct Panel {
    /// Process-unique stable string id.
    pub id: String,
    /// Title shown on the tab.
    pub title: String,
    /// Whether the tab offers a close button.
    pub closable: bool,
    /// Whether the panel appears in the default layout.
    pub default_visible: bool,
}

/// Mathematical model of a [`Panel`].
#[verifier::ext_equal]
pub struct PanelView {
    pub id: Seq<char>,
    pub title: Seq<char>,
    pub closable: bool,
    pub default_visible: bool,
}

impl View for Panel {
    type V = PanelView;

    open spec fn view(&self) -> PanelView {
        PanelView { id: self.id@, title: self.title@, closable: self.closable, default_visible: self.default_visible }
    }
}

pub open spec fn node_view(n: LayoutNode) -> NodeView {
    match n {
        LayoutNode::Pane { panel } => NodeView::Pane { panel },
        LayoutNode::Container { kind, children } => NodeView::Container { kind, children: children@ },
    }
}

pub open spec fn tiles_view(ts: Seq<Option<LayoutNode>>) -> Seq<Option<NodeView>> {
    Seq::new(ts.len(), |i: int| match ts[i] {
        Some(n) => Some(node_view(n)),
        None => None,
    })
}

pub open spec fn panels_view(ps: Seq<Panel>) -> Seq<PanelView> {
    Seq::new(ps.len(), |i: int| ps[i]@)
}

pub open spec fn strings_view(ss: Seq<String>) -> Seq<Seq<char>> {
    Seq::new(ss.len(), |i: int| ss[i]@)
}

/// An immutable deep copy of the layout tree and its handle-to-tile index,
/// taken before and after a structural edit so the edit can be undone.
#[derive(Debug, PartialEq)]
pub struct LayoutSnapshot {
    pub tiles: Vec<Option<LayoutNode>>,
    pub root: Option<usize>,
    pub tile_of: Vec<Option<usize>>,
}

/// Mathematical model of a [`LayoutSnapshot`].
#[verifier::ext_equal]
pub struct SnapView {
    pub tiles: Seq<Option<NodeView>>,
    pub root: Option<usize>,
    pub tile_of: Seq<Option<usize>>,
}

impl View for LayoutSnapshot {
    type V = SnapView;

    open spec fn view(&self) -> SnapView {
        SnapView { tiles: tiles_view(self.tiles@), root: self.root, tile_of: self.tile_of@ }
    }
}

/// The layout manager: panel registry, tile arena and pending host requests.
pub struct TileLayoutState {
    /// Registered panels; a panel's handle is its index here.
    pub panels: Vec<Panel>,
    /// Tile arena. Removed tiles leave a `None` slot; ids are never reused.
    pub tiles: Vec<Option<LayoutNode>>,
    /// The root tile, or `None` for the empty tree.
    pub root_tile: Option<usize>,
    /// For each panel handle, the tile currently (or last) showing it.
    pub tile_of: Vec<Option<usize>>,
    /// Whether the tree has been built (lazily, on first use).
    pub tree_built: bool,
    /// Set by the host to request a reset to the default layout.
    pub layout_reset_requested: bool,
    /// Panel ids whose opening was requested and not yet serviced.
    pub pending_open_requests: Vec<String>,
}

/// Mathematical model of the whole layout manager state.
#[verifier::ext_equal]
pub struct DockView {
    pub panels: Seq<PanelView>,
    pub tiles: Seq<Option<NodeView>>,
    pub root: Option<usize>,
    pub tile_of: Seq<Option<usize>>,
    pub tree_built: bool,
    pub layout_reset_requested: bool,
    pub pending_open: Seq<Seq<char>>,
}

impl View for TileLayoutState {
    type V = DockView;

    open spec fn view(&self) -> DockView {
        DockView {
            panels: panels_view(self.panels@),
            tiles: tiles_view(self.tiles@),
            root: self.root_tile,
            tile_of: self.tile_of@,
            tree_built: self.tree_built,
            layout_reset_requested: self.layout_reset_requested,
            pending_open: strings_view(self.pending_open_requests@),
        }
    }
}

impl DockView {
    /// Tile `t` exists: it is a live slot of the arena.
    pub open spec fn alive(self, t: usize) -> bool {
        t < self.tiles.len() && self.tiles[t as int] is Some
    }

    /// The node stored at a live tile.
    pub open spec fn node(self, t: usize) -> NodeView {
        self.tiles[t as int].unwrap()
    }

    /// Tile `t` is a pane showing panel `p`.
    pub open spec fn pane_at(self, t: usize, p: usize) -> bool {
        self.alive(t) && self.node(t) == (NodeView::Pane { panel: p })
    }

    /// A panel is visible exactly when its mapped tile is a live arena slot.
    pub open spec fn is_visible(self, p: usize) -> bool {
        p < self.tile_of.len() && match self.tile_of[p as int] {
            Some(t) => self.alive(t),
            None => false,
        }
    }

    /// Structural well-formedness of one arena slot.
    pub open spec fn node_wf(self, t: int) -> bool {
        match self.tiles[t] {
            Some(NodeView::Container { children, .. }) => forall|i: int|
                0 <= i < children.len() ==> self.alive(#[trigger] children[i].tile),
            _ => true,
        }
    }

    /// Well-formedness of one handle-to-tile entry: the entry stays within the
    /// arena, and while its tile is alive, that tile is this panel's pane.
    pub open spec fn entry_wf(self, p: int) -> bool {
        match self.tile_of[p] {
            Some(t) => t < self.tiles.len() && (self.tiles[t as int] is Some
                ==> self.tiles[t as int] == Some(NodeView::Pane { panel: p as usize })),
            None => true,
        }
    }

    /// Invariant of the layout manager:
    /// the root and all container children exist in the arena; the handle
    /// index covers exactly the registry; no two live panes show the same
    /// panel; a registered panel's live pane is recorded in the handle index;
    /// and registered panel ids are pairwise distinct.
    pub open spec fn wf(self) -> bool {
        &&& self.tile_of.len() == self.panels.len()
        &&& match self.root {
            Some(r) => self.alive(r),
            None => true,
        }
        &&& forall|t: int| 0 <= t < self.tiles.len() ==> self.node_wf(t)
        &&& forall|p: int| 0 <= p < self.tile_of.len() ==> self.entry_wf(p)
        &&& forall|t1: usize, t2: usize, p: usize|
            self.pane_at(t1, p) && self.pane_at(t2, p) ==> t1 == t2
        &&& forall|t: usize, p: usize|
            self.pane_at(t, p) && p < self.panels.len()
                ==> self.tile_of[p as int] == Some(t)
        &&& forall|i: int, j: int|
            0 <= i < self.panels.len() && 0 <= j < self.panels.len() && i != j
                ==> self.panels[i].id != self.panels[j].id
        &&& acyclic(self.tiles)
    }

    /// Every live pane refers to a registered panel. This holds until a
    /// persisted layout naming unregistered panels is loaded.
    pub open spec fn handles_resolved(self) -> bool {
        forall|t: usize, p: usize| self.pane_at(t, p) ==> p < self.panels.len()
    }

    /// Some registered panel carries this id.
    pub open spec fn has_panel_id(self, id: Seq<char>) -> bool {
        exists|i: int| 0 <= i < self.panels.len() && self.panels[i].id == id
    }
}

/// First registered panel with the given id, scanning from index `i`.
pub open spec fn spec_find_from(ps: Seq<PanelView>, id: Seq<char>, i: int) -> Option<int>
    decreases ps.len() - i,
{
    if i < 0 || i >= ps.len() {
        None
    } else if ps[i].id == id {
        Some(i)
    } else {
        spec_find_from(ps, id, i + 1)
    }
}

/// First registered panel with the given id, if any.
pub open spec fn spec_find_panel(ps: Seq<PanelView>, id: Seq<char>) -> Option<int> {
    spec_find_from(ps, id, 0)
}

pub proof fn lemma_find_from(ps: Seq<PanelView>, id: Seq<char>, i: int)
    requires
        0 <= i <= ps.len(),
    ensures
        match spec_find_from(ps, id, i) {
            Some(k) => i <= k < ps.len() && ps[k].id == id,
            None => forall|j: int| i <= j < ps.len() ==> ps[j].id != id,
        },
    decreases ps.len() - i,
{
    if i < ps.len() && ps[i].id != id {
        lemma_find_from(ps, id, i + 1);
    }
}

/// Characterizes [`spec_find_panel`]: a hit names a registered panel with the
/// id, a miss means no registered panel has it.
pub proof fn lemma_find_panel(ps: Seq<PanelView>, id: Seq<char>)
    ensures
        match spec_find_panel(ps, id) {
            Some(k) => 0 <= k < ps.len() && ps[k].id == id,
            None => forall|j: int| 0 <= j < ps.len() ==> ps[j].id != id,
        },
{
    lemma_find_from(ps, id, 0);
}

/// Region a panel id is routed to, by the id naming convention.
pub open spec fn spec_classify(id: Seq<char>) -> PanelSlot {
    if seq_contains(id, "inspector"@) {
        PanelSlot::Right
    } else if seq_contains(id, "console"@) || seq_contains(id, "timeline"@) {
        PanelSlot::Bottom
    } else if seq_contains(id, "game_view"@) {
        PanelSlot::Center
    } else {
        PanelSlot::Left
    }
}

/// Classifies a panel id into its default region by naming convention:
/// ids mentioning "inspector" go right, "console" or "timeline" go to the
/// bottom, "game_view" goes to the center, anything else to the left.
pub fn classify_panel_id(id: &str) -> (s: PanelSlot)
    ensures
        s == spec_classify(id@),
{
    if contains_sub(id, "inspector") {
        PanelSlot::Right
    } else if contains_sub(id, "console") || contains_sub(id, "timeline") {
        PanelSlot::Bottom
    } else if contains_sub(id, "game_view") {
        PanelSlot::Center
    } else {
        PanelSlot::Left
    }
}

impl TileLayoutState {
    /// A fresh manager: no panels, the explicit empty tree.
    pub fn new() -> (s: Self)
        ensures
            s@ == (DockView {
                panels: Seq::<PanelView>::empty(),
                tiles: Seq::<Option<NodeView>>::empty(),
                root: None,
                tile_of: Seq::<Option<usize>>::empty(),
                tree_built: false,
                layout_reset_requested: false,
                pending_open: Seq::<Seq<char>>::empty(),
            }),
            s@.wf(),
    {
        let s = TileLayoutState {
            panels: Vec::new(),
            tiles: Vec::new(),
            root_tile: None,
            tile_of: Vec::new(),
            tree_built: false,
            layout_reset_requested: false,
            pending_open_requests: Vec::new(),
        };
        proof {
            assert(s@ =~= (DockView {
                panels: Seq::<PanelView>::empty(),
                tiles: Seq::<Option<NodeView>>::empty(),
                root: None,
                tile_of: Seq::<Option<usize>>::empty(),
                tree_built: false,
                layout_reset_requested: false,
                pending_open: Seq::<Seq<char>>::empty(),
            }));
            lemma_acyclic_empty();
            assert(s@.tiles == Seq::<Option<NodeView>>::empty());
        }
        s
    }

    /// First registered panel carrying this id, if any.
    pub fn find_panel(&self, id: &str) -> (r: Option<usize>)
        ensures
            spec_find_panel(self@.panels, id@) == match r {
                Some(u) => Some(u as int),
                None => None::<int>,
            },
            match r {
                Some(u) => u < self@.panels.len() && self@.panels[u as int].id == id@,
                None => !self@.has_panel_id(id@),
            },
    {
        let ghost ps = self@.panels;
        let n = self.panels.len();
        let mut i: usize = 0;
        while i < n
            invariant
                n == self.panels.len(),
                ps == self@.panels,
                i <= n,
                spec_find_from(ps, id@, 0) == spec_find_from(ps, id@, i as int),
                forall|j: int| 0 <= j < i ==> ps[j].id != id@,
            decreases n - i,
        {
            if str_eq(self.panels[i].id.as_str(), id) {
                return Some(i);
            }
            i = i + 1;
        }
        proof {
            lemma_find_panel(ps, id@);
        }
        None
    }

    /// Registers a panel and returns its handle for this run. The id must be
    /// new: panel ids are process-unique. Registration happens before any
    /// persisted layout is loaded, while every live pane is still resolved.
    pub fn add_panel(&mut self, panel: Panel) -> (h: usize)
        requires
            old(self)@.wf(),
            old(self)@.handles_resolved(),
            !old(self)@.has_panel_id(panel@.id),
        ensures
            h == old(self)@.panels.len(),
            final(self)@ == (DockView {
                panels: old(self)@.panels.push(panel@),
                tile_of: old(self)@.tile_of.push(None),
                ..old(self)@
            }),
            final(self)@.wf(),
            final(self)@.handles_resolved(),
    {
        let h = self.panels.len();
        let ghost pre = self@;
        self.panels.push(panel);
        self.tile_of.push(None);
        proof {
            let post = self@;
            assert(post =~= (DockView {
                panels: pre.panels.push(panel@),
                tile_of: pre.tile_of.push(None),
                ..pre
            }));
            assert(post.tiles =~= pre.tiles);
            assert forall|t: usize, p: usize| post.pane_at(t, p) implies pre.pane_at(t, p)
                && p < pre.panels.len() by {
                assert(pre.pane_at(t, p));
            }
            assert forall|t: int| 0 <= t < post.tiles.len() implies post.node_wf(t) by {
                assert(pre.node_wf(t));
            }
            assert forall|p: int| 0 <= p < post.tile_of.len() implies post.entry_wf(p) by {
                if p < pre.tile_of.len() {
                    assert(pre.entry_wf(p));
                } else {
                    assert(post.tile_of[p] is None);
                }
            }
            assert forall|i: int, j: int|
                0 <= i < post.panels.len() && 0 <= j < post.panels.len() && i != j
                implies post.panels[i].id != post.panels[j].id by {
                if i < pre.panels.len() && j < pre.panels.len() {
                    assert(pre.panels[i].id != pre.panels[j].id);
                } else if j == pre.panels.len() as int {
                    assert(post.panels[j].id == panel@.id);
                    assert(pre.panels[i].id != panel@.id);
                } else {
                    assert(post.panels[i].id == panel@.id);
                    assert(pre.panels[j].id != panel@.id);
                }
            }
            assert(post.wf());
            assert(post.handles_resolved());
        }
        h
    }
}

/// Share given to a tile appended outside the default builder, in tenths.
pub const DEFAULT_SHARE: u32 = 10;

/// The children sequence with every reference to `dead` removed.
pub open spec fn remove_refs(s: Seq<ChildRef>, dead: usize) -> Seq<ChildRef>
    decreases s.len(),
{
    if s.len() == 0 {
        Seq::empty()
    } else {
        let rest = remove_refs(s.drop_last(), dead);
        if s.last().tile == dead {
            rest
        } else {
            rest.push(s.last())
        }
    }
}

pub proof fn lemma_remove_refs_elems(s: Seq<ChildRef>, dead: usize)
    ensures
        forall|j: int| 0 <= j < remove_refs(s, dead).len()
            ==> s.contains(#[trigger] remove_refs(s, dead)[j])
                && remove_refs(s, dead)[j].tile != dead,
    decreases s.len(),
{
    if s.len() > 0 {
        lemma_remove_refs_elems(s.drop_last(), dead);
        assert forall|j: int| 0 <= j < remove_refs(s, dead).len()
            implies s.contains(#[trigger] remove_refs(s, dead)[j])
                && remove_refs(s, dead)[j].tile != dead by {
            let r = remove_refs(s, dead);
            let rest = remove_refs(s.drop_last(), dead);
            if j < rest.len() {
                assert(s.drop_last().contains(rest[j]));
                let k = choose|k: int| 0 <= k < s.drop_last().len() && s.drop_last()[k] == rest[j];
                assert(s[k] == rest[j]);
            } else {
                assert(r[j] == s.last());
                assert(s[s.len() - 1] == s.last());
            }
        }
    }
}

/// Every arena slot after references to `dead` were swept from all containers.
pub open spec fn sweep_view(ts: Seq<Option<NodeView>>, dead: usize) -> Seq<Option<NodeView>> {
    Seq::new(ts.len(), |u: int| match ts[u] {
        Some(NodeView::Container { kind, children }) =>
            Some(NodeView::Container { kind, children: remove_refs(children, dead) }),
        other => other,
    })
}

/// Number of live slots in the arena.
pub open spec fn count_alive(ts: Seq<Option<NodeView>>) -> nat
    decreases ts.len(),
{
    if ts.len() == 0 {
        0
    } else {
        count_alive(ts.drop_last()) + (if ts.last() is Some { 1nat } else { 0nat })
    }
}

pub proof fn lemma_count_alive_congruent(a: Seq<Option<NodeView>>, b: Seq<Option<NodeView>>)
    requires
        a.len() == b.len(),
        forall|i: int| 0 <= i < a.len() ==> (a[i] is Some <==> b[i] is Some),
    ensures
        count_alive(a) == count_alive(b),
    decreases a.len(),
{
    if a.len() > 0 {
        lemma_count_alive_congruent(a.drop_last(), b.drop_last());
    }
}

pub proof fn lemma_count_alive_kill(ts: Seq<Option<NodeView>>, i: int)
    requires
        0 <= i < ts.len(),
        ts[i] is Some,
    ensures
        count_alive(ts.update(i, None)) < count_alive(ts),
    decreases ts.len(),
{
    let u = ts.update(i, None);
    if i == ts.len() - 1 {
        assert(u.drop_last() =~= ts.drop_last());
        lemma_count_alive_congruent(u.drop_last(), ts.drop_last());
    } else {
        assert(u.drop_last() =~= ts.drop_last().update(i, None));
        lemma_count_alive_kill(ts.drop_last(), i);
        assert(u.last() == ts.last());
    }
}

/// Tile `t`'s child references, if it has any, stay inside the arena's
/// index range.
pub open spec fn node_children_bounded(tiles: Seq<Option<NodeView>>, t: int) -> bool {
    match tiles[t] {
        Some(NodeView::Container { children, .. }) => forall|i: int|
            0 <= i < children.len() ==> (#[trigger] children[i]).tile < tiles.len(),
        _ => true,
    }
}

/// Every container child reference stays inside the arena's index range.
pub open spec fn children_bounded(tiles: Seq<Option<NodeView>>) -> bool {
    forall|t: int| 0 <= t < tiles.len() ==> #[trigger] node_children_bounded(tiles, t)
}

/// The rank assignment puts tile `t` strictly above its in-range children.
pub open spec fn rank_ok_at(tiles: Seq<Option<NodeView>>, rank: Seq<nat>, t: int) -> bool {
    match tiles[t] {
        Some(NodeView::Container { children, .. }) => forall|i: int|
            0 <= i < children.len() && (#[trigger] children[i]).tile < tiles.len()
                ==> rank[children[i].tile as int] < rank[t],
        _ => true,
    }
}

/// A rank assignment witnessing that child edges go strictly down.
pub open spec fn ranked_tiles(tiles: Seq<Option<NodeView>>, rank: Seq<nat>) -> bool {
    rank.len() == tiles.len() && forall|t: int| 0 <= t < tiles.len()
        ==> #[trigger] rank_ok_at(tiles, rank, t)
}

/// The arena's child edges form no cycle: some rank assignment orders every
/// container strictly above each of its children.
pub open spec fn acyclic(tiles: Seq<Option<NodeView>>) -> bool {
    exists|rank: Seq<nat>| ranked_tiles(tiles, rank)
}

/// The largest value of a rank assignment.
pub open spec fn seq_nat_max(s: Seq<nat>) -> nat
    decreases s.len(),
{
    if s.len() == 0 {
        0
    } else {
        let m = seq_nat_max(s.drop_last());
        if s.last() > m {
            s.last()
        } else {
            m
        }
    }
}

proof fn lemma_seq_nat_max(s: Seq<nat>)
    ensures
        forall|i: int| 0 <= i < s.len() ==> s[i] <= seq_nat_max(s),
    decreases s.len(),
{
    if s.len() > 0 {
        lemma_seq_nat_max(s.drop_last());
        assert forall|i: int| 0 <= i < s.len() implies s[i] <= seq_nat_max(s) by {
            if i < s.len() - 1 {
                assert(s.drop_last()[i] == s[i]);
            }
        }
    }
}

/// Appending any tile whose children (if it has any) already live in the
/// arena keeps it acyclic: the new tile can simply outrank everything.
proof fn lemma_acyclic_push(tiles: Seq<Option<NodeView>>, node: Option<NodeView>)
    requires
        acyclic(tiles),
        children_bounded(tiles),
        match node {
            Some(NodeView::Container { children, .. }) => forall|i: int|
                0 <= i < children.len() ==> (#[trigger] children[i]).tile < tiles.len(),
            _ => true,
        },
    ensures
        acyclic(tiles.push(node)),
{
    let rank = choose|rank: Seq<nat>| ranked_tiles(tiles, rank);
    lemma_seq_nat_max(rank);
    let r2 = rank.push(seq_nat_max(rank) + 1);
    assert(ranked_tiles(tiles.push(node), r2)) by {
        assert forall|t: int| 0 <= t < tiles.push(node).len()
            implies #[trigger] rank_ok_at(tiles.push(node), r2, t) by {
            if t < tiles.len() {
                assert(rank_ok_at(tiles, rank, t));
                assert(node_children_bounded(tiles, t));
                match tiles[t] {
                    Some(NodeView::Container { children, .. }) => {
                        assert forall|i: int| 0 <= i < children.len()
                            && (#[trigger] children[i]).tile < tiles.push(node).len()
                            implies r2[children[i].tile as int] < r2[t] by {
                            assert(children[i].tile < tiles.len());
                        }
                    },
                    _ => {},
                }
            } else {
                match node {
                    Some(NodeView::Container { children, .. }) => {
                        assert forall|i: int| 0 <= i < children.len()
                            && (#[trigger] children[i]).tile < tiles.push(node).len()
                            implies r2[children[i].tile as int] < r2[t] by {
                            assert(rank[children[i].tile as int] <= seq_nat_max(rank));
                        }
                    },
                    _ => {},
                }
            }
        }
    }
}

/// Appending a fresh pane and hooking it under an existing container keeps
/// the arena acyclic: shift every old rank up and give the pane rank zero.
proof fn lemma_acyclic_append_child(
    tiles: Seq<Option<NodeView>>,
    r: int,
    kind: ContainerKind,
    children: Seq<ChildRef>,
    p: usize,
    share: u32,
)
    requires
        acyclic(tiles),
        children_bounded(tiles),
        tiles.len() <= usize::MAX,
        0 <= r < tiles.len(),
        tiles[r] == Some(NodeView::Container { kind, children }),
    ensures
        acyclic(tiles.push(Some(NodeView::Pane { panel: p })).update(r, Some(NodeView::Container {
            kind,
            children: children.push(ChildRef { tile: tiles.len() as usize, share }),
        }))),
{
    let n = tiles.len() as int;
    let rank = choose|rank: Seq<nat>| ranked_tiles(tiles, rank);
    let r2 = Seq::new((n + 1) as nat, |i: int| if i < n { (rank[i] + 1) as nat } else { 0nat });
    let post = tiles.push(Some(NodeView::Pane { panel: p })).update(r, Some(NodeView::Container {
        kind,
        children: children.push(ChildRef { tile: tiles.len() as usize, share }),
    }));
    assert(ranked_tiles(post, r2)) by {
        assert forall|t: int| 0 <= t < post.len()
            implies #[trigger] rank_ok_at(post, r2, t) by {
            if t == r {
                let cs2 = children.push(ChildRef { tile: tiles.len() as usize, share });
                let ca = match tiles[r] {
                    Some(NodeView::Container { children: ca, .. }) => ca,
                    _ => arbitrary(),
                };
                assert(ca == children);
                assert(rank_ok_at(tiles, rank, t));
                assert(node_children_bounded(tiles, t));
                assert forall|i: int| 0 <= i < cs2.len()
                    && (#[trigger] cs2[i]).tile < post.len()
                    implies r2[cs2[i].tile as int] < r2[t] by {
                    if i < children.len() {
                        assert(ca[i] == children[i]);
                        assert(ca[i].tile < tiles.len());
                        assert(rank[ca[i].tile as int] < rank[r]);
                    } else {
                        assert(cs2[i].tile == tiles.len() as usize);
                    }
                }
            } else if t < n {
                assert(rank_ok_at(tiles, rank, t));
                assert(node_children_bounded(tiles, t));
                match tiles[t] {
                    Some(NodeView::Container { children: cs, .. }) => {
                        assert(post[t] == tiles[t]);
                        assert forall|i: int| 0 <= i < cs.len()
                            && (#[trigger] cs[i]).tile < post.len()
                            implies r2[cs[i].tile as int] < r2[t] by {
                            assert(cs[i].tile < tiles.len());
                            assert(rank[cs[i].tile as int] < rank[t]);
                        }
                    },
                    _ => {},
                }
            } else {
                assert(post[t] == Some(NodeView::Pane { panel: p }));
            }
        }
    }
}

/// A state that only removes tiles or drops container children from an
/// acyclic arena stays acyclic: the old ranks still work.
pub open spec fn node_shrinks_at(a: Seq<Option<NodeView>>, b: Seq<Option<NodeView>>, t: int) -> bool {
    match b[t] {
        Some(NodeView::Container { children: cb, .. }) => match a[t] {
            Some(NodeView::Container { children: ca, .. }) => forall|i: int|
                0 <= i < cb.len() ==> ca.contains(#[trigger] cb[i]),
            _ => false,
        },
        _ => true,
    }
}

pub open spec fn shrinks_to(a: Seq<Option<NodeView>>, b: Seq<Option<NodeView>>) -> bool {
    &&& b.len() == a.len()
    &&& forall|t: int| 0 <= t < b.len() ==> #[trigger] node_shrinks_at(a, b, t)
}

proof fn lemma_acyclic_shrink(a: Seq<Option<NodeView>>, b: Seq<Option<NodeView>>)
    requires
        acyclic(a),
        shrinks_to(a, b),
    ensures
        acyclic(b),
{
    let rank = choose|rank: Seq<nat>| ranked_tiles(a, rank);
    assert(ranked_tiles(b, rank)) by {
        assert forall|t: int| 0 <= t < b.len() implies #[trigger] rank_ok_at(b, rank, t) by {
            assert(node_shrinks_at(a, b, t));
            match b[t] {
                Some(NodeView::Container { children: cb, .. }) => {
                    let ca = match a[t] {
                        Some(NodeView::Container { children: ca, .. }) => ca,
                        _ => arbitrary(),
                    };
                    assert(rank_ok_at(a, rank, t));
                    assert forall|i: int| 0 <= i < cb.len()
                        && (#[trigger] cb[i]).tile < b.len()
                        implies rank[cb[i].tile as int] < rank[t] by {
                        assert(ca.contains(cb[i]));
                        let j = choose|j: int| 0 <= j < ca.len() && ca[j] == cb[i];
                        assert(ca[j].tile < a.len());
                    }
                },
                _ => {},
            }
        }
    }
}

/// Every live pane outranks nothing, so an arena of well-formed panes and
/// containers built bottom-up is acyclic from the start.
proof fn lemma_acyclic_empty()
    ensures
        acyclic(Seq::<Option<NodeView>>::empty()),
{
    assert(ranked_tiles(Seq::<Option<NodeView>>::empty(), Seq::<nat>::empty()));
}

/// A well-formed state's container children are all in range.
proof fn lemma_wf_children_bounded(v: DockView)
    requires
        v.wf(),
    ensures
        children_bounded(v.tiles),
{
    assert forall|t: int| 0 <= t < v.tiles.len()
        implies #[trigger] node_children_bounded(v.tiles, t) by {
        assert(v.node_wf(t));
        match v.tiles[t] {
            Some(NodeView::Container { children, .. }) => {
                assert forall|i: int| 0 <= i < children.len()
                    implies (#[trigger] children[i]).tile < v.tiles.len() by {
                    assert(v.alive(children[i].tile));
                }
            },
            _ => {},
        }
    }
}

/// Appending a pane keeps child references in range.
proof fn lemma_children_bounded_push_pane(tiles: Seq<Option<NodeView>>, p: usize)
    requires
        children_bounded(tiles),
    ensures
        children_bounded(tiles.push(Some(NodeView::Pane { panel: p }))),
{
    let b = tiles.push(Some(NodeView::Pane { panel: p }));
    assert forall|t: int| 0 <= t < b.len()
        implies #[trigger] node_children_bounded(b, t) by {
        if t < tiles.len() {
            assert(node_children_bounded(tiles, t));
            match b[t] {
                Some(NodeView::Container { children, .. }) => {
                    assert forall|i: int| 0 <= i < children.len()
                        implies (#[trigger] children[i]).tile < b.len() by {
                        assert(children[i].tile < tiles.len());
                    }
                },
                _ => {},
            }
        }
    }
}

/// Killing a tile and sweeping it out of every container only shrinks the
/// arena's child edges.
proof fn lemma_kill_sweep_shrinks(tiles: Seq<Option<NodeView>>, dead: usize)
    requires
        dead < tiles.len(),
    ensures
        shrinks_to(tiles, sweep_view(tiles.update(dead as int, None), dead)),
{
    let b = sweep_view(tiles.update(dead as int, None), dead);
    assert forall|t: int| 0 <= t < b.len() implies #[trigger] node_shrinks_at(tiles, b, t) by {
        if t != dead {
            match b[t] {
                Some(NodeView::Container { children: cb, .. }) => {
                    let ca = match tiles[t] {
                        Some(NodeView::Container { children: ca, .. }) => ca,
                        _ => arbitrary(),
                    };
                    assert(cb == remove_refs(ca, dead));
                    lemma_remove_refs_elems(ca, dead);
                    assert forall|i: int| 0 <= i < cb.len()
                        implies ca.contains(#[trigger] cb[i]) by {}
                },
                _ => {},
            }
        }
    }
}

/// Relation between the state before and after a leaf tile `t` was closed.
/// When `t` is not a live pane nothing changes; otherwise exactly `t`'s pane
/// leaves the arena (containers may collapse), every other panel keeps its
/// visibility, and the registry, handle index and request flags are untouched.
pub open spec fn close_tile_rel(pre: DockView, post: DockView, t: usize) -> bool {
    if !(pre.alive(t) && pre.node(t) is Pane) {
        post == pre
    } else {
        &&& post.panels == pre.panels
        &&& post.tile_of == pre.tile_of
        &&& post.tree_built == pre.tree_built
        &&& post.layout_reset_requested == pre.layout_reset_requested
        &&& post.pending_open == pre.pending_open
        &&& post.tiles.len() == pre.tiles.len()
        &&& forall|u: usize, q: usize| post.pane_at(u, q) <==> pre.pane_at(u, q) && u != t
        &&& forall|u: usize| post.alive(u) ==> pre.alive(u)
        &&& (post.root == pre.root || post.root is None)
        &&& match pre.node(t) {
            NodeView::Pane { panel } => {
                &&& !post.is_visible(panel)
                &&& forall|q: usize| q != panel ==> post.is_visible(q) == pre.is_visible(q)
            },
            _ => true,
        }
    }
}

/// Relation between the state before and after `close_panel(id)`: a no-op for
/// an unknown id or a panel with no recorded tile, otherwise the panel's tile
/// is closed as in [`close_tile_rel`].
pub open spec fn close_rel(pre: DockView, post: DockView, id: Seq<char>) -> bool {
    match spec_find_panel(pre.panels, id) {
        None => post == pre,
        Some(p) => match pre.tile_of[p] {
            None => post == pre,
            Some(t) => close_tile_rel(pre, post, t),
        },
    }
}

/// Relation between the state before and after `open_or_focus_panel(id)` for
/// a registered panel `p` that was not visible: a fresh pane for `p` is
/// appended to the arena and hooked under the root. With an empty tree the
/// pane becomes the root; under a container root it is appended as a child
/// with the default share; a pane root is first wrapped together with the new
/// pane in a fresh tabs container.
pub open spec fn open_insert_rel(pre: DockView, post: DockView, p: usize) -> bool {
    let t = pre.tiles.len() as usize;
    let pane = Some(NodeView::Pane { panel: p });
    &&& post.panels == pre.panels
    &&& post.tree_built == pre.tree_built
    &&& post.layout_reset_requested == pre.layout_reset_requested
    &&& post.pending_open == pre.pending_open
    &&& post.tile_of == pre.tile_of.update(p as int, Some(t))
    &&& match pre.root {
        None => {
            &&& post.tiles == pre.tiles.push(pane)
            &&& post.root == Some(t)
        },
        Some(r) => match pre.node(r) {
            NodeView::Container { kind, children } => {
                &&& post.tiles == pre.tiles.push(pane).update(r as int, Some(NodeView::Container {
                    kind,
                    children: children.push(ChildRef { tile: t, share: DEFAULT_SHARE }),
                }))
                &&& post.root == pre.root
            },
            NodeView::Pane { .. } => {
                &&& post.tiles == pre.tiles.push(pane).push(Some(NodeView::Container {
                    kind: ContainerKind::Tabs,
                    children: seq![
                        ChildRef { tile: r, share: DEFAULT_SHARE },
                        ChildRef { tile: t, share: DEFAULT_SHARE },
                    ],
                }))
                &&& post.root == Some((pre.tiles.len() + 1) as usize)
            },
        },
    }
}

/// Relation between the state before and after `open_or_focus_panel(id)`:
/// a no-op for an unknown id, a no-op when the panel is already visible
/// (opening is idempotent), and an insertion as in [`open_insert_rel`]
/// otherwise.
pub open spec fn open_rel(pre: DockView, post: DockView, id: Seq<char>) -> bool {
    match spec_find_panel(pre.panels, id) {
        None => post == pre,
        Some(p) => if pre.is_visible(p as usize) {
            post == pre
        } else {
            open_insert_rel(pre, post, p as usize)
        },
    }
}

/// Copies a child list.
fn copy_children(cs: &Vec<ChildRef>) -> (r: Vec<ChildRef>)
    ensures
        r@ == cs@,
{
    let mut r: Vec<ChildRef> = Vec::new();
    let n = cs.len();
    let mut i: usize = 0;
    while i < n
        invariant
            n == cs.len(),
            i <= n,
            r@ == cs@.subrange(0, i as int),
        decreases n - i,
    {
        r.push(cs[i]);
        proof {
            assert(r@ =~= cs@.subrange(0, i + 1));
        }
        i = i + 1;
    }
    proof {
        assert(cs@.subrange(0, n as int) =~= cs@);
    }
    r
}

/// Copies a child list, dropping every reference to `dead`.
fn filter_children(cs: &Vec<ChildRef>, dead: usize) -> (r: Vec<ChildRef>)
    ensures
        r@ == remove_refs(cs@, dead),
{
    let mut r: Vec<ChildRef> = Vec::new();
    let n = cs.len();
    let mut i: usize = 0;
    while i < n
        invariant
            n == cs.len(),
            i <= n,
            r@ == remove_refs(cs@.subrange(0, i as int), dead),
        decreases n - i,
    {
        proof {
            let q = cs@.subrange(0, i + 1);
            assert(q.drop_last() =~= cs@.subrange(0, i as int));
            assert(q.last() == cs@[i as int]);
        }
        if cs[i].tile != dead {
            r.push(cs[i]);
        }
        i = i + 1;
    }
    proof {
        assert(cs@.subrange(0, n as int) =~= cs@);
    }
    r
}

impl TileLayoutState {
    /// Removes every container child reference to `dead` from the arena.
    fn sweep_child_refs(&mut self, dead: usize)
        ensures
            final(self)@ == (DockView { tiles: sweep_view(old(self)@.tiles, dead), ..old(self)@ }),
    {
        let ghost pre = self@;
        let n = self.tiles.len();
        let mut u: usize = 0;
        while u < n
            invariant
                n == self.tiles.len(),
                u <= n,
                pre.tiles.len() == n,
                self@.panels == pre.panels,
                self@.root == pre.root,
                self@.tile_of == pre.tile_of,
                self@.tree_built == pre.tree_built,
                self@.layout_reset_requested == pre.layout_reset_requested,
                self@.pending_open == pre.pending_open,
                forall|k: int| 0 <= k < u ==> self@.tiles[k] == sweep_view(pre.tiles, dead)[k],
                forall|k: int| u <= k < n ==> self@.tiles[k] == pre.tiles[k],
            decreases n - u,
        {
            let replacement = match &self.tiles[u] {
                Some(LayoutNode::Container { kind, children }) => {
                    let k = *kind;
                    Some(LayoutNode::Container { kind: k, children: filter_children(children, dead) })
                },
                _ => None,
            };
            if let Some(node) = replacement {
                self.tiles[u] = Some(node);
            }
            proof {
                assert(self@.tiles[u as int] == sweep_view(pre.tiles, dead)[u as int]);
            }
            u = u + 1;
        }
        proof {
            assert(self@.tiles =~= sweep_view(pre.tiles, dead));
            assert(self@ =~= (DockView { tiles: sweep_view(pre.tiles, dead), ..pre }));
        }
    }
}

/// Tile `c` is a live container with no children left.
pub open spec fn is_empty_container(v: DockView, c: usize) -> bool {
    v.alive(c) && match v.node(c) {
        NodeView::Container { children, .. } => children.len() == 0,
        _ => false,
    }
}

impl TileLayoutState {
    /// Finds some live container with no children, if one exists.
    fn find_empty_container(&self) -> (r: Option<usize>)
        ensures
            match r {
                Some(c) => is_empty_container(self@, c),
                None => true,
            },
    {
        let n = self.tiles.len();
        let mut u: usize = 0;
        while u < n
            invariant
                n == self.tiles.len(),
                u <= n,
            decreases n - u,
        {
            let hit = match &self.tiles[u] {
                Some(LayoutNode::Container { children, .. }) => children.len() == 0,
                _ => false,
            };
            if hit {
                return Some(u);
            }
            u = u + 1;
        }
        None
    }

    /// Removes live containers that have lost all their children, sweeping
    /// each removed container out of its parents in turn, until none is left.
    fn collapse_empty_containers(&mut self)
        requires
            old(self)@.wf(),
        ensures
            final(self)@.wf(),
            final(self)@.panels == old(self)@.panels,
            final(self)@.tile_of == old(self)@.tile_of,
            final(self)@.tree_built == old(self)@.tree_built,
            final(self)@.layout_reset_requested == old(self)@.layout_reset_requested,
            final(self)@.pending_open == old(self)@.pending_open,
            final(self)@.tiles.len() == old(self)@.tiles.len(),
            forall|u: usize, q: usize| final(self)@.pane_at(u, q) <==> old(self)@.pane_at(u, q),
            forall|u: usize| final(self)@.alive(u) ==> old(self)@.alive(u),
            final(self)@.root == old(self)@.root || final(self)@.root is None,
    {
        let ghost pre = self@;
        loop
            invariant
                self@.wf(),
                self@.panels == pre.panels,
                self@.tile_of == pre.tile_of,
                self@.tree_built == pre.tree_built,
                self@.layout_reset_requested == pre.layout_reset_requested,
                self@.pending_open == pre.pending_open,
                self@.tiles.len() == pre.tiles.len(),
                forall|u: usize, q: usize| self@.pane_at(u, q) <==> pre.pane_at(u, q),
                forall|u: usize| self@.alive(u) ==> pre.alive(u),
                self@.root == pre.root || self@.root is None,
            decreases count_alive(self@.tiles),
        {
            let c = match self.find_empty_container() {
                Some(c) => c,
                None => {
                    break;
                },
            };
            let ghost mid0 = self@;
            self.tiles[c] = None;
            self.sweep_child_refs(c);
            match self.root_tile {
                Some(r) if r == c => {
                    self.root_tile = None;
                },
                _ => {},
            }
            proof {
                let mid = self@;
                lemma_count_alive_kill(mid0.tiles, c as int);
                lemma_count_alive_congruent(
                    sweep_view(mid0.tiles.update(c as int, None), c),
                    mid0.tiles.update(c as int, None),
                );
                assert(mid.tiles =~= sweep_view(mid0.tiles.update(c as int, None), c));
                assert(count_alive(mid.tiles) < count_alive(mid0.tiles));

                // Aliveness changed only at c; panes are untouched.
                assert forall|u: usize| mid.alive(u) implies mid0.alive(u) && u != c by {}
                assert forall|u: usize, q: usize| mid.pane_at(u, q) <==> mid0.pane_at(u, q) by {
                    if mid0.pane_at(u, q) {
                        assert(u != c);
                        assert(mid.tiles[u as int] == mid0.tiles[u as int]);
                    }
                    if mid.pane_at(u, q) {
                        assert(mid0.alive(u));
                    }
                }
                assert(mid.wf()) by {
                    lemma_kill_sweep_shrinks(mid0.tiles, c);
                    lemma_acyclic_shrink(mid0.tiles, sweep_view(mid0.tiles.update(c as int, None), c));
                    assert(acyclic(mid.tiles));
                    assert forall|t: int| 0 <= t < mid.tiles.len() implies mid.node_wf(t) by {
                        match mid.tiles[t] {
                            Some(NodeView::Container { children, .. }) => {
                                let cs0 = match mid0.tiles[t] {
                                    Some(NodeView::Container { children: cs0, .. }) => cs0,
                                    _ => arbitrary(),
                                };
                                assert(mid0.node_wf(t));
                                assert(children == remove_refs(cs0, c));
                                lemma_remove_refs_elems(cs0, c);
                                assert forall|i: int| 0 <= i < children.len()
                                    implies mid.alive(#[trigger] children[i].tile) by {
                                    assert(cs0.contains(children[i]));
                                    assert(mid0.alive(children[i].tile));
                                    assert(children[i].tile != c);
                                }
                            },
                            _ => {},
                        }
                    }
                    assert forall|p: int| 0 <= p < mid.tile_of.len() implies mid.entry_wf(p) by {
                        assert(mid0.entry_wf(p));
                        match mid.tile_of[p] {
                            Some(t) => {
                                if mid.tiles[t as int] is Some {
                                    assert(mid0.alive(t));
                                    assert(mid0.tiles[t as int] == Some(NodeView::Pane { panel: p as usize }));
                                    assert(mid.tiles[t as int] == mid0.tiles[t as int]);
                                }
                            },
                            None => {},
                        }
                    }
                    match mid.root {
                        Some(r) => {
                            assert(r != c);
                            assert(mid0.alive(r));
                        },
                        None => {},
                    }
                }
            }
        }
    }
}

impl TileLayoutState {
    /// Closes a leaf tile: removes the pane from the arena, sweeps it out of
    /// its parent containers and collapses containers left empty. A tile id
    /// that is not a live pane is ignored. The panel itself stays registered
    /// and can be reopened later.
    pub fn hide_tile(&mut self, tile_id: usize)
        requires
            old(self)@.wf(),
        ensures
            final(self)@.wf(),
            close_tile_rel(old(self)@, final(self)@, tile_id),
            old(self)@.handles_resolved() ==> final(self)@.handles_resolved(),
    {
        let ghost pre = self@;
        if tile_id >= self.tiles.len() {
            return;
        }
        let is_pane = match &self.tiles[tile_id] {
            Some(LayoutNode::Pane { .. }) => true,
            _ => false,
        };
        if !is_pane {
            return;
        }
        let ghost p = match pre.node(tile_id) {
            NodeView::Pane { panel } => panel,
            _ => arbitrary(),
        };
        self.tiles[tile_id] = None;
        self.sweep_child_refs(tile_id);
        match self.root_tile {
            Some(r) if r == tile_id => {
                self.root_tile = None;
            },
            _ => {},
        }
        proof {
            let mid = self@;
            assert(mid.tiles =~= sweep_view(pre.tiles.update(tile_id as int, None), tile_id));
            assert forall|u: usize| mid.alive(u) implies pre.alive(u) && u != tile_id by {}
            assert forall|u: usize, q: usize| mid.pane_at(u, q) <==> pre.pane_at(u, q) && u != tile_id by {
                if pre.pane_at(u, q) && u != tile_id {
                    assert(mid.tiles[u as int] == pre.tiles[u as int]);
                }
                if mid.pane_at(u, q) {
                    assert(pre.alive(u));
                }
            }
            assert(mid.wf()) by {
                lemma_kill_sweep_shrinks(pre.tiles, tile_id);
                lemma_acyclic_shrink(pre.tiles, sweep_view(pre.tiles.update(tile_id as int, None), tile_id));
                assert(acyclic(mid.tiles));
                assert forall|t: int| 0 <= t < mid.tiles.len() implies mid.node_wf(t) by {
                    match mid.tiles[t] {
                        Some(NodeView::Container { children, .. }) => {
                            let cs0 = match pre.tiles[t] {
                                Some(NodeView::Container { children: cs0, .. }) => cs0,
                                _ => arbitrary(),
                            };
                            assert(pre.node_wf(t));
                            assert(children == remove_refs(cs0, tile_id));
                            lemma_remove_refs_elems(cs0, tile_id);
                            assert forall|i: int| 0 <= i < children.len()
                                implies mid.alive(#[trigger] children[i].tile) by {
                                assert(cs0.contains(children[i]));
                                assert(pre.alive(children[i].tile));
                                assert(children[i].tile != tile_id);
                            }
                        },
                        _ => {},
                    }
                }
                assert forall|q: int| 0 <= q < mid.tile_of.len() implies mid.entry_wf(q) by {
                    assert(pre.entry_wf(q));
                    match mid.tile_of[q] {
                        Some(t) => {
                            if mid.tiles[t as int] is Some {
                                assert(pre.alive(t));
                                assert(mid.tiles[t as int] == pre.tiles[t as int]);
                            }
                        },
                        None => {},
                    }
                }
                match mid.root {
                    Some(r) => {
                        assert(r != tile_id);
                        assert(pre.alive(r));
                    },
                    None => {},
                }
            }
        }
        let ghost mid = self@;
        self.collapse_empty_containers();
        proof {
            let post = self@;
            assert forall|u: usize, q: usize| post.pane_at(u, q) <==> pre.pane_at(u, q) && u != tile_id by {
                assert(post.pane_at(u, q) <==> mid.pane_at(u, q));
            }
            assert(close_tile_rel(pre, post, tile_id)) by {
                assert(pre.alive(tile_id) && pre.node(tile_id) is Pane);
                assert(pre.node(tile_id) == (NodeView::Pane { panel: p }));
                // The closed panel is no longer visible.
                assert(!post.is_visible(p)) by {
                    if post.is_visible(p) {
                        let tp = post.tile_of[p as int].unwrap();
                        assert(pre.entry_wf(p as int));
                        assert(post.alive(tp));
                        assert(pre.alive(tp));
                        assert(pre.tiles[tp as int] == Some(NodeView::Pane { panel: p }));
                        assert(pre.pane_at(tp, p));
                        assert(pre.pane_at(tile_id, p));
                        assert(tp == tile_id);
                        assert(mid.alive(tp));
                    }
                }
                // Every other panel keeps its visibility.
                assert forall|q: usize| q != p implies post.is_visible(q) == pre.is_visible(q) by {
                    if q < pre.tile_of.len() {
                        match pre.tile_of[q as int] {
                            Some(tq) => {
                                assert(pre.entry_wf(q as int));
                                if pre.alive(tq) {
                                    assert(pre.pane_at(tq, q));
                                    assert(tq != tile_id) by {
                                        if tq == tile_id {
                                            assert(pre.pane_at(tile_id, q));
                                            assert(pre.pane_at(tile_id, p));
                                        }
                                    }
                                    assert(post.pane_at(tq, q));
                                    assert(post.is_visible(q));
                                } else {
                                    if post.is_visible(q) {
                                        assert(post.alive(tq));
                                        assert(pre.alive(tq));
                                    }
                                }
                            },
                            None => {},
                        }
                    }
                }
            }
            assert(pre.handles_resolved() ==> post.handles_resolved()) by {
                if pre.handles_resolved() {
                    assert forall|t: usize, q: usize| post.pane_at(t, q) implies q < post.panels.len() by {
                        assert(pre.pane_at(t, q));
                    }
                }
            }
        }
    }

    /// Closes the panel with the given id by removing its leaf tile from the
    /// tree entirely; unknown ids and panels without a recorded tile are
    /// ignored. The panel handle remains registered for a later reopen.
    pub fn close_panel(&mut self, panel_str_id: &str)
        requires
            old(self)@.wf(),
        ensures
            final(self)@.wf(),
            close_rel(old(self)@, final(self)@, panel_str_id@),
            old(self)@.handles_resolved() ==> final(self)@.handles_resolved(),
    {
        let p = match self.find_panel(panel_str_id) {
            Some(p) => p,
            None => {
                return;
            },
        };
        let t = match self.tile_of[p] {
            Some(t) => t,
            None => {
                return;
            },
        };
        self.hide_tile(t);
    }
}

impl TileLayoutState {
    /// Opens the panel with the given id, or focuses it if it is already
    /// shown. Unknown ids are ignored; a visible panel is left untouched, so
    /// opening is idempotent; otherwise a fresh leaf for the panel's handle is
    /// appended under the current root (or becomes the root of an empty
    /// tree). Always succeeds for a registered id.
    pub fn open_or_focus_panel(&mut self, panel_str_id: &str)
        requires
            old(self)@.wf(),
        ensures
            final(self)@.wf(),
            open_rel(old(self)@, final(self)@, panel_str_id@),
            old(self)@.handles_resolved() ==> final(self)@.handles_resolved(),
    {
        let ghost pre = self@;
        let p = match self.find_panel(panel_str_id) {
            Some(p) => p,
            None => {
                return;
            },
        };
        let visible = match self.tile_of[p] {
            Some(t) => t < self.tiles.len() && self.tiles[t].is_some(),
            None => false,
        };
        if visible {
            return;
        }
        proof {
            // A panel that is not visible has no live pane at all.
            assert forall|u: usize| !pre.pane_at(u, p) by {
                if pre.pane_at(u, p) {
                    assert(pre.tile_of[p as int] == Some(u));
                    assert(pre.is_visible(p));
                }
            }
        }
        let t = self.tiles.len();
        self.tiles.push(Some(LayoutNode::Pane { panel: p }));
        self.tile_of[p] = Some(t);
        let ghost mid = self@;
        proof {
            assert(mid.tiles =~= pre.tiles.push(Some(NodeView::Pane { panel: p })));
            assert(mid.tile_of =~= pre.tile_of.update(p as int, Some(t)));
        }
        match self.root_tile {
            None => {
                self.root_tile = Some(t);
                proof {
                    let post = self@;
                    assert(open_insert_rel(pre, post, p));
                    assert(post.wf()) by {
                        lemma_wf_children_bounded(pre);
                        lemma_acyclic_push(pre.tiles, Some(NodeView::Pane { panel: p }));
                        assert(acyclic(post.tiles));
                        assert forall|u: int| 0 <= u < post.tiles.len() implies post.node_wf(u) by {
                            if u < pre.tiles.len() {
                                assert(pre.node_wf(u));
                                assert(forall|x: usize| pre.alive(x) ==> post.alive(x));
                            }
                        }
                        assert forall|q: int| 0 <= q < post.tile_of.len() implies post.entry_wf(q) by {
                            if q != p {
                                assert(pre.entry_wf(q));
                            }
                        }
                        assert forall|u: usize, q: usize| post.pane_at(u, q) && u != t
                            implies pre.pane_at(u, q) by {}
                    }
                            assert forall|u: usize, q: usize| post.pane_at(u, q) && u != t
                                implies pre.pane_at(u, q) by {}
                            assert(pre.handles_resolved() ==> post.handles_resolved()) by {
                                if pre.handles_resolved() {
                                    assert forall|u: usize, q: usize| post.pane_at(u, q)
                                        implies q < post.panels.len() by {
                                        if u != t {
                                            assert(pre.pane_at(u, q));
                                        }
                                    }
                                }
                            }

                }
            },
            Some(r) => {
                let replacement = match &self.tiles[r] {
                    Some(LayoutNode::Container { kind, children }) => {
                        let k = *kind;
                        let mut cs = copy_children(children);
                        cs.push(ChildRef { tile: t, share: DEFAULT_SHARE });
                        Some(LayoutNode::Container { kind: k, children: cs })
                    },
                    _ => None,
                };
                match replacement {
                    Some(node) => {
                        self.tiles[r] = Some(node);
                        proof {
                            let post = self@;
                            let kind0 = match pre.node(r) {
                                NodeView::Container { kind, .. } => kind,
                                _ => arbitrary(),
                            };
                            let cs0 = match pre.node(r) {
                                NodeView::Container { children, .. } => children,
                                _ => arbitrary(),
                            };
                            assert(post.tiles =~= pre.tiles.push(Some(NodeView::Pane { panel: p }))
                                .update(r as int, Some(NodeView::Container {
                                    kind: kind0,
                                    children: cs0.push(ChildRef { tile: t, share: DEFAULT_SHARE }),
                                })));
                            assert(open_insert_rel(pre, post, p));
                            assert(post.wf()) by {
                                lemma_wf_children_bounded(pre);
                                assert(pre.tiles.len() <= usize::MAX) by {
                                    assert(pre.tiles.len() == t);
                                }
                                lemma_acyclic_append_child(pre.tiles, r as int, kind0, cs0, p, DEFAULT_SHARE);
                                assert(acyclic(post.tiles));
                                assert forall|u: int| 0 <= u < post.tiles.len() implies post.node_wf(u) by {
                                    assert(forall|x: usize| pre.alive(x) ==> post.alive(x));
                                    assert(post.alive(t));
                                    if u == r {
                                        assert(pre.node_wf(u));
                                        let cs1 = cs0.push(ChildRef { tile: t, share: DEFAULT_SHARE });
                                        assert forall|i: int| 0 <= i < cs1.len()
                                            implies post.alive(#[trigger] cs1[i].tile) by {
                                            if i < cs0.len() {
                                                assert(pre.alive(cs0[i].tile));
                                            }
                                        }
                                    } else if u < pre.tiles.len() {
                                        assert(pre.node_wf(u));
                                    }
                                }
                                assert forall|q: int| 0 <= q < post.tile_of.len() implies post.entry_wf(q) by {
                                    if q != p {
                                        assert(pre.entry_wf(q));
                                        match pre.tile_of[q] {
                                            Some(tq) => {
                                                if tq != r && tq != t {
                                                    assert(post.tiles[tq as int] == pre.tiles[tq as int]);
                                                } else if tq == r {
                                                    // The entry's tile is the root container:
                                                    // it was already live and not a pane, which
                                                    // the old entry invariant rules out.
                                                    assert(pre.tiles[tq as int] is Some);
                                                    assert(pre.tiles[tq as int] == Some(NodeView::Pane { panel: q as usize }));
                                                    assert(false);
                                                } else {
                                                    assert(tq < pre.tiles.len());
                                                    assert(false);
                                                }
                                            },
                                            None => {},
                                        }
                                    }
                                }
                                assert forall|u: usize, q: usize| post.pane_at(u, q) && u != t
                                    implies pre.pane_at(u, q) by {}
                            }
                            assert forall|u: usize, q: usize| post.pane_at(u, q) && u != t
                                implies pre.pane_at(u, q) by {}
                            assert(pre.handles_resolved() ==> post.handles_resolved()) by {
                                if pre.handles_resolved() {
                                    assert forall|u: usize, q: usize| post.pane_at(u, q)
                                        implies q < post.panels.len() by {
                                        if u != t {
                                            assert(pre.pane_at(u, q));
                                        }
                                    }
                                }
                            }

                        }
                    },
                    None => {
                        // The root is a pane: wrap it and the fresh pane in tabs.
                        let c = self.tiles.len();
                        let mut cs: Vec<ChildRef> = Vec::new();
                        cs.push(ChildRef { tile: r, share: DEFAULT_SHARE });
                        cs.push(ChildRef { tile: t, share: DEFAULT_SHARE });
                        self.tiles.push(Some(LayoutNode::Container { kind: ContainerKind::Tabs, children: cs }));
                        self.root_tile = Some(c);
                        proof {
                            let post = self@;
                            assert(cs@ =~= seq![
                                ChildRef { tile: r, share: DEFAULT_SHARE },
                                ChildRef { tile: t, share: DEFAULT_SHARE },
                            ]);
                            assert(post.tiles =~= pre.tiles.push(Some(NodeView::Pane { panel: p }))
                                .push(Some(NodeView::Container {
                                    kind: ContainerKind::Tabs,
                                    children: seq![
                                        ChildRef { tile: r, share: DEFAULT_SHARE },
                                        ChildRef { tile: t, share: DEFAULT_SHARE },
                                    ],
                                })));
                            assert(open_insert_rel(pre, post, p));
                            assert(post.wf()) by {
                                lemma_wf_children_bounded(pre);
                                lemma_acyclic_push(pre.tiles, Some(NodeView::Pane { panel: p }));
                                lemma_children_bounded_push_pane(pre.tiles, p);
                                lemma_acyclic_push(pre.tiles.push(Some(NodeView::Pane { panel: p })),
                                    Some(NodeView::Container {
                                        kind: ContainerKind::Tabs,
                                        children: seq![
                                            ChildRef { tile: r, share: DEFAULT_SHARE },
                                            ChildRef { tile: t, share: DEFAULT_SHARE },
                                        ],
                                    }));
                                assert(acyclic(post.tiles));
                                assert forall|u: int| 0 <= u < post.tiles.len() implies post.node_wf(u) by {
                                    assert(forall|x: usize| pre.alive(x) ==> post.alive(x));
                                    assert(post.alive(t));
                                    assert(post.alive(r));
                                    if u < pre.tiles.len() {
                                        assert(pre.node_wf(u));
                                    }
                                }
                                assert forall|q: int| 0 <= q < post.tile_of.len() implies post.entry_wf(q) by {
                                    if q != p {
                                        assert(pre.entry_wf(q));
                                        match pre.tile_of[q] {
                                            Some(tq) => {
                                                assert(tq < pre.tiles.len());
                                                assert(post.tiles[tq as int] == pre.tiles[tq as int]);
                                            },
                                            None => {},
                                        }
                                    }
                                }
                                assert forall|u: usize, q: usize| post.pane_at(u, q) && u != t
                                    implies pre.pane_at(u, q) by {}
                            }
                            assert forall|u: usize, q: usize| post.pane_at(u, q) && u != t
                                implies pre.pane_at(u, q) by {}
                            assert(pre.handles_resolved() ==> post.handles_resolved()) by {
                                if pre.handles_resolved() {
                                    assert forall|u: usize, q: usize| post.pane_at(u, q)
                                        implies q < post.panels.len() by {
                                        if u != t {
                                            assert(pre.pane_at(u, q));
                                        }
                                    }
                                }
                            }

                        }
                    },
                }
            },
        }
    }
}

impl Clone for Panel {
    /// A copy carrying the same id, title and flags.
    fn clone(&self) -> (r: Self)
        ensures
            r@ == self@,
    {
        Panel {
            id: self.id.clone(),
            title: self.title.clone(),
            closable: self.closable,
            default_visible: self.default_visible,
        }
    }
}

impl Clone for LayoutNode {
    /// A copy modelling the same node.
    fn clone(&self) -> (r: Self)
        ensures
            node_view(r) == node_view(*self),
    {
        match self {
            LayoutNode::Pane { panel } => LayoutNode::Pane { panel: *panel },
            LayoutNode::Container { kind, children } => LayoutNode::Container {
                kind: *kind,
                children: copy_children(children),
            },
        }
    }
}

/// Copies an arena.
fn copy_tiles(ts: &Vec<Option<LayoutNode>>) -> (r: Vec<Option<LayoutNode>>)
    ensures
        tiles_view(r@) == tiles_view(ts@),
{
    let mut r: Vec<Option<LayoutNode>> = Vec::new();
    let n = ts.len();
    let mut i: usize = 0;
    while i < n
        invariant
            n == ts.len(),
            i <= n,
            r@.len() == i,
            forall|k: int| 0 <= k < i ==> tiles_view(r@)[k] == tiles_view(ts@)[k],
        decreases n - i,
    {
        let copy = match &ts[i] {
            Some(node) => Some(node.clone()),
            None => None,
        };
        r.push(copy);
        i = i + 1;
    }
    proof {
        assert(tiles_view(r@) =~= tiles_view(ts@));
    }
    r
}

/// Copies a handle-to-tile index.
fn copy_tile_of(ts: &Vec<Option<usize>>) -> (r: Vec<Option<usize>>)
    ensures
        r@ == ts@,
{
    let mut r: Vec<Option<usize>> = Vec::new();
    let n = ts.len();
    let mut i: usize = 0;
    while i < n
        invariant
            n == ts.len(),
            i <= n,
            r@ == ts@.subrange(0, i as int),
        decreases n - i,
    {
        r.push(ts[i]);
        proof {
            assert(r@ =~= ts@.subrange(0, i + 1));
        }
        i = i + 1;
    }
    proof {
        assert(ts@.subrange(0, n as int) =~= ts@);
    }
    r
}

impl Clone for LayoutSnapshot {
    /// A copy modelling the same snapshot.
    fn clone(&self) -> (r: Self)
        ensures
            r@ == self@,
    {
        let r = LayoutSnapshot {
            tiles: copy_tiles(&self.tiles),
            root: self.root,
            tile_of: copy_tile_of(&self.tile_of),
        };
        proof {
            assert(r@ =~= self@);
        }
        r
    }
}

/// The serialized form of the layout: the arena and root of the tree, plus
/// the map from each leaf's numeric handle at save time to the panel's stable
/// string id. Handles are not portable across runs; ids are.
#[derive(Debug)]
pub struct LayoutDocument {
    pub tiles: Vec<Option<LayoutNode>>,
    pub root: Option<usize>,
    /// Panel id per handle: `names[h]` names the panel that handle `h` meant.
    pub names: Vec<String>,
}

/// Mathematical model of a [`LayoutDocument`].
#[verifier::ext_equal]
pub struct DocView {
    pub tiles: Seq<Option<NodeView>>,
    pub root: Option<usize>,
    pub names: Seq<Seq<char>>,
}

impl View for LayoutDocument {
    type V = DocView;

    open spec fn view(&self) -> DocView {
        DocView { tiles: tiles_view(self.tiles@), root: self.root, names: strings_view(self.names@) }
    }
}

/// Tile `t` of an arena is a pane showing panel `p`.
pub open spec fn pane_in(ts: Seq<Option<NodeView>>, t: usize, p: usize) -> bool {
    t < ts.len() && ts[t as int] == Some(NodeView::Pane { panel: p })
}

/// No two panes of the arena show the same panel.
pub open spec fn panes_unique(ts: Seq<Option<NodeView>>) -> bool {
    forall|t1: usize, t2: usize, p: usize| pane_in(ts, t1, p) && pane_in(ts, t2, p) ==> t1 == t2
}

/// Structural validity of one document slot.
pub open spec fn doc_node_wf(tiles: Seq<Option<NodeView>>, t: int) -> bool {
    match tiles[t] {
        Some(NodeView::Container { children, .. }) => forall|i: int|
            0 <= i < children.len() ==> #[trigger] children[i].tile < tiles.len()
                && tiles[children[i].tile as int] is Some,
        _ => true,
    }
}

/// Structural validity of a document: the root and all container children
/// refer to live slots of the document's arena.
pub open spec fn doc_wf(d: DocView) -> bool {
    &&& match d.root {
        Some(r) => r < d.tiles.len() && d.tiles[r as int] is Some,
        None => true,
    }
    &&& forall|t: int| 0 <= t < d.tiles.len() ==> doc_node_wf(d.tiles, t)
    &&& acyclic(d.tiles)
}

/// The saved pane at slot `t`, if there is one, carries a name that
/// resolves in the current registry.
pub open spec fn pane_name_resolved_at(panels: Seq<PanelView>, d: DocView, t: int) -> bool {
    match d.tiles[t] {
        Some(NodeView::Pane { panel }) => panel < d.names.len()
            && spec_find_panel(panels, d.names[panel as int]) is Some,
        _ => true,
    }
}

/// Every saved pane's name resolves in the current registry. A document
/// naming a panel that is no longer registered would leave a dangling leaf
/// in the live tree, so the loader rejects it.
pub open spec fn names_resolved(panels: Seq<PanelView>, d: DocView) -> bool {
    forall|t: int| 0 <= t < d.tiles.len() ==> #[trigger] pane_name_resolved_at(panels, d, t)
}

/// The handle a saved pane handle is remapped to on load: the saved handle
/// is translated through its saved panel id to the current registry. On a
/// document the loader accepts every name resolves; the fallback keeps the
/// saved handle.
pub open spec fn remap_pane(panels: Seq<PanelView>, names: Seq<Seq<char>>, q: usize) -> usize {
    if q < names.len() {
        match spec_find_panel(panels, names[q as int]) {
            Some(h) => h as usize,
            None => q,
        }
    } else {
        q
    }
}

/// The document arena with every pane handle remapped to the current registry.
pub open spec fn remap_tiles(panels: Seq<PanelView>, d: DocView) -> Seq<Option<NodeView>> {
    Seq::new(d.tiles.len(), |t: int| match d.tiles[t] {
        Some(NodeView::Pane { panel }) => Some(NodeView::Pane {
            panel: remap_pane(panels, d.names, panel),
        }),
        other => other,
    })
}

/// The tile showing panel `p`, if one exists (unique when panes are unique).
pub open spec fn spec_tile_for(ts: Seq<Option<NodeView>>, p: usize) -> Option<usize> {
    if exists|t: usize| #[trigger] pane_in(ts, t, p) {
        Some(choose|t: usize| #[trigger] pane_in(ts, t, p))
    } else {
        None
    }
}

/// Whether a document is accepted by `load_layout` against this state:
/// structurally valid and cycle-free, every saved name resolving in the
/// current registry, and no two remapped panes colliding on one panel.
pub open spec fn spec_load_ok(v: DockView, d: DocView) -> bool {
    doc_wf(d) && names_resolved(v.panels, d) && panes_unique(remap_tiles(v.panels, d))
}

/// The state after a document was loaded: the remapped arena and its root
/// replace the tree, the handle index is rebuilt from the remapped panes, and
/// the tree counts as built. The registry and request flags are untouched.
pub open spec fn spec_load(v: DockView, d: DocView) -> DockView {
    let ts = remap_tiles(v.panels, d);
    DockView {
        tiles: ts,
        root: d.root,
        tile_of: Seq::new(v.panels.len(), |p: int| spec_tile_for(ts, p as usize)),
        tree_built: true,
        ..v
    }
}

/// The document `save_layout` produces: the tree as it stands, and the id of
/// every registered panel under its current handle.
pub open spec fn spec_save(v: DockView) -> DocView {
    DocView {
        tiles: v.tiles,
        root: v.root,
        names: Seq::new(v.panels.len(), |i: int| v.panels[i].id),
    }
}

impl TileLayoutState {
    /// Serializes the layout: the current tree plus the handle-to-id map that
    /// makes the tree portable across runs. Writing the document to disk is
    /// the host's concern.
    pub fn save_layout(&self) -> (d: LayoutDocument)
        ensures
            d@ == spec_save(self@),
    {
        let mut names: Vec<String> = Vec::new();
        let n = self.panels.len();
        let mut i: usize = 0;
        while i < n
            invariant
                n == self.panels.len(),
                i <= n,
                names@.len() == i,
                forall|k: int| 0 <= k < i ==> names@[k]@ == self@.panels[k].id,
            decreases n - i,
        {
            names.push(self.panels[i].id.clone());
            i = i + 1;
        }
        let d = LayoutDocument { tiles: copy_tiles(&self.tiles), root: self.root_tile, names };
        proof {
            assert(d@ =~= spec_save(self@));
        }
        d
    }

    /// Takes a snapshot of the current tree and handle index for undo/redo.
    pub fn snapshot(&self) -> (s: LayoutSnapshot)
        ensures
            s@.tiles == self@.tiles,
            s@.root == self@.root,
            s@.tile_of == self@.tile_of,
    {
        LayoutSnapshot {
            tiles: copy_tiles(&self.tiles),
            root: self.root_tile,
            tile_of: copy_tile_of(&self.tile_of),
        }
    }

    /// Restores a snapshot taken earlier: the tree and handle index are
    /// replaced wholesale; the registry and request flags are untouched.
    pub fn restore_snapshot(&mut self, s: LayoutSnapshot)
        ensures
            final(self)@ == (DockView {
                tiles: s@.tiles,
                root: s@.root,
                tile_of: s@.tile_of,
                ..old(self)@
            }),
    {
        self.tiles = s.tiles;
        self.root_tile = s.root;
        self.tile_of = s.tile_of;
        proof {
            assert(self@ =~= (DockView { tiles: s@.tiles, root: s@.root, tile_of: s@.tile_of, ..old(self)@ }));
        }
    }

    /// Queues a request to open the panel with this id; the host services the
    /// queue once per frame so the edit can be recorded for undo.
    pub fn request_open_panel(&mut self, panel_str_id: &str)
        ensures
            final(self)@ == (DockView {
                pending_open: old(self)@.pending_open.push(panel_str_id@),
                ..old(self)@
            }),
    {
        self.pending_open_requests.push(panel_str_id.to_owned());
        proof {
            assert(strings_view(self.pending_open_requests@)
                =~= old(self)@.pending_open.push(panel_str_id@));
            assert(self@ =~= (DockView {
                pending_open: old(self)@.pending_open.push(panel_str_id@),
                ..old(self)@
            }));
        }
    }

    /// Hands back the queued open requests and clears the queue.
    pub fn take_open_requests(&mut self) -> (r: Vec<String>)
        ensures
            strings_view(r@) == old(self)@.pending_open,
            final(self)@ == (DockView { pending_open: Seq::empty(), ..old(self)@ }),
    {
        let mut r: Vec<String> = Vec::new();
        core::mem::swap(&mut r, &mut self.pending_open_requests);
        proof {
            assert(strings_view(Seq::<String>::empty()) =~= Seq::<Seq<char>>::empty());
            assert(self@ =~= (DockView { pending_open: Seq::empty(), ..old(self)@ }));
        }
        r
    }
}

/// One rebuilt handle-index entry is correct for the scan prefix `0..u`:
/// a recorded tile is a pane of the panel below `u`, and an empty entry means
/// no pane of the panel occurs below `u`.
pub open spec fn tile_entry_ok(ts: Seq<Option<NodeView>>, entry: Option<usize>, k: int, u: usize) -> bool {
    match entry {
        Some(x) => pane_in(ts, x, k as usize) && x < u,
        None => forall|w: usize| w < u ==> !#[trigger] pane_in(ts, w, k as usize),
    }
}

/// Tile `t` can be ranked now: it is absent, a pane, or a container whose
/// in-range children are all ranked.
pub open spec fn spec_markable(tv: Seq<Option<NodeView>>, done: Seq<bool>, t: int) -> bool {
    match tv[t] {
        Some(NodeView::Container { children, .. }) => forall|i: int|
            0 <= i < children.len() ==> ((#[trigger] children[i]).tile < tv.len()
                ==> done[children[i].tile as int]),
        _ => true,
    }
}

/// Number of unranked slots.
pub open spec fn count_false(s: Seq<bool>) -> nat
    decreases s.len(),
{
    if s.len() == 0 {
        0
    } else {
        count_false(s.drop_last()) + (if s.last() { 0nat } else { 1nat })
    }
}

proof fn lemma_count_false_mark(s: Seq<bool>, i: int)
    requires
        0 <= i < s.len(),
        !s[i],
    ensures
        count_false(s.update(i, true)) + 1 == count_false(s),
    decreases s.len(),
{
    let u = s.update(i, true);
    if i == s.len() - 1 {
        assert(u.drop_last() =~= s.drop_last());
    } else {
        assert(u.drop_last() =~= s.drop_last().update(i, true));
        lemma_count_false_mark(s.drop_last(), i);
        assert(u.last() == s.last());
    }
}

proof fn lemma_count_false_all(s: Seq<bool>)
    requires
        forall|i: int| 0 <= i < s.len() ==> !s[i],
    ensures
        count_false(s) == s.len(),
    decreases s.len(),
{
    if s.len() > 0 {
        assert(forall|i: int| 0 <= i < s.drop_last().len() ==> !s.drop_last()[i]);
        lemma_count_false_all(s.drop_last());
    }
}

proof fn lemma_count_false_zero(s: Seq<bool>)
    requires
        count_false(s) == 0,
    ensures
        forall|i: int| 0 <= i < s.len() ==> s[i],
    decreases s.len(),
{
    if s.len() > 0 {
        lemma_count_false_zero(s.drop_last());
        assert forall|i: int| 0 <= i < s.len() implies s[i] by {
            if i < s.len() - 1 {
                assert(s.drop_last()[i]);
            }
        }
    }
}

proof fn lemma_count_false_pos(s: Seq<bool>)
    requires
        count_false(s) > 0,
    ensures
        exists|i: int| 0 <= i < s.len() && !s[i],
    decreases s.len(),
{
    if s.len() > 0 {
        if !s.last() {
            assert(!s[s.len() - 1]);
        } else {
            lemma_count_false_pos(s.drop_last());
            let i = choose|i: int| 0 <= i < s.drop_last().len() && !s.drop_last()[i];
            assert(!s[i]);
        }
    }
}

/// Among the unranked slots there is one of minimal rank.
proof fn lemma_undone_min(done: Seq<bool>, rank: Seq<nat>) -> (t: int)
    requires
        rank.len() == done.len(),
        exists|t: int| 0 <= t < done.len() && !done[t],
    ensures
        0 <= t < done.len(),
        !done[t],
        forall|u: int| 0 <= u < done.len() && !done[u] ==> rank[t] <= rank[u],
    decreases done.len(),
{
    let n = done.len() as int;
    if exists|t: int| 0 <= t < n - 1 && !done[t] {
        assert(exists|t: int| 0 <= t < done.drop_last().len() && !done.drop_last()[t]) by {
            let t0 = choose|t: int| 0 <= t < n - 1 && !done[t];
            assert(!done.drop_last()[t0]);
        }
        let tm = lemma_undone_min(done.drop_last(), rank.drop_last());
        if !done[n - 1] && rank[n - 1] < rank[tm] {
            assert forall|u: int| 0 <= u < n && !done[u] implies rank[n - 1] <= rank[u] by {
                if u < n - 1 {
                    assert(!done.drop_last()[u]);
                }
            }
            n - 1
        } else {
            assert(!done[tm]);
            assert forall|u: int| 0 <= u < n && !done[u] implies rank[tm] <= rank[u] by {
                if u < n - 1 {
                    assert(!done.drop_last()[u]);
                }
            }
            tm
        }
    } else {
        let t0 = choose|t: int| 0 <= t < n && !done[t];
        assert(t0 == n - 1);
        n - 1
    }
}

/// A stuck unranked container has an unranked in-range child of smaller
/// rank under any rank assignment.
proof fn lemma_stuck_has_smaller(tv: Seq<Option<NodeView>>, done: Seq<bool>, rank: Seq<nat>, t: int) -> (c: int)
    requires
        ranked_tiles(tv, rank),
        done.len() == tv.len(),
        0 <= t < done.len(),
        !done[t],
        !spec_markable(tv, done, t),
    ensures
        0 <= c < done.len(),
        !done[c],
        rank[c] < rank[t],
{
    match tv[t] {
        Some(NodeView::Container { children, .. }) => {
            let i = choose|i: int| 0 <= i < children.len()
                && !((#[trigger] children[i]).tile < tv.len() ==> done[children[i].tile as int]);
            let c = children[i].tile as int;
            assert(0 <= c < done.len() && !done[c]);
            assert(rank_ok_at(tv, rank, t));
            assert(rank[c] < rank[t]);
            c
        },
        _ => {
            assert(spec_markable(tv, done, t));
            0
        },
    }
}

/// At a saturation fixpoint with unranked slots left, no rank assignment
/// exists: the unranked slot of minimal rank would need an unranked child of
/// even smaller rank.
proof fn lemma_no_rank_at_fixpoint(tv: Seq<Option<NodeView>>, done: Seq<bool>)
    requires
        done.len() == tv.len(),
        exists|t: int| 0 <= t < done.len() && !done[t],
        forall|t: int| 0 <= t < done.len() && !done[t] ==> !spec_markable(tv, done, t),
    ensures
        !acyclic(tv),
{
    if acyclic(tv) {
        let rank = choose|rank: Seq<nat>| ranked_tiles(tv, rank);
        let t = lemma_undone_min(done, rank);
        let c = lemma_stuck_has_smaller(tv, done, rank, t);
        assert(rank[t] <= rank[c]);
        assert(false);
    }
}

/// Decides whether the arena's child edges can be ranked, by saturation: a
/// pass marks every tile whose in-range children are already marked, until
/// nothing changes. Everything marked yields a rank assignment in marking
/// order; a stuck residue means a cycle.
fn check_acyclic(tiles: &Vec<Option<LayoutNode>>) -> (r: bool)
    ensures
        r == acyclic(tiles_view(tiles@)),
{
    let ghost tv = tiles_view(tiles@);
    let n = tiles.len();
    let mut done: Vec<bool> = Vec::new();
    let mut k: usize = 0;
    while k < n
        invariant
            k <= n,
            done@.len() == k,
            forall|i: int| 0 <= i < k ==> !done@[i],
        decreases n - k,
    {
        done.push(false);
        k = k + 1;
    }
    let mut undone: usize = n;
    let ghost mut rank: Seq<nat> = Seq::new(n as nat, |i: int| 0nat);
    let ghost mut counter: nat = 0;
    proof {
        lemma_count_false_all(done@);
    }
    let mut progress = true;
    while progress
        invariant
            n == tiles.len(),
            tv == tiles_view(tiles@),
            done@.len() == n,
            rank.len() == n,
            undone == count_false(done@),
            forall|t: int| 0 <= t < n && done@[t] ==> rank[t] < counter,
            forall|t: int| 0 <= t < n && #[trigger] done@[t] ==> match tv[t] {
                Some(NodeView::Container { children, .. }) => forall|i: int|
                    0 <= i < children.len() ==> ((#[trigger] children[i]).tile < n
                        ==> done@[children[i].tile as int]
                            && rank[children[i].tile as int] < rank[t]),
                _ => true,
            },
            !progress ==> forall|t: int| 0 <= t < n && !done@[t]
                ==> !spec_markable(tv, done@, t),
        decreases undone + (if progress { 1int } else { 0int }),
    {
        progress = false;
        let ghost undone0 = undone;
        let mut t: usize = 0;
        while t < n
            invariant
                n == tiles.len(),
                tv == tiles_view(tiles@),
                done@.len() == n,
                rank.len() == n,
                undone == count_false(done@),
                undone <= undone0,
                progress ==> undone < undone0,
                forall|u: int| 0 <= u < n && done@[u] ==> rank[u] < counter,
                forall|u: int| 0 <= u < n && #[trigger] done@[u] ==> match tv[u] {
                    Some(NodeView::Container { children, .. }) => forall|i: int|
                        0 <= i < children.len() ==> ((#[trigger] children[i]).tile < n
                            ==> done@[children[i].tile as int]
                                && rank[children[i].tile as int] < rank[u]),
                    _ => true,
                },
                t <= n,
                !progress ==> forall|u: int| 0 <= u < t && !done@[u]
                    ==> !spec_markable(tv, done@, u),
            decreases n - t,
        {
            if !done[t] {
                let markable = match &tiles[t] {
                    None => true,
                    Some(LayoutNode::Pane { .. }) => true,
                    Some(LayoutNode::Container { children, .. }) => {
                        let m = children.len();
                        let mut i: usize = 0;
                        let mut all = true;
                        while i < m && all
                            invariant
                                n == tiles.len(),
                                tv.len() == n,
                                t < n,
                                done@.len() == n,
                                m == children@.len(),
                                match tv[t as int] {
                                    Some(NodeView::Container { children: cs, .. }) => cs == children@,
                                    _ => false,
                                },
                                i <= m,
                                all ==> forall|j: int| 0 <= j < i
                                    ==> ((#[trigger] children@[j]).tile < n
                                        ==> done@[children@[j].tile as int]),
                                !all ==> !spec_markable(tv, done@, t as int),
                            decreases m - i + (if all { 1int } else { 0int }),
                        {
                            let c = children[i].tile;
                            if c < n && !done[c] {
                                proof {
                                    assert(children@[i as int].tile < n
                                        && !done@[children@[i as int].tile as int]);
                                }
                                all = false;
                            } else {
                                i = i + 1;
                            }
                        }
                        all
                    },
                };
                proof {
                    assert(markable == spec_markable(tv, done@, t as int));
                }
                if markable {
                    let ghost done0 = done@;
                    done[t] = true;
                    proof {
                        lemma_count_false_mark(done0, t as int);
                        rank = rank.update(t as int, counter);
                        // No ranked container lists `t`: its children were
                        // all ranked before it was.
                        assert forall|u: int| 0 <= u < n && #[trigger] done@[u] implies match tv[u] {
                            Some(NodeView::Container { children, .. }) => forall|i: int|
                                0 <= i < children.len() ==> ((#[trigger] children[i]).tile < n
                                    ==> done@[children[i].tile as int]
                                        && rank[children[i].tile as int] < rank[u]),
                            _ => true,
                        } by {
                            if u != t {
                                assert(done0[u]);
                                match tv[u] {
                                    Some(NodeView::Container { children, .. }) => {
                                        assert forall|i: int| 0 <= i < children.len()
                                            implies ((#[trigger] children[i]).tile < n
                                                ==> done@[children[i].tile as int]
                                                    && rank[children[i].tile as int] < rank[u]) by {
                                            if children[i].tile < n {
                                                assert(done0[children[i].tile as int]);
                                                assert(children[i].tile != t);
                                            }
                                        }
                                    },
                                    _ => {},
                                }
                            } else {
                                match tv[t as int] {
                                    Some(NodeView::Container { children, .. }) => {
                                        assert forall|i: int| 0 <= i < children.len()
                                            implies ((#[trigger] children[i]).tile < n
                                                ==> done@[children[i].tile as int]
                                                    && rank[children[i].tile as int] < rank[t as int]) by {
                                            if children[i].tile < n {
                                                assert(done0[children[i].tile as int]);
                                                assert(children[i].tile != t);
                                            }
                                        }
                                    },
                                    _ => {},
                                }
                            }
                        }
                        counter = counter + 1;
                    }
                    undone = undone - 1;
                    progress = true;
                }
            }
            t = t + 1;
        }
    }
    if undone == 0 {
        proof {
            lemma_count_false_zero(done@);
            assert(ranked_tiles(tv, rank)) by {
                assert forall|t: int| 0 <= t < tv.len() implies #[trigger] rank_ok_at(tv, rank, t) by {
                    assert(done@[t]);
                }
            }
        }
        true
    } else {
        proof {
            lemma_count_false_pos(done@);
            lemma_no_rank_at_fixpoint(tv, done@);
        }
        false
    }
}

/// Checks a document's structure: root and container children must refer to
/// live slots of the document's own arena.
fn check_doc(doc: &LayoutDocument) -> (r: bool)
    ensures
        r == doc_wf(doc@),
{
    let n = doc.tiles.len();
    match doc.root {
        Some(root) => {
            if root >= n {
                return false;
            }
            if doc.tiles[root].is_none() {
                return false;
            }
        },
        None => {},
    }
    let mut t: usize = 0;
    while t < n
        invariant
            n == doc.tiles.len(),
            t <= n,
            forall|k: int| 0 <= k < t ==> doc_node_wf(doc@.tiles, k),
        decreases n - t,
    {
        match &doc.tiles[t] {
            Some(LayoutNode::Container { children, .. }) => {
                let m = children.len();
                let mut i: usize = 0;
                while i < m
                    invariant
                        n == doc.tiles.len(),
                        t < n,
                        m == children.len(),
                        match doc@.tiles[t as int] {
                            Some(NodeView::Container { children: cs, .. }) => cs == children@,
                            _ => false,
                        },
                        i <= m,
                        forall|k: int| 0 <= k < i ==> #[trigger] children@[k].tile < n
                            && doc@.tiles[children@[k].tile as int] is Some,
                    decreases m - i,
                {
                    let child = children[i].tile;
                    if child >= n {
                        proof {
                            assert(!doc_node_wf(doc@.tiles, t as int));
                        }
                        return false;
                    }
                    if doc.tiles[child].is_none() {
                        proof {
                            assert(!doc_node_wf(doc@.tiles, t as int));
                        }
                        return false;
                    }
                    i = i + 1;
                }
                proof {
                    assert(doc_node_wf(doc@.tiles, t as int));
                }
            },
            _ => {
                proof {
                    assert(doc_node_wf(doc@.tiles, t as int));
                }
            },
        }
        t = t + 1;
    }
    check_acyclic(&doc.tiles)
}

/// Checks that no two panes of an arena show the same panel.
fn check_panes_unique(ts: &Vec<Option<LayoutNode>>) -> (r: bool)
    ensures
        r == panes_unique(tiles_view(ts@)),
{
    let ghost tv = tiles_view(ts@);
    let n = ts.len();
    let mut t1: usize = 0;
    while t1 < n
        invariant
            n == ts.len(),
            tv == tiles_view(ts@),
            t1 <= n,
            forall|a: usize, b: usize, p: usize|
                a < t1 && pane_in(tv, a, p) && pane_in(tv, b, p) && a != b ==> false,
        decreases n - t1,
    {
        let p1 = match &ts[t1] {
            Some(LayoutNode::Pane { panel }) => Some(*panel),
            _ => None,
        };
        if let Some(p1) = p1 {
            let mut t2: usize = t1 + 1;
            while t2 < n
                invariant
                    n == ts.len(),
                    tv == tiles_view(ts@),
                    t1 < t2 <= n,
                    pane_in(tv, t1, p1),
                    forall|b: usize| t1 < b < t2 ==> !pane_in(tv, b, p1),
                decreases n - t2,
            {
                let same = match &ts[t2] {
                    Some(LayoutNode::Pane { panel }) => *panel == p1,
                    _ => false,
                };
                if same {
                    proof {
                        assert(pane_in(tv, t2, p1));
                        assert(!panes_unique(tv));
                    }
                    return false;
                }
                t2 = t2 + 1;
            }
        }
        t1 = t1 + 1;
    }
    proof {
        assert forall|a: usize, b: usize, p: usize|
            pane_in(tv, a, p) && pane_in(tv, b, p) implies a == b by {
            if a != b {
                let lo = if a < b { a } else { b };
                let hi = if a < b { b } else { a };
                assert(lo < t1 && pane_in(tv, lo, p) && pane_in(tv, hi, p) && lo != hi);
            }
        }
    }
    true
}

impl TileLayoutState {
    /// Loads a persisted layout document. Each saved pane handle is remapped
    /// through its saved panel id to the current registry. A document that is
    /// structurally invalid or cyclic, that names a panel that is no longer
    /// registered (a dangling leaf would be left in the tree), or whose
    /// remapped panes would show one panel twice, is rejected and the state
    /// is left unchanged. On success the tree counts as built.
    pub fn load_layout(&mut self, doc: &LayoutDocument) -> (ok: bool)
        requires
            old(self)@.wf(),
        ensures
            final(self)@.wf(),
            ok == spec_load_ok(old(self)@, doc@),
            ok ==> final(self)@ == spec_load(old(self)@, doc@),
            ok ==> final(self)@.handles_resolved(),
            !ok ==> final(self)@ == old(self)@,
    {
        let ghost pre = self@;
        if !check_doc(doc) {
            return false;
        }
        // Every saved pane name must resolve in the current registry.
        let nn = doc.tiles.len();
        let mut t0: usize = 0;
        while t0 < nn
            invariant
                nn == doc.tiles.len(),
                self@ == pre,
                self@.wf(),
                t0 <= nn,
                forall|k: int| 0 <= k < t0 ==> #[trigger] pane_name_resolved_at(pre.panels, doc@, k),
            decreases nn - t0,
        {
            let unresolved = match &doc.tiles[t0] {
                Some(LayoutNode::Pane { panel }) => {
                    let q = *panel;
                    if q >= doc.names.len() {
                        true
                    } else {
                        self.find_panel(doc.names[q].as_str()).is_none()
                    }
                },
                _ => false,
            };
            proof {
                assert(unresolved == !pane_name_resolved_at(pre.panels, doc@, t0 as int));
            }
            if unresolved {
                return false;
            }
            t0 = t0 + 1;
        }
        proof {
            assert(names_resolved(pre.panels, doc@));
        }
        // Remap pane handles through their saved ids to the current registry.
        let dn = doc.tiles.len();
        let mut new_tiles: Vec<Option<LayoutNode>> = Vec::new();
        let mut t: usize = 0;
        while t < dn
            invariant
                dn == doc.tiles.len(),
                t <= dn,
                self@ == pre,
                new_tiles@.len() == t,
                forall|k: int| 0 <= k < t
                    ==> tiles_view(new_tiles@)[k] == remap_tiles(pre.panels, doc@)[k],
            decreases dn - t,
        {
            let copy = match &doc.tiles[t] {
                Some(LayoutNode::Pane { panel }) => {
                    let q = *panel;
                    let h = if q < doc.names.len() {
                        match self.find_panel(doc.names[q].as_str()) {
                            Some(h) => h,
                            None => q,
                        }
                    } else {
                        q
                    };
                    proof {
                        assert(h == remap_pane(pre.panels, doc@.names, q));
                    }
                    Some(LayoutNode::Pane { panel: h })
                },
                Some(LayoutNode::Container { kind, children }) => {
                    let k = *kind;
                    Some(LayoutNode::Container { kind: k, children: copy_children(children) })
                },
                None => None,
            };
            let ghost before = new_tiles@;
            new_tiles.push(copy);
            proof {
                assert(new_tiles@[t as int] == copy);
                assert(tiles_view(new_tiles@)[t as int] == remap_tiles(pre.panels, doc@)[t as int]);
                assert forall|k: int| 0 <= k < t implies tiles_view(new_tiles@)[k]
                    == remap_tiles(pre.panels, doc@)[k] by {
                    assert(new_tiles@[k] == before[k]);
                    assert(tiles_view(before)[k] == remap_tiles(pre.panels, doc@)[k]);
                }
            }
            t = t + 1;
        }
        proof {
            assert(tiles_view(new_tiles@) =~= remap_tiles(pre.panels, doc@));
        }
        if !check_panes_unique(&new_tiles) {
            return false;
        }
        // Commit the remapped tree.
        let ghost ts = tiles_view(new_tiles@);
        self.tiles = new_tiles;
        self.root_tile = doc.root;
        self.tree_built = true;
        // Rebuild the handle index from the remapped panes.
        let n = self.panels.len();
        let mut tile_of: Vec<Option<usize>> = Vec::new();
        let mut p: usize = 0;
        while p < n
            invariant
                p <= n,
                tile_of@.len() == p,
                forall|k: int| 0 <= k < p ==> tile_of@[k] is None,
            decreases n - p,
        {
            tile_of.push(None);
            p = p + 1;
        }
        let tn = self.tiles.len();
        let mut u: usize = 0;
        while u < tn
            invariant
                tn == self.tiles.len(),
                ts == tiles_view(self.tiles@),
                n == tile_of@.len(),
                u <= tn,
                forall|k: int| 0 <= k < n ==> tile_entry_ok(ts, #[trigger] tile_of@[k], k, u),
            decreases tn - u,
        {
            let panel = match &self.tiles[u] {
                Some(LayoutNode::Pane { panel }) => Some(*panel),
                _ => None,
            };
            let ghost old_entries = tile_of@;
            let ghost panel_set_idx: int = match panel {
                Some(q) if q < n => q as int,
                _ => -1,
            };
            match panel {
                Some(q) if q < n => {
                    tile_of[q] = Some(u);
                },
                _ => {},
            }
            proof {
                assert forall|k: int| 0 <= k < n
                    implies tile_entry_ok(ts, #[trigger] tile_of@[k], k, (u + 1) as usize) by {
                    assert(tile_entry_ok(ts, old_entries[k], k, u));
                    match tile_of@[k] {
                        Some(x) => {
                            assert(tile_of@[k] == old_entries[k] || (k == panel_set_idx && x == u));
                        },
                        None => {
                            assert(tile_of@[k] == old_entries[k]);
                            assert forall|w: usize| w < u + 1 implies !#[trigger] pane_in(ts, w, k as usize) by {
                                if w == u {
                                    assert(!pane_in(ts, u, k as usize));
                                }
                            }
                        },
                    }
                }
            }
            u = u + 1;
        }
        self.tile_of = tile_of;
        proof {
            let post = self@;
            let spec_post = spec_load(pre, doc@);
            assert(post.tiles == ts);
            // The rebuilt index matches the specified one entry by entry.
            assert forall|k: int| 0 <= k < n implies post.tile_of[k]
                == spec_tile_for(ts, k as usize) by {
                match post.tile_of[k] {
                    Some(x) => {
                        assert(pane_in(ts, x, k as usize));
                        assert(exists|w: usize| #[trigger] pane_in(ts, w, k as usize));
                        let c = choose|w: usize| #[trigger] pane_in(ts, w, k as usize);
                        assert(panes_unique(ts));
                        assert(c == x);
                    },
                    None => {
                        assert forall|w: usize| !#[trigger] pane_in(ts, w, k as usize) by {
                            if w < tn {
                                assert(!pane_in(ts, w, k as usize));
                            }
                        }
                    },
                }
            }
            assert(post.tile_of =~= spec_post.tile_of);
            assert(post =~= spec_post);
            // Well-formedness of the loaded state.
            assert(post.wf()) by {
                assert(acyclic(doc@.tiles));
                assert(shrinks_to(doc@.tiles, ts)) by {
                    assert forall|x: int| 0 <= x < ts.len()
                        implies #[trigger] node_shrinks_at(doc@.tiles, ts, x) by {
                        match ts[x] {
                            Some(NodeView::Container { children: cb, .. }) => {
                                match doc@.tiles[x] {
                                    Some(NodeView::Container { children: ca, .. }) => {
                                        assert(ca == cb);
                                        assert forall|i: int| 0 <= i < cb.len()
                                            implies ca.contains(#[trigger] cb[i]) by {
                                            assert(ca[i] == cb[i]);
                                        }
                                    },
                                    _ => {},
                                }
                            },
                            _ => {},
                        }
                    }
                }
                lemma_acyclic_shrink(doc@.tiles, ts);
                assert forall|x: int| 0 <= x < post.tiles.len() implies post.node_wf(x) by {
                    assert(doc_node_wf(doc@.tiles, x));
                    match post.tiles[x] {
                        Some(NodeView::Container { children, .. }) => {
                            assert(match doc@.tiles[x] {
                                Some(NodeView::Container { children: cs, .. }) => cs == children,
                                _ => false,
                            });
                            assert forall|i: int| 0 <= i < children.len()
                                implies post.alive(#[trigger] children[i].tile) by {
                                assert(children[i].tile < doc@.tiles.len());
                                assert(doc@.tiles[children[i].tile as int] is Some);
                            }
                        },
                        _ => {},
                    }
                }
                assert forall|k: int| 0 <= k < post.tile_of.len() implies post.entry_wf(k) by {
                    match post.tile_of[k] {
                        Some(x) => {
                            assert(pane_in(ts, x, k as usize));
                        },
                        None => {},
                    }
                }
                match post.root {
                    Some(r) => {
                        assert(doc@.tiles[r as int] is Some);
                    },
                    None => {},
                }
                assert forall|t1: usize, t2: usize, q: usize|
                    post.pane_at(t1, q) && post.pane_at(t2, q) implies t1 == t2 by {
                    assert(pane_in(ts, t1, q));
                    assert(pane_in(ts, t2, q));
                }
                assert forall|x: usize, q: usize| post.pane_at(x, q) && q < post.panels.len()
                    implies post.tile_of[q as int] == Some(x) by {
                    assert(pane_in(ts, x, q));
                    match post.tile_of[q as int] {
                        Some(y) => {
                            assert(pane_in(ts, y, q));
                        },
                        None => {
                            assert(!pane_in(ts, x, q));
                        },
                    }
                }
            }
            // Every remapped pane refers to a registered panel.
            assert(post.handles_resolved()) by {
                assert forall|x: usize, q: usize| post.pane_at(x, q)
                    implies q < post.panels.len() by {
                    assert(ts[x as int] == Some(NodeView::Pane { panel: q }));
                    match doc@.tiles[x as int] {
                        Some(NodeView::Pane { panel: q0 }) => {
                            assert(pane_name_resolved_at(pre.panels, doc@, x as int));
                            assert(q == remap_pane(pre.panels, doc@.names, q0));
                            lemma_find_panel(pre.panels, doc@.names[q0 as int]);
                        },
                        _ => {},
                    }
                }
            }
        }
        true
    }
}

/// Law: `open_or_focus_panel` is idempotent once the panel is visible. After
/// one call on a registered id, a second call produces no structural change.
pub proof fn lemma_open_idempotent(s0: DockView, s1: DockView, s2: DockView, id: Seq<char>)
    requires
        s0.wf(),
        s0.panels.len() <= usize::MAX,
        s0.tiles.len() < usize::MAX,
        spec_find_panel(s0.panels, id) is Some,
        open_rel(s0, s1, id),
        open_rel(s1, s2, id),
    ensures
        s2 == s1,
{
    let p = spec_find_panel(s0.panels, id).unwrap() as usize;
    lemma_find_in_range(s0.panels, id);
    if s0.is_visible(p) {
        assert(s1 == s0);
    } else {
        assert(open_insert_rel(s0, s1, p));
        let t = s0.tiles.len() as usize;
        assert(s1.is_visible(p)) by {
            assert(s1.tile_of[p as int] == Some(t));
            match s0.root {
                None => {
                    assert(s1.alive(t));
                },
                Some(r) => match s0.node(r) {
                    NodeView::Container { .. } => {
                        assert(s1.tiles[t as int] == Some(NodeView::Pane { panel: p }));
                    },
                    NodeView::Pane { .. } => {
                        assert(s1.tiles[t as int] == Some(NodeView::Pane { panel: p }));
                    },
                },
            }
        }
    }
    assert(s1.panels == s0.panels);
    assert(spec_find_panel(s1.panels, id) == spec_find_panel(s0.panels, id));
    assert(s1.is_visible(p));
}

/// The index a panel id resolves to is a valid registry index.
proof fn lemma_find_in_range(ps: Seq<PanelView>, id: Seq<char>)
    requires
        spec_find_panel(ps, id) is Some,
    ensures
        0 <= spec_find_panel(ps, id).unwrap() < ps.len(),
{
    lemma_find_panel(ps, id);
}

/// Law: closing a panel and then opening it again restores it as a visible
/// leaf. The position may differ: reopening appends a fresh pane, it does not
/// restore the original spot.
pub proof fn lemma_close_then_open(s0: DockView, s1: DockView, s2: DockView, id: Seq<char>)
    requires
        s0.wf(),
        s1.wf(),
        s0.panels.len() <= usize::MAX,
        s0.tiles.len() < usize::MAX,
        s1.tiles.len() < usize::MAX,
        spec_find_panel(s0.panels, id) is Some,
        close_rel(s0, s1, id),
        open_rel(s1, s2, id),
    ensures
        ({
            let p = spec_find_panel(s0.panels, id).unwrap() as usize;
            s2.is_visible(p) && exists|t: usize| #[trigger] s2.pane_at(t, p)
        }),
{
    let p = spec_find_panel(s0.panels, id).unwrap() as usize;
    lemma_find_in_range(s0.panels, id);
    assert(s1.panels == s0.panels) by {
        match s0.tile_of[p as int] {
            Some(t) => {
                if s0.alive(t) && s0.node(t) is Pane {
                    assert(close_tile_rel(s0, s1, t));
                } else {
                    assert(s1 == s0);
                }
            },
            None => {
                assert(s1 == s0);
            },
        }
    }
    assert(spec_find_panel(s1.panels, id) == spec_find_panel(s0.panels, id));
    // After the close, the panel is not visible.
    assert(!s1.is_visible(p)) by {
        match s0.tile_of[p as int] {
            Some(t) => {
                if s0.alive(t) && s0.node(t) is Pane {
                    assert(close_tile_rel(s0, s1, t));
                    assert(s0.entry_wf(p as int));
                    assert(s0.node(t) == (NodeView::Pane { panel: p }));
                    assert(!s1.is_visible(p));
                } else {
                    assert(s1 == s0);
                    if s1.is_visible(p) {
                        assert(s0.alive(t));
                        assert(s0.entry_wf(p as int));
                        assert(s0.node(t) is Pane);
                    }
                }
            },
            None => {
                assert(s1 == s0);
            },
        }
    }
    // So the open inserts a fresh pane, which is visible.
    assert(open_insert_rel(s1, s2, p));
    let t = s1.tiles.len() as usize;
    assert(s2.tile_of[p as int] == Some(t));
    assert(s2.tiles[t as int] == Some(NodeView::Pane { panel: p })) by {
        match s1.root {
            None => {},
            Some(r) => match s1.node(r) {
                NodeView::Container { .. } => {},
                NodeView::Pane { .. } => {},
            },
        }
    }
    assert(s2.pane_at(t, p));
    assert(s2.is_visible(p));
}

/// Law: saving and immediately loading, with the panel registry unchanged in
/// between, reproduces an equivalent tree — the same arena (hence the same
/// container topology and shares, since every saved handle remaps to itself),
/// the same root, and the same set of visible panel identities.
pub proof fn lemma_save_load_round_trip(v: DockView)
    requires
        v.wf(),
        v.handles_resolved(),
        v.tiles.len() <= usize::MAX,
    ensures
        spec_load_ok(v, spec_save(v)),
        spec_load(v, spec_save(v)).tiles == v.tiles,
        spec_load(v, spec_save(v)).root == v.root,
        spec_load(v, spec_save(v)).panels == v.panels,
        forall|p: usize| spec_load(v, spec_save(v)).is_visible(p) == v.is_visible(p),
{
    let d = spec_save(v);
    assert forall|q: usize| q < v.panels.len() implies remap_pane(v.panels, d.names, q) == q by {
        lemma_find_panel(v.panels, v.panels[q as int].id);
        match spec_find_panel(v.panels, v.panels[q as int].id) {
            Some(k) => {
                if k != q {
                    assert(v.panels[k].id == v.panels[q as int].id);
                    assert(false);
                }
            },
            None => {
                assert(v.panels[q as int].id != v.panels[q as int].id);
            },
        }
    }
    assert(remap_tiles(v.panels, d) =~= v.tiles) by {
        assert forall|t: int| 0 <= t < v.tiles.len()
            implies remap_tiles(v.panels, d)[t] == v.tiles[t] by {
            match v.tiles[t] {
                Some(NodeView::Pane { panel }) => {
                    assert(v.pane_at(t as usize, panel));
                    assert(panel < v.panels.len());
                },
                _ => {},
            }
        }
    }
    assert(doc_wf(d)) by {
        assert forall|t: int| 0 <= t < d.tiles.len() implies doc_node_wf(d.tiles, t) by {
            assert(v.node_wf(t));
        }
        assert(acyclic(v.tiles));
    }
    assert(names_resolved(v.panels, d)) by {
        assert forall|t: int| 0 <= t < d.tiles.len()
            implies #[trigger] pane_name_resolved_at(v.panels, d, t) by {
            match d.tiles[t] {
                Some(NodeView::Pane { panel }) => {
                    assert(v.pane_at(t as usize, panel));
                    assert(panel < v.panels.len());
                    assert(d.names[panel as int] == v.panels[panel as int].id);
                    lemma_find_panel(v.panels, d.names[panel as int]);
                    match spec_find_panel(v.panels, d.names[panel as int]) {
                        Some(k) => {},
                        None => {
                            assert(v.panels[panel as int].id != d.names[panel as int]);
                        },
                    }
                },
                _ => {},
            }
        }
    }
    assert(panes_unique(remap_tiles(v.panels, d))) by {
        assert forall|t1: usize, t2: usize, p: usize|
            pane_in(v.tiles, t1, p) && pane_in(v.tiles, t2, p) implies t1 == t2 by {
            assert(v.pane_at(t1, p) && v.pane_at(t2, p));
        }
    }
    let l = spec_load(v, d);
    assert forall|p: usize| l.is_visible(p) == v.is_visible(p) by {
        if p < v.panels.len() {
            assert(l.tile_of[p as int] == spec_tile_for(v.tiles, p));
            if v.is_visible(p) {
                let t = v.tile_of[p as int].unwrap();
                assert(v.entry_wf(p as int));
                assert(v.pane_at(t, p));
                assert(pane_in(v.tiles, t, p));
                let c = choose|w: usize| #[trigger] pane_in(v.tiles, w, p);
                assert(pane_in(v.tiles, c, p));
                assert(l.alive(c));
                assert(l.is_visible(p));
            } else {
                if l.is_visible(p) {
                    let c = l.tile_of[p as int].unwrap();
                    assert(pane_in(v.tiles, c, p));
                    assert(v.pane_at(c, p));
                    assert(v.tile_of[p as int] == Some(c));
                    assert(v.is_visible(p));
                }
            }
        }
    }
}

impl TileLayoutState {
    /// Builds the tree on first use: a persisted document, when one is given
    /// and acceptable, wins; otherwise the procedural default layout is
    /// built. A missing or rejected document silently falls back to the
    /// default. Later calls are no-ops.
    pub fn build_tree(&mut self, doc: Option<&LayoutDocument>)
        requires
            old(self)@.wf(),
        ensures
            final(self)@.wf(),
            final(self)@.tree_built,
            old(self)@.tree_built ==> final(self)@ == old(self)@,
            !old(self)@.tree_built ==> match doc {
                Some(d) => if spec_load_ok(old(self)@, d@) {
                    final(self)@ == spec_load(old(self)@, d@)
                } else {
                    default_built_rel((DockView { tree_built: true, ..old(self)@ }), final(self)@)
                },
                None => default_built_rel((DockView { tree_built: true, ..old(self)@ }), final(self)@),
            },
    {
        if self.tree_built {
            return;
        }
        match doc {
            Some(d) => {
                if self.load_layout(d) {
                    return;
                }
            },
            None => {},
        }
        let ghost before = self@;
        self.tree_built = true;
        proof {
            lemma_wf_same_core(before, self@);
        }
        self.build_default_tree();
    }
}

/// Exhibits membership in a tabs container from an index witness.
proof fn lemma_in_tabs_from(post: DockView, c: usize, children: Seq<ChildRef>, i: int, t: usize)
    requires
        post.alive(c),
        post.node(c) == (NodeView::Container { kind: ContainerKind::Tabs, children }),
        0 <= i < children.len(),
        children[i].tile == t,
    ensures
        in_tabs(post, c, t),
{
    let cs = match post.node(c) {
        NodeView::Container { children: cs, .. } => cs,
        _ => arbitrary(),
    };
    assert(cs == children);
    assert(0 <= i < cs.len() && cs[i].tile == t);
    assert(exists|j: int| 0 <= j < cs.len() && cs[j].tile == t) by {
        assert(0 <= i < cs.len() && cs[i].tile == t);
    }
}

/// Tile `t` is a child of the live tabs container `c`.
pub open spec fn in_tabs(v: DockView, c: usize, t: usize) -> bool {
    v.alive(c) && match v.node(c) {
        NodeView::Container { kind: ContainerKind::Tabs, children } =>
            exists|i: int| 0 <= i < children.len() && children[i].tile == t,
        _ => false,
    }
}

/// Appending a container whose children are all alive preserves the
/// invariant, changes no pane and no visibility, and keeps every live node.
proof fn lemma_push_container_wf(pre: DockView, post: DockView, kind: ContainerKind, cs: Seq<ChildRef>)
    requires
        pre.wf(),
        forall|i: int| 0 <= i < cs.len() ==> pre.alive(#[trigger] cs[i].tile),
        post == (DockView {
            tiles: pre.tiles.push(Some(NodeView::Container { kind, children: cs })),
            ..pre
        }),
    ensures
        post.wf(),
        forall|u: usize, q: usize| post.pane_at(u, q) <==> pre.pane_at(u, q),
        forall|u: usize| pre.alive(u) ==> post.alive(u) && post.node(u) == pre.node(u),
        forall|p: usize| post.is_visible(p) == pre.is_visible(p),
{
    assert forall|u: usize, q: usize| post.pane_at(u, q) <==> pre.pane_at(u, q) by {
        if post.pane_at(u, q) {
            if (u as int) < pre.tiles.len() {
                assert(pre.pane_at(u, q));
            } else {
                assert(post.tiles[u as int] == Some(NodeView::Container { kind, children: cs }));
            }
        }
        if pre.pane_at(u, q) {
            assert(post.tiles[u as int] == pre.tiles[u as int]);
        }
    }
    assert forall|t: int| 0 <= t < post.tiles.len() implies post.node_wf(t) by {
        assert(forall|x: usize| pre.alive(x) ==> post.alive(x));
        if t < pre.tiles.len() {
            assert(pre.node_wf(t));
        }
    }
    assert forall|p: int| 0 <= p < post.tile_of.len() implies post.entry_wf(p) by {
        assert(pre.entry_wf(p));
        match pre.tile_of[p] {
            Some(t) => {
                assert(post.tiles[t as int] == pre.tiles[t as int]);
            },
            None => {},
        }
    }
    assert forall|p: usize| post.is_visible(p) == pre.is_visible(p) by {
        if p < pre.tile_of.len() {
            match pre.tile_of[p as int] {
                Some(t) => {
                    assert(pre.entry_wf(p as int));
                    assert(post.tiles[t as int] == pre.tiles[t as int]);
                },
                None => {},
            }
        }
    }
    lemma_wf_children_bounded(pre);
    assert forall|i: int| 0 <= i < cs.len() implies (#[trigger] cs[i]).tile < pre.tiles.len() by {
        assert(pre.alive(cs[i].tile));
    }
    lemma_acyclic_push(pre.tiles, Some(NodeView::Container { kind, children: cs }));
    assert(acyclic(post.tiles));
}

/// A state equal in registry, arena, root and handle index to a well-formed
/// one is well formed.
pub proof fn lemma_wf_same_core(a: DockView, b: DockView)
    requires
        a.wf(),
        b.panels == a.panels,
        b.tiles == a.tiles,
        b.root == a.root,
        b.tile_of == a.tile_of,
    ensures
        b.wf(),
{
    assert forall|t: int| 0 <= t < b.tiles.len() implies b.node_wf(t) by {
        assert(a.node_wf(t));
        match b.tiles[t] {
            Some(NodeView::Container { children, .. }) => {
                assert forall|i: int| 0 <= i < children.len()
                    implies b.alive(#[trigger] children[i].tile) by {
                    assert(a.alive(children[i].tile));
                }
            },
            _ => {},
        }
    }
    assert forall|p: int| 0 <= p < b.tile_of.len() implies b.entry_wf(p) by {
        assert(a.entry_wf(p));
    }
    assert forall|t1: usize, t2: usize, p: usize|
        b.pane_at(t1, p) && b.pane_at(t2, p) implies t1 == t2 by {
        assert(a.pane_at(t1, p) && a.pane_at(t2, p));
    }
    assert forall|t: usize, p: usize| b.pane_at(t, p) && p < b.panels.len()
        implies b.tile_of[p as int] == Some(t) by {
        assert(a.pane_at(t, p));
    }
}

/// Re-pointing the root at a live tile of a well-formed state keeps it well
/// formed.
proof fn lemma_wf_set_root(a: DockView, b: DockView)
    requires
        a.wf(),
        b.panels == a.panels,
        b.tiles == a.tiles,
        b.tile_of == a.tile_of,
        match b.root {
            Some(r) => a.alive(r),
            None => true,
        },
    ensures
        b.wf(),
{
    lemma_wf_same_core(a, DockView { root: a.root, ..b });
    let c = DockView { root: a.root, ..b };
    assert(c.wf());
    assert forall|t: int| 0 <= t < b.tiles.len() implies b.node_wf(t) by {
        assert(c.node_wf(t));
        match b.tiles[t] {
            Some(NodeView::Container { children, .. }) => {
                assert forall|i: int| 0 <= i < children.len()
                    implies b.alive(#[trigger] children[i].tile) by {
                    assert(c.alive(children[i].tile));
                }
            },
            _ => {},
        }
    }
    assert forall|p: int| 0 <= p < b.tile_of.len() implies b.entry_wf(p) by {
        assert(c.entry_wf(p));
    }
    assert forall|t1: usize, t2: usize, p: usize|
        b.pane_at(t1, p) && b.pane_at(t2, p) implies t1 == t2 by {
        assert(c.pane_at(t1, p) && c.pane_at(t2, p));
    }
    assert forall|t: usize, p: usize| b.pane_at(t, p) && p < b.panels.len()
        implies b.tile_of[p as int] == Some(t) by {
        assert(c.pane_at(t, p));
    }
}

/// The facts the default builder carries from the pane-building phase to the
/// finished tree: panes, visibility, the handle index and every live node of
/// `base` survive unchanged, and the arena has only grown by containers.
pub open spec fn builds_on(post: DockView, base: DockView) -> bool {
    &&& post.panels == base.panels
    &&& post.tile_of == base.tile_of
    &&& post.tree_built == base.tree_built
    &&& post.layout_reset_requested == base.layout_reset_requested
    &&& post.pending_open == base.pending_open
    &&& forall|u: usize, q: usize| post.pane_at(u, q) <==> base.pane_at(u, q)
    &&& forall|u: usize| base.alive(u) ==> post.alive(u) && post.node(u) == base.node(u)
    &&& forall|p: usize| post.is_visible(p) == base.is_visible(p)
}

/// The handles of the default-visible panels among the first `n` registered
/// that the id naming convention routes to `slot`, in registry order.
pub open spec fn region_members_upto(panels: Seq<PanelView>, slot: PanelSlot, n: int) -> Seq<int>
    decreases n,
{
    if n <= 0 {
        Seq::empty()
    } else {
        let rest = region_members_upto(panels, slot, n - 1);
        if panels[n - 1].default_visible && spec_classify(panels[n - 1].id) == slot {
            rest.push(n - 1)
        } else {
            rest
        }
    }
}

/// The handles the default builder routes to `slot`, in registry order.
pub open spec fn region_members(panels: Seq<PanelView>, slot: PanelSlot) -> Seq<int> {
    region_members_upto(panels, slot, panels.len() as int)
}

/// Tile `c` is the tabs container of one region: exactly one pane child per
/// routed panel, in registry order, each with one share unit.
pub open spec fn region_tabs_at(post: DockView, c: usize, members: Seq<int>) -> bool {
    post.alive(c) && match post.node(c) {
        NodeView::Container { kind: ContainerKind::Tabs, children } => {
            &&& children.len() == members.len()
            &&& forall|i: int| 0 <= i < children.len()
                ==> (#[trigger] children[i]).share == DEFAULT_SHARE
            &&& forall|i: int| 0 <= i < children.len()
                ==> post.pane_at((#[trigger] children[i]).tile, members[i] as usize)
        },
        _ => false,
    }
}

/// The children of the default layout's horizontal row: the tabs containers
/// of the populated side regions with weight shares 1 : 4 : 1.5, in tenths.
pub open spec fn row_entries(lt: Option<usize>, ct: Option<usize>, rt: Option<usize>) -> Seq<ChildRef> {
    (match lt {
        Some(l) => seq![ChildRef { tile: l, share: 10 }],
        None => Seq::empty(),
    }) + (match ct {
        Some(c) => seq![ChildRef { tile: c, share: 40 }],
        None => Seq::empty(),
    }) + (match rt {
        Some(r) => seq![ChildRef { tile: r, share: 15 }],
        None => Seq::empty(),
    })
}

/// Tile `m` is the main area above the bottom region: the single populated
/// side region's tabs, or a horizontal container of the populated regions.
pub open spec fn is_main_tile(post: DockView, m: usize, row: Seq<ChildRef>) -> bool {
    if row.len() == 1 {
        m == row[0].tile
    } else {
        post.alive(m) && post.node(m) == (NodeView::Container {
            kind: ContainerKind::Horizontal,
            children: row,
        })
    }
}

/// The shape of the finished default layout, with the four regions' tabs
/// tiles named: each populated region has its tabs container; the populated
/// side regions form the row with shares 1 : 4 : 1.5; a populated bottom
/// region splits the tree vertically 4 : 1 below the main area; with no
/// populated region at all the tree is the explicit empty state.
pub open spec fn default_layout_rel(
    pre: DockView,
    post: DockView,
    lt: Option<usize>,
    ct: Option<usize>,
    rt: Option<usize>,
    bt: Option<usize>,
) -> bool {
    let lm = region_members(pre.panels, PanelSlot::Left);
    let cm = region_members(pre.panels, PanelSlot::Center);
    let rm = region_members(pre.panels, PanelSlot::Right);
    let bm = region_members(pre.panels, PanelSlot::Bottom);
    let row = row_entries(lt, ct, rt);
    &&& (lt is Some <==> lm.len() > 0)
    &&& (ct is Some <==> cm.len() > 0)
    &&& (rt is Some <==> rm.len() > 0)
    &&& (bt is Some <==> bm.len() > 0)
    &&& match lt {
        Some(c) => region_tabs_at(post, c, lm),
        None => true,
    }
    &&& match ct {
        Some(c) => region_tabs_at(post, c, cm),
        None => true,
    }
    &&& match rt {
        Some(c) => region_tabs_at(post, c, rm),
        None => true,
    }
    &&& match bt {
        Some(c) => region_tabs_at(post, c, bm),
        None => true,
    }
    &&& if row.len() == 0 {
        match bt {
            None => post.root is None,
            Some(b) => post.root == Some(b),
        }
    } else {
        match bt {
            None => match post.root {
                Some(m) => is_main_tile(post, m, row),
                None => false,
            },
            Some(b) => match post.root {
                Some(r) => post.alive(r) && exists|m: usize| is_main_tile(post, m, row)
                    && post.node(r) == (NodeView::Container {
                        kind: ContainerKind::Vertical,
                        children: seq![
                            ChildRef { tile: m, share: 40 },
                            ChildRef { tile: b, share: 10 },
                        ],
                    }),
                None => false,
            },
        }
    }
}

/// How many tiles the default builder makes: one pane per routed panel, one
/// tabs container per populated region, the row when at least two side
/// regions are populated, and the vertical split when the bottom region
/// joins a populated main area.
pub open spec fn spec_default_tile_count(panels: Seq<PanelView>) -> int {
    let l = region_members(panels, PanelSlot::Left).len() as int;
    let c = region_members(panels, PanelSlot::Center).len() as int;
    let r = region_members(panels, PanelSlot::Right).len() as int;
    let b = region_members(panels, PanelSlot::Bottom).len() as int;
    let side_tabs = (if l > 0 { 1int } else { 0 }) + (if c > 0 { 1int } else { 0 })
        + (if r > 0 { 1int } else { 0 });
    l + c + r + b + side_tabs + (if b > 0 { 1int } else { 0 })
        + (if side_tabs >= 2 { 1int } else { 0 })
        + (if side_tabs >= 1 && b > 0 { 1int } else { 0 })
}

/// Everything `build_default_tree` guarantees of the finished state, beyond
/// well-formedness: the registry and request flags are untouched, exactly
/// the default-visible panels are visible (each through exactly one pane,
/// each pane under its region's tabs container), the tree has the default
/// shape of [`default_layout_rel`] for some naming of the region tiles, the
/// arena holds nothing besides those tiles, and the tree is empty exactly
/// when nothing is default-visible.
pub open spec fn default_built_rel(pre: DockView, post: DockView) -> bool {
    &&& post.panels == pre.panels
    &&& post.tree_built == pre.tree_built
    &&& post.layout_reset_requested == pre.layout_reset_requested
    &&& post.pending_open == pre.pending_open
    &&& forall|p: usize| post.is_visible(p)
        <==> p < pre.panels.len() && pre.panels[p as int].default_visible
    &&& forall|t: usize, p: usize| #[trigger] post.pane_at(t, p)
        ==> p < pre.panels.len() && pre.panels[p as int].default_visible
    &&& (post.root is None <==> forall|p: int|
        0 <= p < pre.panels.len() ==> !pre.panels[p].default_visible)
    &&& match post.root {
        Some(r) => post.node(r) is Container,
        None => true,
    }
    &&& forall|t: usize, p: usize| #[trigger] post.pane_at(t, p)
        ==> exists|c: usize| in_tabs(post, c, t)
    &&& exists|lt: Option<usize>, ct: Option<usize>, rt: Option<usize>, bt: Option<usize>|
        default_layout_rel(pre, post, lt, ct, rt, bt)
    &&& post.tiles.len() == spec_default_tile_count(pre.panels)
}

impl TileLayoutState {
    /// Wraps the given panes in a fresh tabs container, so that every slot of
    /// the default layout has a tab header even with a single panel in it.
    /// Nothing is made for an empty slot.
    fn make_tab(&mut self, panes: Vec<ChildRef>) -> (r: Option<usize>)
        requires
            old(self)@.wf(),
            forall|i: int| 0 <= i < panes@.len() ==> old(self)@.alive(#[trigger] panes@[i].tile),
        ensures
            final(self)@.wf(),
            builds_on(final(self)@, old(self)@),
            panes@.len() == 0 ==> r is None && final(self)@ == old(self)@,
            panes@.len() > 0 ==> match r {
                Some(c) => c == old(self)@.tiles.len()
                    && final(self)@.tiles == old(self)@.tiles.push(Some(NodeView::Container {
                        kind: ContainerKind::Tabs,
                        children: panes@,
                    }))
                    && final(self)@.root == old(self)@.root,
                None => false,
            },
    {
        if panes.len() == 0 {
            return None;
        }
        let id = self.tiles.len();
        let ghost pre = self@;
        let ghost cs = panes@;
        self.tiles.push(Some(LayoutNode::Container { kind: ContainerKind::Tabs, children: panes }));
        proof {
            assert(self@ =~= (DockView {
                tiles: pre.tiles.push(Some(NodeView::Container { kind: ContainerKind::Tabs, children: cs })),
                ..pre
            }));
            lemma_push_container_wf(pre, self@, ContainerKind::Tabs, cs);
        }
        Some(id)
    }

    /// Builds the procedural default layout from the registered panels.
    ///
    /// Every default-visible panel gets a fresh pane, routed to its region by
    /// the id naming convention; each populated region is wrapped in a tabs
    /// container; the populated regions among left, center and right form a
    /// horizontal row with weight shares 1 : 4 : 1.5 (kept in tenths); a
    /// populated bottom region puts the row and itself in a vertical split
    /// with shares 4 : 1. With nothing visible the tree is the explicit empty
    /// state. The previous tree is discarded.
    #[verifier::rlimit(100)]
    pub fn build_default_tree(&mut self)
        requires
            old(self)@.wf(),
        ensures
            final(self)@.wf(),
            final(self)@.handles_resolved(),
            default_built_rel(old(self)@, final(self)@),
    {
        let ghost pre = self@;
        let n = self.panels.len();
        // Fresh arena and handle index.
        self.root_tile = None;
        self.tiles = Vec::new();
        let mut fresh: Vec<Option<usize>> = Vec::new();
        let mut k: usize = 0;
        while k < n
            invariant
                k <= n,
                fresh@.len() == k,
                forall|i: int| 0 <= i < k ==> fresh@[i] is None,
            decreases n - k,
        {
            fresh.push(None);
            k = k + 1;
        }
        self.tile_of = fresh;
        proof {
            lemma_acyclic_empty();
            assert(self@.tiles == Seq::<Option<NodeView>>::empty());
            assert(self@.wf());
        }
        // One pane per default-visible panel, routed to its region.
        let mut left: Vec<ChildRef> = Vec::new();
        let mut center: Vec<ChildRef> = Vec::new();
        let mut right: Vec<ChildRef> = Vec::new();
        let mut bottom: Vec<ChildRef> = Vec::new();
        let mut p: usize = 0;
        while p < n
            invariant
                n == self.panels.len(),
                p <= n,
                self@.wf(),
                self@.panels == pre.panels,
                self@.tree_built == pre.tree_built,
                self@.layout_reset_requested == pre.layout_reset_requested,
                self@.pending_open == pre.pending_open,
                self@.root is None,
                self@.tile_of.len() == n,
                forall|i: int| p <= i < n ==> self@.tile_of[i] is None,
                forall|t: usize, q: usize| #[trigger] self@.pane_at(t, q)
                    ==> q < p && pre.panels[q as int].default_visible,
                forall|q: usize| #[trigger] self@.is_visible(q)
                    <==> q < p && pre.panels[q as int].default_visible,
                forall|t: usize| #[trigger] self@.alive(t) ==> self@.node(t) is Pane,
                forall|t: usize| #[trigger] self@.alive(t)
                    ==> left@.contains(ChildRef { tile: t, share: DEFAULT_SHARE })
                        || center@.contains(ChildRef { tile: t, share: DEFAULT_SHARE })
                        || right@.contains(ChildRef { tile: t, share: DEFAULT_SHARE })
                        || bottom@.contains(ChildRef { tile: t, share: DEFAULT_SHARE }),
                forall|i: int| 0 <= i < left@.len() ==> self@.alive(#[trigger] left@[i].tile),
                forall|i: int| 0 <= i < center@.len() ==> self@.alive(#[trigger] center@[i].tile),
                forall|i: int| 0 <= i < right@.len() ==> self@.alive(#[trigger] right@[i].tile),
                forall|i: int| 0 <= i < bottom@.len() ==> self@.alive(#[trigger] bottom@[i].tile),
                left@.len() == region_members_upto(pre.panels, PanelSlot::Left, p as int).len(),
                center@.len() == region_members_upto(pre.panels, PanelSlot::Center, p as int).len(),
                right@.len() == region_members_upto(pre.panels, PanelSlot::Right, p as int).len(),
                bottom@.len() == region_members_upto(pre.panels, PanelSlot::Bottom, p as int).len(),
                forall|i: int| 0 <= i < left@.len() ==> (#[trigger] left@[i]).share == DEFAULT_SHARE
                    && self@.pane_at(left@[i].tile,
                        region_members_upto(pre.panels, PanelSlot::Left, p as int)[i] as usize),
                forall|i: int| 0 <= i < center@.len() ==> (#[trigger] center@[i]).share == DEFAULT_SHARE
                    && self@.pane_at(center@[i].tile,
                        region_members_upto(pre.panels, PanelSlot::Center, p as int)[i] as usize),
                forall|i: int| 0 <= i < right@.len() ==> (#[trigger] right@[i]).share == DEFAULT_SHARE
                    && self@.pane_at(right@[i].tile,
                        region_members_upto(pre.panels, PanelSlot::Right, p as int)[i] as usize),
                forall|i: int| 0 <= i < bottom@.len() ==> (#[trigger] bottom@[i]).share == DEFAULT_SHARE
                    && self@.pane_at(bottom@[i].tile,
                        region_members_upto(pre.panels, PanelSlot::Bottom, p as int)[i] as usize),
                self@.tiles.len() == region_members_upto(pre.panels, PanelSlot::Left, p as int).len()
                    + region_members_upto(pre.panels, PanelSlot::Center, p as int).len()
                    + region_members_upto(pre.panels, PanelSlot::Right, p as int).len()
                    + region_members_upto(pre.panels, PanelSlot::Bottom, p as int).len(),
            decreases n - p,
        {
            let ghost mid = self@;
            let ghost ol = left@;
            let ghost oc = center@;
            let ghost or_ = right@;
            let ghost ob = bottom@;
            if self.panels[p].default_visible {
                let slot = classify_panel_id(self.panels[p].id.as_str());
                let t = self.tiles.len();
                self.tiles.push(Some(LayoutNode::Pane { panel: p }));
                self.tile_of[p] = Some(t);
                let cref = ChildRef { tile: t, share: DEFAULT_SHARE };
                match slot {
                    PanelSlot::Left => left.push(cref),
                    PanelSlot::Center => center.push(cref),
                    PanelSlot::Right => right.push(cref),
                    PanelSlot::Bottom => bottom.push(cref),
                }
                proof {
                    let s = self@;
                    assert(s.tiles =~= mid.tiles.push(Some(NodeView::Pane { panel: p })));
                    assert(s.tile_of =~= mid.tile_of.update(p as int, Some(t)));
                    assert(left@ == ol || left@ == ol.push(cref));
                    assert(center@ == oc || center@ == oc.push(cref));
                    assert(right@ == or_ || right@ == or_.push(cref));
                    assert(bottom@ == ob || bottom@ == ob.push(cref));
                    // How each region's member list grows at this panel.
                    assert(pre.panels[p as int].default_visible);
                    assert(slot == spec_classify(pre.panels[p as int].id));
                    assert forall|sl: PanelSlot| true implies #[trigger]
                        region_members_upto(pre.panels, sl, p + 1)
                        == if sl == slot {
                            region_members_upto(pre.panels, sl, p as int).push(p as int)
                        } else {
                            region_members_upto(pre.panels, sl, p as int)
                        } by {}
                    assert forall|x: usize, y: usize| #[trigger] mid.pane_at(x, y)
                        implies s.pane_at(x, y) by {
                        assert(s.tiles[x as int] == mid.tiles[x as int]);
                    }
                    assert(s.pane_at(t, p));
                    assert(left@.contains(cref) || center@.contains(cref)
                        || right@.contains(cref) || bottom@.contains(cref)) by {
                        match slot {
                            PanelSlot::Left => {
                                assert(left@[left@.len() - 1] == cref);
                            },
                            PanelSlot::Center => {
                                assert(center@[center@.len() - 1] == cref);
                            },
                            PanelSlot::Right => {
                                assert(right@[right@.len() - 1] == cref);
                            },
                            PanelSlot::Bottom => {
                                assert(bottom@[bottom@.len() - 1] == cref);
                            },
                        }
                    }
                    assert forall|u: usize, q: usize| #[trigger] s.pane_at(u, q)
                        implies q < p + 1 && pre.panels[q as int].default_visible by {
                        if u != t {
                            assert(mid.pane_at(u, q));
                        }
                    }
                    assert(s.wf()) by {
                        lemma_wf_children_bounded(mid);
                        lemma_acyclic_push(mid.tiles, Some(NodeView::Pane { panel: p }));
                        assert(acyclic(s.tiles));
                        assert forall|u: int| 0 <= u < s.tiles.len() implies s.node_wf(u) by {
                            if u < mid.tiles.len() {
                                assert(mid.node_wf(u));
                                assert(forall|x: usize| mid.alive(x) ==> s.alive(x));
                            }
                        }
                        assert forall|q: int| 0 <= q < s.tile_of.len() implies s.entry_wf(q) by {
                            if q != p {
                                assert(mid.entry_wf(q));
                            }
                        }
                        assert forall|u: usize, q: usize|
                            s.pane_at(u, q) && q < s.panels.len()
                            implies s.tile_of[q as int] == Some(u) by {
                            if u != t {
                                assert(mid.pane_at(u, q));
                                assert(q != p) by {
                                    if q == p {
                                        assert(mid.is_visible(q));
                                    }
                                }
                            }
                        }
                    }
                    assert forall|q: usize| #[trigger] s.is_visible(q)
                        <==> q < p + 1 && pre.panels[q as int].default_visible by {
                        if q != p && q < s.tile_of.len() {
                            assert(s.tile_of[q as int] == mid.tile_of[q as int]);
                            if mid.is_visible(q) {
                                let tq = mid.tile_of[q as int].unwrap();
                                assert(s.alive(tq));
                            }
                            if s.is_visible(q) {
                                let tq = s.tile_of[q as int].unwrap();
                                assert(tq != t) by {
                                    if tq == t {
                                        assert(s.entry_wf(q as int));
                                        assert(s.tiles[t as int] == Some(NodeView::Pane { panel: q }));
                                    }
                                }
                                assert(mid.alive(tq));
                            }
                        }
                    }
                    assert forall|t2: usize| #[trigger] s.alive(t2) implies s.node(t2) is Pane by {
                        if t2 != t {
                            assert(mid.alive(t2));
                            assert(s.node(t2) == mid.node(t2));
                        }
                    }
                    assert forall|t2: usize| #[trigger] s.alive(t2)
                        implies left@.contains(ChildRef { tile: t2, share: DEFAULT_SHARE })
                            || center@.contains(ChildRef { tile: t2, share: DEFAULT_SHARE })
                            || right@.contains(ChildRef { tile: t2, share: DEFAULT_SHARE })
                            || bottom@.contains(ChildRef { tile: t2, share: DEFAULT_SHARE }) by {
                        let c2 = ChildRef { tile: t2, share: DEFAULT_SHARE };
                        if t2 != t {
                            assert(mid.alive(t2));
                            if ol.contains(c2) {
                                let i = choose|i: int| 0 <= i < ol.len() && ol[i] == c2;
                                assert(left@[i] == c2);
                            } else if oc.contains(c2) {
                                let i = choose|i: int| 0 <= i < oc.len() && oc[i] == c2;
                                assert(center@[i] == c2);
                            } else if or_.contains(c2) {
                                let i = choose|i: int| 0 <= i < or_.len() && or_[i] == c2;
                                assert(right@[i] == c2);
                            } else {
                                assert(ob.contains(c2));
                                let i = choose|i: int| 0 <= i < ob.len() && ob[i] == c2;
                                assert(bottom@[i] == c2);
                            }
                        }
                    }
                }
            } else {
                proof {
                    assert forall|q: usize| #[trigger] self@.is_visible(q)
                        <==> q < p + 1 && pre.panels[q as int].default_visible by {
                        if q == p {
                            assert(self@.tile_of[q as int] is None);
                        }
                    }
                    assert(!pre.panels[p as int].default_visible);
                    assert forall|sl: PanelSlot| true implies #[trigger]
                        region_members_upto(pre.panels, sl, p + 1)
                        == region_members_upto(pre.panels, sl, p as int) by {}
                }
            }
            p = p + 1;
        }
        let ghost phase1 = self@;
        let ghost lv = left@;
        let ghost cv = center@;
        let ghost rv = right@;
        let ghost bv = bottom@;
        // Wrap each populated region in a tabs container.
        let left_tile = self.make_tab(left);
        let ghost s1 = self@;
        let center_tile = self.make_tab(center);
        let ghost s2 = self@;
        let right_tile = self.make_tab(right);
        let ghost s3 = self@;
        let bottom_tile = self.make_tab(bottom);
        let ghost s4 = self@;
        proof {
            assert(builds_on(s4, phase1));
            assert forall|u: usize| phase1.alive(u)
                implies s4.alive(u) && s4.node(u) == phase1.node(u) by {
                assert(s1.alive(u) && s1.node(u) == phase1.node(u));
                assert(s2.alive(u) && s2.node(u) == phase1.node(u));
                assert(s3.alive(u) && s3.node(u) == phase1.node(u));
            }
        }
        // The horizontal row of the populated side regions.
        let mut row_children: Vec<ChildRef> = Vec::new();
        match left_tile {
            Some(l) => {
                row_children.push(ChildRef { tile: l, share: 10 });
                proof {
                    assert(s1.alive(l));
                    assert(s4.alive(l) && s4.node(l) == s1.node(l)) by {
                        assert(s2.alive(l) && s2.node(l) == s1.node(l));
                        assert(s3.alive(l) && s3.node(l) == s2.node(l));
                    }
                }
            },
            None => {},
        }
        match center_tile {
            Some(c) => {
                row_children.push(ChildRef { tile: c, share: 40 });
                proof {
                    assert(s2.alive(c));
                    assert(s4.alive(c) && s4.node(c) == s2.node(c)) by {
                        assert(s3.alive(c) && s3.node(c) == s2.node(c));
                    }
                }
            },
            None => {},
        }
        match right_tile {
            Some(r) => {
                row_children.push(ChildRef { tile: r, share: 15 });
                proof {
                    assert(s3.alive(r));
                    assert(s4.alive(r) && s4.node(r) == s3.node(r));
                }
            },
            None => {},
        }
        let ghost rowv = row_children@;
        proof {
            assert forall|i: int| 0 <= i < row_children@.len()
                implies s4.alive(#[trigger] row_children@[i].tile)
                    && s4.node(row_children@[i].tile) is Container by {}
            assert(rowv =~= row_entries(left_tile, center_tile, right_tile));
        }
        let main_tile: Option<usize> = if row_children.len() == 0 {
            None
        } else if row_children.len() == 1 {
            Some(row_children[0].tile)
        } else {
            let ghost rcs = row_children@;
            let id = self.tiles.len();
            self.tiles.push(Some(LayoutNode::Container { kind: ContainerKind::Horizontal, children: row_children }));
            proof {
                assert(self@ =~= (DockView {
                    tiles: s4.tiles.push(Some(NodeView::Container { kind: ContainerKind::Horizontal, children: rcs })),
                    ..s4
                }));
                lemma_push_container_wf(s4, self@, ContainerKind::Horizontal, rcs);
                assert(self@.alive(id) && self@.node(id) == (NodeView::Container {
                    kind: ContainerKind::Horizontal,
                    children: rowv,
                }));
            }
            Some(id)
        };
        let ghost s5 = self@;
        proof {
            assert(builds_on(s5, phase1));
            match main_tile {
                Some(m) => {
                    assert(s5.alive(m) && s5.node(m) is Container);
                },
                None => {},
            }
            match bottom_tile {
                Some(b) => {
                    assert(s4.alive(b) && s4.node(b) is Container);
                    assert(s5.alive(b) && s5.node(b) is Container);
                },
                None => {},
            }
        }
        // The root: the row, a vertical split of row and bottom, or nothing.
        match (main_tile, bottom_tile) {
            (None, None) => {},
            (None, Some(b)) => {
                self.root_tile = Some(b);
                proof {
                    lemma_wf_set_root(s5, self@);
                }
            },
            (Some(m), None) => {
                self.root_tile = Some(m);
                proof {
                    lemma_wf_set_root(s5, self@);
                }
            },
            (Some(m), Some(b)) => {
                let id = self.tiles.len();
                let mut vcs: Vec<ChildRef> = Vec::new();
                vcs.push(ChildRef { tile: m, share: 40 });
                vcs.push(ChildRef { tile: b, share: 10 });
                let ghost vcsv = vcs@;
                self.tiles.push(Some(LayoutNode::Container { kind: ContainerKind::Vertical, children: vcs }));
                self.root_tile = Some(id);
                proof {
                    let mid5 = DockView { root: s5.root, ..self@ };
                    assert(mid5 =~= (DockView {
                        tiles: s5.tiles.push(Some(NodeView::Container { kind: ContainerKind::Vertical, children: vcsv })),
                        ..s5
                    }));
                    lemma_push_container_wf(s5, mid5, ContainerKind::Vertical, vcsv);
                    assert(builds_on(mid5, s5));
                    lemma_wf_set_root(mid5, self@);
                    assert(self@.alive(id));
                    assert(vcsv =~= seq![
                        ChildRef { tile: m, share: 40 },
                        ChildRef { tile: b, share: 10 },
                    ]);
                    assert(self@.root == Some(id) && self@.node(id) == (NodeView::Container {
                        kind: ContainerKind::Vertical,
                        children: seq![
                            ChildRef { tile: m, share: 40 },
                            ChildRef { tile: b, share: 10 },
                        ],
                    }));
                }
            },
        }
        proof {
            let post = self@;
            // Only the root changed after `s5`; panes, nodes and visibility
            // carried over from the pane-building phase.
            assert(post.tiles == s5.tiles || (s5.tiles.len() < post.tiles.len()
                && forall|i: int| 0 <= i < s5.tiles.len() ==> post.tiles[i] == s5.tiles[i]));
            assert(builds_on(post, phase1)) by {
                assert forall|u: usize, q: usize| post.pane_at(u, q) <==> phase1.pane_at(u, q) by {
                    if post.pane_at(u, q) {
                        if (u as int) < s5.tiles.len() {
                            assert(s5.pane_at(u, q));
                        }
                    }
                    if phase1.pane_at(u, q) {
                        assert(s5.pane_at(u, q));
                        assert(post.tiles[u as int] == s5.tiles[u as int]);
                    }
                }
                assert forall|u: usize| phase1.alive(u)
                    implies post.alive(u) && post.node(u) == phase1.node(u) by {
                    assert(s5.alive(u) && s5.node(u) == phase1.node(u));
                    assert(post.tiles[u as int] == s5.tiles[u as int]);
                }
                assert forall|p2: usize| post.is_visible(p2) == phase1.is_visible(p2) by {
                    assert(s5.is_visible(p2) == phase1.is_visible(p2));
                    if p2 < s5.tile_of.len() {
                        match s5.tile_of[p2 as int] {
                            Some(t2) => {
                                assert(s5.entry_wf(p2 as int));
                                assert(post.tiles[t2 as int] == s5.tiles[t2 as int]);
                            },
                            None => {},
                        }
                    }
                }
            }
            // Each arm above left the state well formed.
            assert(post.wf());
            assert(post.handles_resolved()) by {
                assert forall|t: usize, q: usize| post.pane_at(t, q)
                    implies q < post.panels.len() by {
                    assert(phase1.pane_at(t, q));
                }
            }
            assert(match post.root {
                Some(r) => post.node(r) is Container,
                None => true,
            });
            // Every pane sits under the tabs container of its region.
            assert forall|t: usize, q: usize| #[trigger] post.pane_at(t, q)
                implies exists|c: usize| in_tabs(post, c, t) by {
                assert(phase1.pane_at(t, q));
                assert(phase1.alive(t));
                let cref = ChildRef { tile: t, share: DEFAULT_SHARE };
                if lv.contains(cref) {
                    let c = match left_tile {
                        Some(c) => c,
                        None => arbitrary(),
                    };
                    assert(lv.len() > 0);
                    assert(s1.node(c) == (NodeView::Container { kind: ContainerKind::Tabs, children: lv }));
                    assert(post.alive(c) && post.node(c) == s1.node(c)) by {
                        assert(s1.alive(c));
                        assert(s2.alive(c) && s2.node(c) == s1.node(c));
                        assert(s3.alive(c) && s3.node(c) == s2.node(c));
                        assert(s4.alive(c) && s4.node(c) == s3.node(c));
                        assert(s5.alive(c) && s5.node(c) == s4.node(c));
                        assert(post.tiles[c as int] == s5.tiles[c as int]);
                    }
                    let i = choose|i: int| 0 <= i < lv.len() && lv[i] == cref;
                    assert(lv[i] == cref);
                    lemma_in_tabs_from(post, c, lv, i, t);
                } else if cv.contains(cref) {
                    let c = match center_tile {
                        Some(c) => c,
                        None => arbitrary(),
                    };
                    assert(cv.len() > 0);
                    assert(s2.node(c) == (NodeView::Container { kind: ContainerKind::Tabs, children: cv }));
                    assert(post.alive(c) && post.node(c) == s2.node(c)) by {
                        assert(s2.alive(c));
                        assert(s3.alive(c) && s3.node(c) == s2.node(c));
                        assert(s4.alive(c) && s4.node(c) == s3.node(c));
                        assert(s5.alive(c) && s5.node(c) == s4.node(c));
                        assert(post.tiles[c as int] == s5.tiles[c as int]);
                    }
                    let i = choose|i: int| 0 <= i < cv.len() && cv[i] == cref;
                    assert(cv[i] == cref);
                    lemma_in_tabs_from(post, c, cv, i, t);
                } else if rv.contains(cref) {
                    let c = match right_tile {
                        Some(c) => c,
                        None => arbitrary(),
                    };
                    assert(rv.len() > 0);
                    assert(s3.node(c) == (NodeView::Container { kind: ContainerKind::Tabs, children: rv }));
                    assert(post.alive(c) && post.node(c) == s3.node(c)) by {
                        assert(s3.alive(c));
                        assert(s4.alive(c) && s4.node(c) == s3.node(c));
                        assert(s5.alive(c) && s5.node(c) == s4.node(c));
                        assert(post.tiles[c as int] == s5.tiles[c as int]);
                    }
                    let i = choose|i: int| 0 <= i < rv.len() && rv[i] == cref;
                    assert(rv[i] == cref);
                    lemma_in_tabs_from(post, c, rv, i, t);
                } else {
                    assert(bv.contains(cref));
                    let c = match bottom_tile {
                        Some(c) => c,
                        None => arbitrary(),
                    };
                    assert(bv.len() > 0);
                    assert(s4.node(c) == (NodeView::Container { kind: ContainerKind::Tabs, children: bv }));
                    assert(post.alive(c) && post.node(c) == s4.node(c)) by {
                        assert(s4.alive(c));
                        assert(s5.alive(c) && s5.node(c) == s4.node(c));
                        assert(post.tiles[c as int] == s5.tiles[c as int]);
                    }
                    let i = choose|i: int| 0 <= i < bv.len() && bv[i] == cref;
                    assert(bv[i] == cref);
                    lemma_in_tabs_from(post, c, bv, i, t);
                }
            }
            // An empty tree exactly when nothing is default-visible.
            if post.root is None {
                assert(main_tile is None && bottom_tile is None);
                assert(row_children@.len() == 0);
                assert(lv.len() == 0 && cv.len() == 0 && rv.len() == 0 && bv.len() == 0);
                assert forall|q: int| 0 <= q < pre.panels.len()
                    implies !pre.panels[q].default_visible by {
                    if pre.panels[q].default_visible {
                        assert(phase1.is_visible(q as usize));
                        let tq = phase1.tile_of[q].unwrap();
                        assert(phase1.alive(tq));
                        let crq = ChildRef { tile: tq, share: DEFAULT_SHARE };
                        assert(lv.contains(crq) || cv.contains(crq) || rv.contains(crq)
                            || bv.contains(crq));
                    }
                }
            } else {
                assert(lv.len() > 0 || cv.len() > 0 || rv.len() > 0 || bv.len() > 0) by {
                    if main_tile is Some {
                        assert(row_children@.len() > 0);
                        assert(left_tile is Some || center_tile is Some || right_tile is Some);
                    } else {
                        assert(bottom_tile is Some);
                    }
                }
                assert(!(forall|q: int| 0 <= q < pre.panels.len()
                    ==> !pre.panels[q].default_visible)) by {
                    let w = if lv.len() > 0 {
                        lv[0].tile
                    } else if cv.len() > 0 {
                        cv[0].tile
                    } else if rv.len() > 0 {
                        rv[0].tile
                    } else {
                        bv[0].tile
                    };
                    assert(phase1.alive(w));
                    let qw = match phase1.node(w) {
                        NodeView::Pane { panel } => panel,
                        _ => arbitrary(),
                    };
                    assert(phase1.pane_at(w, qw));
                    assert(qw < pre.panels.len() && pre.panels[qw as int].default_visible);
                }
            }
            // The named default-layout shape and the exact arena size.
            let lm = region_members(pre.panels, PanelSlot::Left);
            let cm = region_members(pre.panels, PanelSlot::Center);
            let rm = region_members(pre.panels, PanelSlot::Right);
            let bm = region_members(pre.panels, PanelSlot::Bottom);
            assert(pre.panels.len() == n);
            assert(lv.len() == lm.len() && cv.len() == cm.len() && rv.len() == rm.len()
                && bv.len() == bm.len());
            match left_tile {
                Some(c) => {
                    assert(region_tabs_at(post, c, lm)) by {
                        assert(s1.node(c) == (NodeView::Container { kind: ContainerKind::Tabs, children: lv }));
                        assert(post.alive(c) && post.node(c) == s1.node(c)) by {
                            assert(s1.alive(c));
                            assert(s2.alive(c) && s2.node(c) == s1.node(c));
                            assert(s3.alive(c) && s3.node(c) == s2.node(c));
                            assert(s4.alive(c) && s4.node(c) == s3.node(c));
                            assert(s5.alive(c) && s5.node(c) == s4.node(c));
                            assert(post.tiles[c as int] == s5.tiles[c as int]);
                        }
                        assert forall|i: int| 0 <= i < lv.len()
                            implies post.pane_at((#[trigger] lv[i]).tile, lm[i] as usize) by {
                            assert(phase1.pane_at(lv[i].tile, lm[i] as usize));
                        }
                    }
                },
                None => {},
            }
            match center_tile {
                Some(c) => {
                    assert(region_tabs_at(post, c, cm)) by {
                        assert(s2.node(c) == (NodeView::Container { kind: ContainerKind::Tabs, children: cv }));
                        assert(post.alive(c) && post.node(c) == s2.node(c)) by {
                            assert(s2.alive(c));
                            assert(s3.alive(c) && s3.node(c) == s2.node(c));
                            assert(s4.alive(c) && s4.node(c) == s3.node(c));
                            assert(s5.alive(c) && s5.node(c) == s4.node(c));
                            assert(post.tiles[c as int] == s5.tiles[c as int]);
                        }
                        assert forall|i: int| 0 <= i < cv.len()
                            implies post.pane_at((#[trigger] cv[i]).tile, cm[i] as usize) by {
                            assert(phase1.pane_at(cv[i].tile, cm[i] as usize));
                        }
                    }
                },
                None => {},
            }
            match right_tile {
                Some(c) => {
                    assert(region_tabs_at(post, c, rm)) by {
                        assert(s3.node(c) == (NodeView::Container { kind: ContainerKind::Tabs, children: rv }));
                        assert(post.alive(c) && post.node(c) == s3.node(c)) by {
                            assert(s3.alive(c));
                            assert(s4.alive(c) && s4.node(c) == s3.node(c));
                            assert(s5.alive(c) && s5.node(c) == s4.node(c));
                            assert(post.tiles[c as int] == s5.tiles[c as int]);
                        }
                        assert forall|i: int| 0 <= i < rv.len()
                            implies post.pane_at((#[trigger] rv[i]).tile, rm[i] as usize) by {
                            assert(phase1.pane_at(rv[i].tile, rm[i] as usize));
                        }
                    }
                },
                None => {},
            }
            match bottom_tile {
                Some(c) => {
                    assert(region_tabs_at(post, c, bm)) by {
                        assert(s4.node(c) == (NodeView::Container { kind: ContainerKind::Tabs, children: bv }));
                        assert(post.alive(c) && post.node(c) == s4.node(c)) by {
                            assert(s4.alive(c));
                            assert(s5.alive(c) && s5.node(c) == s4.node(c));
                            assert(post.tiles[c as int] == s5.tiles[c as int]);
                        }
                        assert forall|i: int| 0 <= i < bv.len()
                            implies post.pane_at((#[trigger] bv[i]).tile, bm[i] as usize) by {
                            assert(phase1.pane_at(bv[i].tile, bm[i] as usize));
                        }
                    }
                },
                None => {},
            }
            assert(left_tile is Some <==> lm.len() > 0);
            assert(center_tile is Some <==> cm.len() > 0);
            assert(right_tile is Some <==> rm.len() > 0);
            assert(bottom_tile is Some <==> bm.len() > 0);
            assert(rowv == row_entries(left_tile, center_tile, right_tile));
            assert(main_tile is Some <==> rowv.len() > 0);
            // Root shape, by which parts of the layout exist.
            match (main_tile, bottom_tile) {
                (None, None) => {
                    assert(rowv.len() == 0);
                    assert(s1.root == phase1.root);
                    assert(s2.root == s1.root);
                    assert(s3.root == s2.root);
                    assert(s4.root == s3.root);
                    assert(s5.root == s4.root);
                    assert(post.root is None);
                },
                (None, Some(b)) => {
                    assert(rowv.len() == 0);
                    assert(post.root == Some(b));
                },
                (Some(m), None) => {
                    assert(rowv.len() > 0);
                    assert(post.root == Some(m));
                    assert(is_main_tile(post, m, rowv)) by {
                        if rowv.len() == 1 {
                            assert(m == rowv[0].tile);
                        } else {
                            assert(s5.alive(m) && s5.node(m) == (NodeView::Container {
                                kind: ContainerKind::Horizontal,
                                children: rowv,
                            }));
                            assert(post.tiles[m as int] == s5.tiles[m as int]);
                        }
                    }
                },
                (Some(m), Some(b)) => {
                    assert(rowv.len() > 0);
                    assert(is_main_tile(post, m, rowv)) by {
                        if rowv.len() == 1 {
                            assert(m == rowv[0].tile);
                        } else {
                            assert(s5.alive(m) && s5.node(m) == (NodeView::Container {
                                kind: ContainerKind::Horizontal,
                                children: rowv,
                            }));
                            assert(post.tiles[m as int] == s5.tiles[m as int]);
                        }
                    }
                    match post.root {
                        Some(r) => {
                            assert(post.alive(r));
                            assert(post.node(r) == (NodeView::Container {
                                kind: ContainerKind::Vertical,
                                children: seq![
                                    ChildRef { tile: m, share: 40 },
                                    ChildRef { tile: b, share: 10 },
                                ],
                            }));
                            assert(exists|m2: usize| is_main_tile(post, m2, rowv)
                                && post.node(r) == (NodeView::Container {
                                    kind: ContainerKind::Vertical,
                                    children: seq![
                                        ChildRef { tile: m2, share: 40 },
                                        ChildRef { tile: b, share: 10 },
                                    ],
                                })) by {
                                assert(is_main_tile(post, m, rowv));
                            }
                        },
                        None => {
                            assert(false);
                        },
                    }
                },
            }
            assert(default_layout_rel(pre, post, left_tile, center_tile, right_tile, bottom_tile));
            assert(exists|lt: Option<usize>, ct: Option<usize>, rt: Option<usize>, bt: Option<usize>|
                default_layout_rel(pre, post, lt, ct, rt, bt)) by {
                assert(default_layout_rel(pre, post, left_tile, center_tile, right_tile, bottom_tile));
            }
            // Arena size accounting across the build phases.
            assert(phase1.tiles.len() == lm.len() + cm.len() + rm.len() + bm.len());
            assert(s1.tiles.len() == phase1.tiles.len() + (if lm.len() > 0 { 1int } else { 0 }));
            assert(s2.tiles.len() == s1.tiles.len() + (if cm.len() > 0 { 1int } else { 0 }));
            assert(s3.tiles.len() == s2.tiles.len() + (if rm.len() > 0 { 1int } else { 0 }));
            assert(s4.tiles.len() == s3.tiles.len() + (if bm.len() > 0 { 1int } else { 0 }));
            assert(rowv.len() == (if lm.len() > 0 { 1int } else { 0 })
                + (if cm.len() > 0 { 1int } else { 0 }) + (if rm.len() > 0 { 1int } else { 0 }));
            assert(s5.tiles.len() == s4.tiles.len() + (if rowv.len() >= 2 { 1int } else { 0 }));
            assert(post.tiles.len() == s5.tiles.len()
                + (if rowv.len() >= 1 && bm.len() > 0 { 1int } else { 0 }));
            assert(post.tiles.len() == spec_default_tile_count(pre.panels));
            assert(default_built_rel(pre, post));
        }
    }
}

/// One row of the panel menu list as a mathematical value: the panel's id,
/// title and visibility.
pub open spec fn entry_view(e: (String, String, bool)) -> (Seq<char>, Seq<char>, bool) {
    (e.0@, e.1@, e.2)
}

pub open spec fn entry_list_view(s: Seq<(String, String, bool)>) -> Seq<(Seq<char>, Seq<char>, bool)> {
    Seq::new(s.len(), |i: int| entry_view(s[i]))
}

/// The rows `panel_list` reports, one per registered panel in handle order.
pub open spec fn spec_panel_entries(v: DockView) -> Seq<(Seq<char>, Seq<char>, bool)> {
    Seq::new(v.panels.len(), |p: int| (v.panels[p].id, v.panels[p].title, v.is_visible(p as usize)))
}

/// The rows are sorted by title.
pub open spec fn entries_sorted(s: Seq<(Seq<char>, Seq<char>, bool)>) -> bool {
    forall|i: int, j: int| 0 <= i < j < s.len()
        ==> crate::text::spec_str_le((#[trigger] s[i]).1, (#[trigger] s[j]).1)
}

/// Inserting an element anywhere adds exactly it to the sequence's multiset.
proof fn lemma_insert_to_multiset<A>(s: Seq<A>, j: int, x: A)
    requires
        0 <= j <= s.len(),
    ensures
        s.insert(j, x).to_multiset() == s.to_multiset().insert(x),
{
    broadcast use vstd::seq_lib::group_to_multiset_ensures;
    broadcast use vstd::multiset::group_multiset_axioms;

    let q = s.insert(j, x);
    assert(q.remove(j) =~= s);
    assert(q[j] == x);
    assert(q.remove(j).to_multiset() =~= q.to_multiset().remove(x));
    assert(q.contains(x)) by {
        assert(q[j] == x);
    }
    assert(q.to_multiset().count(x) > 0);
    assert(q.to_multiset() =~= s.to_multiset().insert(x)) by {
        assert forall|a: A| q.to_multiset().count(a) == s.to_multiset().insert(x).count(a) by {
            assert(s.to_multiset().count(a) == q.to_multiset().remove(x).count(a));
        }
    }
}

/// The position a title is inserted at: after every row whose title does not
/// come strictly later.
fn insert_pos(out: &Vec<(String, String, bool)>, title: &String) -> (j: usize)
    ensures
        j <= out@.len(),
        forall|k: int| 0 <= k < j
            ==> !crate::text::spec_str_lt(title@, entry_list_view(out@)[k].1),
        j < out@.len() ==> crate::text::spec_str_lt(title@, entry_list_view(out@)[j as int].1),
{
    let n = out.len();
    let mut j: usize = 0;
    while j < n
        invariant
            n == out@.len(),
            j <= n,
            forall|k: int| 0 <= k < j
                ==> !crate::text::spec_str_lt(title@, entry_list_view(out@)[k].1),
        decreases n - j,
    {
        if str_lt(title.as_str(), out[j].1.as_str()) {
            return j;
        }
        j = j + 1;
    }
    n
}

impl TileLayoutState {
    /// The menu rows: one `(id, title, visible)` triple per registered
    /// panel — the same collection of rows as the registry in handle order —
    /// sorted by title.
    pub fn panel_list(&self) -> (r: Vec<(String, String, bool)>)
        requires
            self@.wf(),
        ensures
            entry_list_view(r@).to_multiset() == spec_panel_entries(self@).to_multiset(),
            entries_sorted(entry_list_view(r@)),
    {
        let ghost expected = spec_panel_entries(self@);
        let n = self.panels.len();
        let mut out: Vec<(String, String, bool)> = Vec::new();
        let mut p: usize = 0;
        proof {
            broadcast use vstd::seq_lib::group_to_multiset_ensures;

            assert(expected.subrange(0, 0) =~= Seq::<(Seq<char>, Seq<char>, bool)>::empty());
            assert(entry_list_view(out@) =~= Seq::<(Seq<char>, Seq<char>, bool)>::empty());
            assert(entry_list_view(out@).to_multiset() =~= expected.subrange(0, 0).to_multiset());
        }
        while p < n
            invariant
                n == self.panels.len(),
                self@.tile_of.len() == n,
                expected == spec_panel_entries(self@),
                expected.len() == n,
                p <= n,
                entry_list_view(out@).to_multiset() == expected.subrange(0, p as int).to_multiset(),
                entries_sorted(entry_list_view(out@)),
            decreases n - p,
        {
            let visible = match self.tile_of[p] {
                Some(t) => t < self.tiles.len() && self.tiles[t].is_some(),
                None => false,
            };
            let entry = (self.panels[p].id.clone(), self.panels[p].title.clone(), visible);
            let ghost ev = entry_view(entry);
            proof {
                assert(visible == self@.is_visible(p));
                assert(ev == expected[p as int]);
            }
            let j = insert_pos(&out, &self.panels[p].title);
            let ghost lv0 = entry_list_view(out@);
            out.insert(j, entry);
            proof {
                broadcast use vstd::seq_lib::group_to_multiset_ensures;

                let lv1 = entry_list_view(out@);
                assert(lv1 =~= lv0.insert(j as int, ev));
                lemma_insert_to_multiset(lv0, j as int, ev);
                assert(expected.subrange(0, p + 1) =~= expected.subrange(0, p as int).push(ev));
                assert(expected.subrange(0, p + 1).to_multiset()
                    =~= expected.subrange(0, p as int).to_multiset().insert(ev));
                assert(lv1.to_multiset() =~= expected.subrange(0, p + 1).to_multiset());
                // Sortedness: rows before the insertion point do not come
                // later than the new row; rows after come no earlier.
                assert(entries_sorted(lv1)) by {
                    assert forall|x: int, y: int| 0 <= x < y < lv1.len()
                        implies crate::text::spec_str_le((#[trigger] lv1[x]).1, (#[trigger] lv1[y]).1) by {
                        let a = lv1[x];
                        let b = lv1[y];
                        if x < j && y < j {
                            assert(a == lv0[x] && b == lv0[y]);
                        } else if x < j && y == j {
                            assert(a == lv0[x] && b == ev);
                            assert(!crate::text::spec_str_lt(ev.1, lv0[x].1));
                        } else if x == j && y > j {
                            assert(a == ev && b == lv0[y - 1]);
                            assert(y - 1 >= j);
                            if j < lv0.len() {
                                assert(crate::text::spec_str_lt(ev.1, lv0[j as int].1));
                                if y - 1 == j {
                                    crate::text::lemma_str_lt_asymmetric(ev.1, lv0[j as int].1);
                                } else {
                                    assert(crate::text::spec_str_le(lv0[j as int].1, lv0[y - 1].1));
                                    crate::text::lemma_str_lt_asymmetric(ev.1, lv0[j as int].1);
                                    crate::text::lemma_str_le_transitive(ev.1, lv0[j as int].1, lv0[y - 1].1);
                                }
                            }
                        } else if x < j && y > j {
                            assert(a == lv0[x] && b == lv0[y - 1]);
                            if y - 1 == x {
                                crate::text::lemma_str_lt_asymmetric(a.1, a.1);
                            } else {
                                assert(crate::text::spec_str_le(lv0[x].1, lv0[y - 1].1));
                            }
                        } else {
                            // both past the insertion point
                            assert(a == lv0[x - 1] && b == lv0[y - 1]);
                            if x - 1 == y - 1 {
                                crate::text::lemma_str_lt_asymmetric(a.1, a.1);
                            } else {
                                assert(crate::text::spec_str_le(lv0[x - 1].1, lv0[y - 1].1));
                            }
                        }
                    }
                }
            }
            p = p + 1;
        }
        proof {
            assert(expected.subrange(0, n as int) =~= expected);
        }
        out
    }
}

} // verus!
