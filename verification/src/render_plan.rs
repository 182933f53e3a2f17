use vstd::prelude::*;

use crate::direction::SplitDirection;
use crate::hidden::{hidden_for, pane_hidden_for_move, HiddenPane, HiddenPaneReason};
use crate::layout::{
    has_moving, has_visible, next_resizable, railed, railed_pane_ids,
};
use crate::tree::{trees_of, Divider, PaneBranch, PaneFlex, PaneId, PaneNode, Tree};

verus! {

/// The way a rail's chevron points: the way its panes grow back when restored.
#[derive(PartialEq, Eq, Clone, Copy, Debug, Structural)]
pub enum Chevron {
    Up,
    Down,
    Left,
    Right,
}

/// The chevron of a rail in a branch along `axis`: a rail at the leading edge (top or
/// left) grows back down or right, any other grows back up or left.
pub open spec fn chevron_for(axis: SplitDirection, is_leading_edge: bool) -> Chevron {
    match (axis, is_leading_edge) {
        (SplitDirection::Vertical, true) => Chevron::Down,
        (SplitDirection::Vertical, false) => Chevron::Up,
        (SplitDirection::Horizontal, true) => Chevron::Right,
        (SplitDirection::Horizontal, false) => Chevron::Left,
    }
}

pub fn rail_chevron(axis: SplitDirection, is_leading_edge: bool) -> (r: Chevron)
    ensures
        r == chevron_for(axis, is_leading_edge),
{
    match (axis, is_leading_edge) {
        (SplitDirection::Vertical, true) => Chevron::Down,
        (SplitDirection::Vertical, false) => Chevron::Up,
        (SplitDirection::Horizontal, true) => Chevron::Right,
        (SplitDirection::Horizontal, false) => Chevron::Left,
    }
}

/// One element of a branch's layout, in order.
#[derive(PartialEq, Eq, Clone, Debug)]
pub enum BranchItem {
    /// Node `index` is fully collapsed and shows as one rail; clicking it restores
    /// `pane_ids`.
    Rail { index: usize, pane_ids: Vec<PaneId>, chevron: Chevron },
    /// Node `index` shows with weight `flex` (zero for a leaf hidden for a move, which
    /// keeps its slot as a drop target).
    Node { index: usize, flex: PaneFlex },
    /// A divider, resizable by dragging.
    Divider { id: u64 },
}

/// The abstract form of a [`BranchItem`].
pub enum ItemShape {
    Rail(int, Seq<PaneId>, Chevron),
    Node(int, PaneFlex),
    Divider(u64),
}

impl BranchItem {
    pub open spec fn shape(&self) -> ItemShape {
        match self {
            BranchItem::Rail { index, pane_ids, chevron } => ItemShape::Rail(
                *index as int,
                pane_ids@,
                *chevron,
            ),
            BranchItem::Node { index, flex } => ItemShape::Node(*index as int, *flex),
            BranchItem::Divider { id } => ItemShape::Divider(*id),
        }
    }
}

/// The shapes of a list of items.
pub open spec fn shapes(v: Seq<BranchItem>) -> Seq<ItemShape> {
    v.map_values(|x: BranchItem| x.shape())
}

/// The weight a node is laid out with: zero for a leaf hidden for a move.
pub open spec fn shown_flex(node: (PaneFlex, Tree), hidden: Seq<HiddenPane>) -> PaneFlex {
    match node.1 {
        Tree::Leaf(id) => if hidden_for(hidden, id, HiddenPaneReason::FromMove) {
            PaneFlex(0)
        } else {
            node.0
        },
        _ => node.0,
    }
}

/// Whether node `i` keeps no divider after it: a leaf hidden for a move, or a node with
/// no real pane after it to resize against.
pub open spec fn divider_suppressed(s: Seq<(PaneFlex, Tree)>, hidden: Seq<HiddenPane>, i: int) -> bool {
    ||| (s[i].1 matches Tree::Leaf(id) && hidden_for(hidden, id, HiddenPaneReason::FromMove))
    ||| next_resizable(s, hidden, i) is None
}

/// The layout of the nodes of a branch from node `i` on, with divider `d` the next one
/// free: nodes that show nothing (and hold no pane being moved) are left out without
/// using a divider; a fully collapsed node is a rail that uses up a divider without
/// showing it; any other node is shown and followed by its divider unless that is
/// suppressed.
pub open spec fn plan_from(
    axis: SplitDirection,
    s: Seq<(PaneFlex, Tree)>,
    ds: Seq<Divider>,
    hidden: Seq<HiddenPane>,
    i: int,
    d: int,
) -> Seq<ItemShape>
    decreases s.len() - i,
{
    if i < 0 || i >= s.len() {
        Seq::empty()
    } else if !has_visible(s[i].1, hidden) && !has_moving(s[i].1, hidden) {
        plan_from(axis, s, ds, hidden, i + 1, d)
    } else if railed(s[i].1, hidden) is Some {
        let next_d = if d < ds.len() {
            d + 1
        } else {
            d
        };
        seq![ItemShape::Rail(i, railed(s[i].1, hidden)->0, chevron_for(axis, i == 0))] + plan_from(
            axis,
            s,
            ds,
            hidden,
            i + 1,
            next_d,
        )
    } else {
        let item = ItemShape::Node(i, shown_flex(s[i], hidden));
        if 0 <= d < ds.len() {
            if divider_suppressed(s, hidden, i) {
                seq![item] + plan_from(axis, s, ds, hidden, i + 1, d + 1)
            } else {
                seq![item, ItemShape::Divider(ds[d].id)] + plan_from(axis, s, ds, hidden, i + 1, d + 1)
            }
        } else {
            seq![item] + plan_from(axis, s, ds, hidden, i + 1, d)
        }
    }
}

impl PaneBranch {
    /// The elements this branch lays out, in order: rails for fully collapsed nodes, the
    /// nodes that show something, and the dividers between them that can be dragged.
    pub fn render_plan(&self, hidden_panes: &[HiddenPane]) -> (r: Vec<BranchItem>)
        ensures
            shapes(r@) == plan_from(
                self.axis,
                trees_of(self.nodes@),
                self.dividers@,
                hidden_panes@,
                0,
                0,
            ),
    {
        let ghost s = trees_of(self.nodes@);
        let mut out: Vec<BranchItem> = Vec::new();
        let mut d: usize = 0;
        let mut i: usize = 0;
        while i < self.nodes.len()
            invariant
                s == trees_of(self.nodes@),
                i <= self.nodes.len(),
                d <= self.dividers.len(),
                shapes(out@) + plan_from(self.axis, s, self.dividers@, hidden_panes@, i as int, d as int)
                    == plan_from(self.axis, s, self.dividers@, hidden_panes@, 0, 0),
            decreases self.nodes.len() - i,
        {
            proof {
                crate::tree::lemma_trees_of_index(self.nodes@, i as int);
            }
            let ghost before = out@;
            let ghost d0 = d as int;
            let ghost rest = plan_from(self.axis, s, self.dividers@, hidden_panes@, i as int, d0);
            let node = &self.nodes[i].1;
            if !node.has_visible_children(hidden_panes) && !node.has_children_hidden_for_move(
                hidden_panes,
            ) {
                i += 1;
                continue;
            }
            match railed_pane_ids(node, hidden_panes) {
                Some(group) => {
                    let chevron = rail_chevron(self.axis, i == 0);
                    out.push(BranchItem::Rail { index: i, pane_ids: group, chevron });
                    if d < self.dividers.len() {
                        d += 1;
                    }
                    proof {
                        assert(shapes(out@) =~= shapes(before) + seq![out@.last().shape()]);
                        let tail = plan_from(self.axis, s, self.dividers@, hidden_panes@, i + 1, d as int);
                        assert(rest == seq![out@.last().shape()] + tail);
                        assert(shapes(out@) + tail =~= shapes(before) + rest);
                    }
                    i += 1;
                    continue;
                },
                None => {},
            }
            let mut flex = self.nodes[i].0;
            let moving = match node {
                PaneNode::Leaf(id) => pane_hidden_for_move(hidden_panes, id),
                PaneNode::Branch(_) => false,
            };
            if moving {
                flex = PaneFlex(0);
            }
            out.push(BranchItem::Node { index: i, flex });
            let ghost after_node = out@;
            if d < self.dividers.len() {
                if !moving && self.next_resizable_index(i, hidden_panes).is_some() {
                    out.push(BranchItem::Divider { id: self.dividers[d].id });
                }
                d += 1;
            }
            proof {
                let tail = plan_from(self.axis, s, self.dividers@, hidden_panes@, i + 1, d as int);
                assert(shapes(after_node) =~= shapes(before) + seq![after_node.last().shape()]);
                if out@.len() > after_node.len() {
                    assert(shapes(out@) =~= shapes(after_node) + seq![out@.last().shape()]);
                    assert(rest == seq![after_node.last().shape(), out@.last().shape()] + tail);
                    assert(shapes(out@) + tail =~= shapes(before) + rest);
                } else {
                    assert(out@ == after_node);
                    assert(rest == seq![after_node.last().shape()] + tail);
                    assert(shapes(out@) + tail =~= shapes(before) + rest);
                }
            }
            i += 1;
        }
        proof {
            assert(shapes(out@) + Seq::<ItemShape>::empty() =~= shapes(out@));
        }
        out
    }
}

/// What pressing the mouse on a divider does.
#[derive(PartialEq, Eq, Clone, Copy, Debug, Structural)]
pub enum DividerPress {
    /// A double click evens out the sizes around the divider.
    ResetPaneSizes(u64),
    /// Any other press starts dragging the divider.
    StartResizing(u64, SplitDirection),
}

/// The action of a mouse press on divider `border_id`, given the click count.
pub fn divider_mouse_down_action(click_count: Option<u32>, border_id: u64, direction: SplitDirection) -> (r:
    DividerPress)
    ensures
        r == if click_count == Some(2u32) {
            DividerPress::ResetPaneSizes(border_id)
        } else {
            DividerPress::StartResizing(border_id, direction)
        },
{
    match click_count {
        Some(2) => DividerPress::ResetPaneSizes(border_id),
        _ => DividerPress::StartResizing(border_id, direction),
    }
}

/// The node an item of a layout stands for; none for a divider.
pub open spec fn item_node(x: ItemShape) -> Option<int> {
    match x {
        ItemShape::Rail(i, _, _) => Some(i),
        ItemShape::Node(i, _) => Some(i),
        ItemShape::Divider(_) => None,
    }
}

/// Whether a node takes a place in its branch's layout: it shows a pane or holds one being
/// moved.
pub open spec fn takes_place(t: Tree, hidden: Seq<HiddenPane>) -> bool {
    has_visible(t, hidden) || has_moving(t, hidden)
}

/// A branch's layout lists the nodes from `i` on in their order, each node that shows a
/// pane or holds one being moved exactly once (as a rail or as a node), and no other node.
pub proof fn law_plan_lists_nodes_in_order(
    axis: SplitDirection,
    s: Seq<(PaneFlex, Tree)>,
    ds: Seq<Divider>,
    hidden: Seq<HiddenPane>,
    i: int,
    d: int,
)
    requires
        0 <= i,
    ensures
        ({
            let p = plan_from(axis, s, ds, hidden, i, d);
            &&& forall|m: int|
                0 <= m < p.len() && #[trigger] item_node(p[m]) is Some ==> i <= item_node(p[m])->0
                    < s.len()
            &&& forall|m1: int, m2: int|
                0 <= m1 < m2 < p.len() && #[trigger] item_node(p[m1]) is Some
                    && #[trigger] item_node(p[m2]) is Some ==> item_node(p[m1])->0 < item_node(
                    p[m2],
                )->0
            &&& forall|k: int|
                i <= k < s.len() ==> (takes_place(#[trigger] s[k].1, hidden) <==> exists|m: int|
                    0 <= m < p.len() && #[trigger] item_node(p[m]) == Some(k))
        }),
    decreases s.len() - i,
{
    if i < s.len() {
        let p = plan_from(axis, s, ds, hidden, i, d);
        let (head, next_d) = if !takes_place(s[i].1, hidden) {
            (Seq::<ItemShape>::empty(), d)
        } else if railed(s[i].1, hidden) is Some {
            (
                seq![ItemShape::Rail(i, railed(s[i].1, hidden)->0, chevron_for(axis, i == 0))],
                if d < ds.len() {
                    d + 1
                } else {
                    d
                },
            )
        } else {
            let item = ItemShape::Node(i, shown_flex(s[i], hidden));
            if 0 <= d < ds.len() {
                if divider_suppressed(s, hidden, i) {
                    (seq![item], d + 1)
                } else {
                    (seq![item, ItemShape::Divider(ds[d].id)], d + 1)
                }
            } else {
                (seq![item], d)
            }
        };
        let rest = plan_from(axis, s, ds, hidden, i + 1, next_d);
        law_plan_lists_nodes_in_order(axis, s, ds, hidden, i + 1, next_d);
        assert(p == head + rest);
        assert forall|m: int| 0 <= m < head.len() implies #[trigger] item_node(head[m]) is None
            || item_node(head[m]) == Some(i) by {}
        assert forall|m: int|
            0 <= m < p.len() && #[trigger] item_node(p[m]) is Some implies i <= item_node(p[m])->0
                < s.len() by {
            if m >= head.len() {
                assert(p[m] == rest[m - head.len()]);
            } else {
                assert(p[m] == head[m]);
            }
        }
        assert forall|m1: int, m2: int|
            0 <= m1 < m2 < p.len() && #[trigger] item_node(p[m1]) is Some
                && #[trigger] item_node(p[m2]) is Some implies item_node(p[m1])->0 < item_node(
            p[m2],
        )->0 by {
            if m2 < head.len() {
                assert(p[m1] == head[m1]);
                assert(p[m2] == head[m2]);
                assert(m1 == 0 && head.len() == 2);
            } else if m1 < head.len() {
                assert(p[m1] == head[m1]);
                assert(p[m2] == rest[m2 - head.len()]);
                assert(item_node(rest[m2 - head.len()]) is Some);
            } else {
                assert(p[m1] == rest[m1 - head.len()]);
                assert(p[m2] == rest[m2 - head.len()]);
                assert(item_node(rest[m1 - head.len()]) is Some);
                assert(item_node(rest[m2 - head.len()]) is Some);
            }
        }
        assert forall|k: int|
            i <= k < s.len() implies (takes_place(#[trigger] s[k].1, hidden) <==> exists|m: int|
            0 <= m < p.len() && #[trigger] item_node(p[m]) == Some(k)) by {
            if k == i {
                if takes_place(s[i].1, hidden) {
                    assert(p[0] == head[0]);
                    assert(item_node(p[0]) == Some(i));
                } else {
                    assert(head.len() == 0);
                    if exists|m: int| 0 <= m < p.len() && #[trigger] item_node(p[m]) == Some(k) {
                        let m = choose|m: int| 0 <= m < p.len() && #[trigger] item_node(p[m]) == Some(k);
                        assert(p[m] == rest[m]);
                        assert(item_node(rest[m]) is Some);
                    }
                }
            } else {
                if exists|m: int| 0 <= m < p.len() && #[trigger] item_node(p[m]) == Some(k) {
                    let m = choose|m: int| 0 <= m < p.len() && #[trigger] item_node(p[m]) == Some(k);
                    if m < head.len() {
                        assert(p[m] == head[m]);
                    } else {
                        assert(p[m] == rest[m - head.len()]);
                    }
                }
                if takes_place(s[k].1, hidden) {
                    let m = choose|m: int| 0 <= m < rest.len() && #[trigger] item_node(rest[m]) == Some(k);
                    assert(p[m + head.len()] == rest[m]);
                }
            }
        }
    }
}

} // verus!
