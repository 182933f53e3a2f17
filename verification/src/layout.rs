use vstd::prelude::*;

use crate::direction::SplitDirection;
use crate::hidden::{
    hidden_for, pane_collapsed, pane_hidden_for_child_agent, pane_hidden_for_job,
    pane_hidden_for_move, pane_hidden_for_undo, HiddenPane, HiddenPaneReason,
};
use crate::tree::{
    default_flex, leaves, trees_of, wf_tree, Divider, PaneBranch, PaneFlex, PaneId, PaneNode, Tree,
    DEFAULT_FLEX_BITS,
};

verus! {

/// Whether a leaf pane is shown: not hidden for a job, an undoable close, a
/// move or as a child agent (a collapsed or temporarily replaced pane counts
/// as shown here).
pub open spec fn leaf_shown(hidden: Seq<HiddenPane>, id: PaneId) -> bool {
    &&& !hidden_for(hidden, id, HiddenPaneReason::FromJob)
    &&& !hidden_for(hidden, id, HiddenPaneReason::Closed)
    &&& !hidden_for(hidden, id, HiddenPaneReason::FromMove)
    &&& !hidden_for(hidden, id, HiddenPaneReason::ChildAgent)
}

/// Whether some pane of the tree is shown.
pub open spec fn has_visible(t: Tree, hidden: Seq<HiddenPane>) -> bool
    decreases t, 0int,
{
    match t {
        Tree::Leaf(id) => leaf_shown(hidden, id),
        Tree::Branch(_, s, _) => any_visible_from(s, hidden, 0),
    }
}

/// Whether some sibling from index `i` on shows a pane.
pub open spec fn any_visible_from(s: Seq<(PaneFlex, Tree)>, hidden: Seq<HiddenPane>, i: int) -> bool
    decreases s, s.len() - i,
{
    if i < 0 || i >= s.len() {
        false
    } else {
        has_visible(s[i].1, hidden) || any_visible_from(s, hidden, i + 1)
    }
}

/// Whether some pane of the tree is hidden for a move.
pub open spec fn has_moving(t: Tree, hidden: Seq<HiddenPane>) -> bool
    decreases t, 0int,
{
    match t {
        Tree::Leaf(id) => hidden_for(hidden, id, HiddenPaneReason::FromMove),
        Tree::Branch(_, s, _) => any_moving_from(s, hidden, 0),
    }
}

/// Whether some sibling from index `i` on holds a pane hidden for a move.
pub open spec fn any_moving_from(s: Seq<(PaneFlex, Tree)>, hidden: Seq<HiddenPane>, i: int) -> bool
    decreases s, s.len() - i,
{
    if i < 0 || i >= s.len() {
        false
    } else {
        has_moving(s[i].1, hidden) || any_moving_from(s, hidden, i + 1)
    }
}

/// Whether a node takes part in the layout: it shows a pane or serves as a
/// drop target for a pane being moved.
pub open spec fn takes_part(t: Tree, hidden: Seq<HiddenPane>) -> bool {
    has_visible(t, hidden) || has_moving(t, hidden)
}

/// The number of siblings from index `i` on that take part in the layout.
pub open spec fn count_taking_part(s: Seq<(PaneFlex, Tree)>, hidden: Seq<HiddenPane>, i: int) -> nat
    decreases s.len() - i,
{
    if i < 0 || i >= s.len() {
        0
    } else {
        (if takes_part(s[i].1, hidden) {
            1nat
        } else {
            0nat
        }) + count_taking_part(s, hidden, i + 1)
    }
}

/// Whether the layout shows a left/right split somewhere: a horizontal branch
/// with more than one node taking part, or such a split inside a node taking
/// part.
pub open spec fn horizontal_split(t: Tree, hidden: Seq<HiddenPane>) -> bool
    decreases t, 0int,
{
    match t {
        Tree::Leaf(_) => false,
        Tree::Branch(axis, s, _) => {
            ||| (axis == SplitDirection::Horizontal && count_taking_part(s, hidden, 0) > 1)
            ||| any_split_from(s, hidden, 0)
        },
    }
}

/// Whether some sibling from index `i` on takes part in the layout and shows
/// a left/right split.
pub open spec fn any_split_from(s: Seq<(PaneFlex, Tree)>, hidden: Seq<HiddenPane>, i: int) -> bool
    decreases s, s.len() - i,
{
    if i < 0 || i >= s.len() {
        false
    } else {
        (takes_part(s[i].1, hidden) && horizontal_split(s[i].1, hidden)) || any_split_from(
            s,
            hidden,
            i + 1,
        )
    }
}

/// The panes a node renders as one rail when it is fully collapsed: a
/// collapsed leaf, or a branch all of whose panes are collapsed.
pub open spec fn railed(t: Tree, hidden: Seq<HiddenPane>) -> Option<Seq<PaneId>> {
    match t {
        Tree::Leaf(id) => if hidden_for(hidden, id, HiddenPaneReason::Collapsed) {
            Some(seq![id])
        } else {
            None
        },
        Tree::Branch(..) => if leaves(t).len() > 0 && forall|k: int|
            0 <= k < leaves(t).len() ==> hidden_for(
                hidden,
                #[trigger] leaves(t)[k],
                HiddenPaneReason::Collapsed,
            ) {
            Some(leaves(t))
        } else {
            None
        },
    }
}

/// Whether a node renders as a rail (a fixed-size, non-resizable strip).
pub open spec fn is_railed(t: Tree, hidden: Seq<HiddenPane>) -> bool {
    railed(t, hidden) is Some
}

/// The first index after `after`, from `j` on, whose node is not a rail.
pub open spec fn next_resizable_from(s: Seq<(PaneFlex, Tree)>, hidden: Seq<HiddenPane>, j: int) -> Option<
    int,
>
    decreases s.len() - j,
{
    if j < 0 || j >= s.len() {
        None
    } else if !is_railed(s[j].1, hidden) {
        Some(j)
    } else {
        next_resizable_from(s, hidden, j + 1)
    }
}

/// The index of the next node after `after` that renders as a real,
/// resizable pane.
pub open spec fn next_resizable(s: Seq<(PaneFlex, Tree)>, hidden: Seq<HiddenPane>, after: int) -> Option<
    int,
> {
    next_resizable_from(s, hidden, after + 1)
}

/// The nearest node before index `before` that renders as a real pane.
pub open spec fn prev_resizable(s: Seq<(PaneFlex, Tree)>, hidden: Seq<HiddenPane>, before: int) -> Option<
    int,
>
    decreases before,
{
    if before <= 0 {
        None
    } else if !is_railed(s[before - 1].1, hidden) {
        Some(before - 1)
    } else {
        prev_resizable(s, hidden, before - 1)
    }
}

/// Whether some branch of the tree holds a divider with this id.
pub open spec fn has_divider(t: Tree, id: u64) -> bool
    decreases t, 0int,
{
    match t {
        Tree::Leaf(_) => false,
        Tree::Branch(_, s, ds) => own_divider(ds, id) || any_divider_from(s, id, 0),
    }
}

/// Whether a branch's own dividers include one with this id.
pub open spec fn own_divider(ds: Seq<Divider>, id: u64) -> bool {
    exists|k: int| 0 <= k < ds.len() && #[trigger] ds[k].id == id
}

/// Whether some sibling from index `i` on holds a divider with this id.
pub open spec fn any_divider_from(s: Seq<(PaneFlex, Tree)>, id: u64, i: int) -> bool
    decreases s, s.len() - i,
{
    if i < 0 || i >= s.len() {
        false
    } else {
        has_divider(s[i].1, id) || any_divider_from(s, id, i + 1)
    }
}

/// Index of the first sibling, from `i` on, holding a divider with this id; -1 when none does.
pub open spec fn first_divider_child_from(s: Seq<(PaneFlex, Tree)>, id: u64, i: int) -> int
    decreases s.len() - i,
{
    if i < 0 || i >= s.len() {
        -1
    } else if has_divider(s[i].1, id) {
        i
    } else {
        first_divider_child_from(s, id, i + 1)
    }
}

pub proof fn lemma_first_divider_child_from(s: Seq<(PaneFlex, Tree)>, id: u64, i: int)
    requires
        0 <= i,
    ensures
        ({
            let c = first_divider_child_from(s, id, i);
            &&& -1 <= c < s.len()
            &&& c >= 0 ==> i <= c && has_divider(s[c].1, id)
            &&& c >= 0 ==> forall|j: int| i <= j < c ==> !has_divider(#[trigger] s[j].1, id)
            &&& c == -1 ==> forall|j: int| i <= j < s.len() ==> !has_divider(#[trigger] s[j].1, id)
        }),
    decreases s.len() - i,
{
    if i < s.len() && !has_divider(s[i].1, id) {
        lemma_first_divider_child_from(s, id, i + 1);
    }
}

/// The tree after resetting the weights of the first branch (in pre-order)
/// holding the divider `id` to the default weight.
pub open spec fn reset_tree(t: Tree, id: u64) -> Tree
    decreases t,
{
    match t {
        Tree::Leaf(_) => t,
        Tree::Branch(axis, s, ds) => if own_divider(ds, id) {
            Tree::Branch(axis, s.map_values(|x: (PaneFlex, Tree)| (default_flex(), x.1)), ds)
        } else {
            let i = first_divider_child_from(s, id, 0);
            if i < 0 {
                t
            } else {
                proof {
                    lemma_first_divider_child_from(s, id, 0);
                }
                Tree::Branch(axis, s.update(i, (s[i].0, reset_tree(s[i].1, id))), ds)
            }
        },
    }
}

/// Whether a weight, read as an `f32`, lies within `f32::EPSILON` of the
/// default weight `1.0` or is not a number: the weights that an even
/// redistribution leaves alone. These are `1.0`, its two neighbours below and
/// its neighbour above.
pub open spec fn flex_settled(bits: u32) -> bool {
    ||| bits == 0x3F7F_FFFEu32
    ||| bits == 0x3F7F_FFFFu32
    ||| bits == 0x3F80_0000u32
    ||| bits == 0x3F80_0001u32
    ||| ((bits & 0x7F80_0000u32) == 0x7F80_0000u32 && (bits & 0x007F_FFFFu32) != 0)
}

/// The tree after redistributing the weights along `axis` evenly: in every
/// branch along `axis`, each node that is not a rail gets the default weight
/// (unless already settled) and is redistributed in turn; rails keep their
/// weight and contents. Branches across `axis` only pass the redistribution on.
pub open spec fn distribute_tree(t: Tree, axis: SplitDirection, hidden: Seq<HiddenPane>) -> Tree
    decreases t,
{
    match t {
        Tree::Leaf(_) => t,
        Tree::Branch(a, s, ds) => Tree::Branch(
            a,
            Seq::new(
                s.len(),
                |j: int|
                    if 0 <= j < s.len() {
                        if a == axis && is_railed(s[j].1, hidden) {
                            s[j]
                        } else {
                            (
                                if a == axis && !flex_settled(s[j].0.0) {
                                    default_flex()
                                } else {
                                    s[j].0
                                },
                                distribute_tree(s[j].1, axis, hidden),
                            )
                        }
                    } else {
                        arbitrary()
                    },
            ),
            ds,
        ),
    }
}

/// Whether redistributing the weights along `axis` changes some weight.
pub open spec fn distribute_changes(t: Tree, axis: SplitDirection, hidden: Seq<HiddenPane>) -> bool
    decreases t, 0int,
{
    match t {
        Tree::Leaf(_) => false,
        Tree::Branch(a, s, _) => changes_from(a == axis, s, axis, hidden, 0),
    }
}

/// Whether redistributing changes a weight in some sibling from index `i` on;
/// `along` tells whether the siblings' branch runs along `axis`.
pub open spec fn changes_from(
    along: bool,
    s: Seq<(PaneFlex, Tree)>,
    axis: SplitDirection,
    hidden: Seq<HiddenPane>,
    i: int,
) -> bool
    decreases s, s.len() - i,
{
    if i < 0 || i >= s.len() {
        false
    } else {
        let here = if along {
            !is_railed(s[i].1, hidden) && (!flex_settled(s[i].0.0) || distribute_changes(
                s[i].1,
                axis,
                hidden,
            ))
        } else {
            distribute_changes(s[i].1, axis, hidden)
        };
        here || changes_from(along, s, axis, hidden, i + 1)
    }
}


impl PaneNode {
    /// Whether some pane of this node is shown.
    pub fn has_visible_children(&self, hidden_panes: &[HiddenPane]) -> (r: bool)
        ensures
            r == has_visible(self@, hidden_panes@),
        decreases self,
    {
        match self {
            PaneNode::Leaf(pane_id) => {
                !pane_hidden_for_job(hidden_panes, pane_id) && !pane_hidden_for_undo(
                    hidden_panes,
                    pane_id,
                ) && !pane_hidden_for_move(hidden_panes, pane_id) && !pane_hidden_for_child_agent(
                    hidden_panes,
                    pane_id,
                )
            },
            PaneNode::Branch(branch) => branch.has_visible_children(hidden_panes),
        }
    }

    /// Whether some pane of this node is hidden for a move.
    pub fn has_children_hidden_for_move(&self, hidden_panes: &[HiddenPane]) -> (r: bool)
        ensures
            r == has_moving(self@, hidden_panes@),
        decreases self,
    {
        match self {
            PaneNode::Leaf(pane_id) => pane_hidden_for_move(hidden_panes, pane_id),
            PaneNode::Branch(branch) => branch.has_children_hidden_for_move(hidden_panes),
        }
    }

    /// Whether the layout of this node shows a left/right split.
    pub fn has_horizontal_split(&self, hidden_panes: &[HiddenPane]) -> (r: bool)
        ensures
            r == horizontal_split(self@, hidden_panes@),
        decreases self,
    {
        match self {
            PaneNode::Leaf(_) => false,
            PaneNode::Branch(branch) => branch.has_horizontal_split(hidden_panes),
        }
    }

    /// Number of splits at the node along `axis`; one for a leaf or a branch
    /// across `axis`.
    pub fn num_splits_in_direction(&self, axis: SplitDirection) -> (r: usize)
        ensures
            r == match self@ {
                Tree::Branch(a, s, _) if a == axis => s.len(),
                _ => 1,
            },
    {
        match self {
            PaneNode::Branch(branch) if branch.axis == axis => {
                proof {
                    assert(trees_of(branch.nodes@).len() == branch.nodes@.len());
                }
                branch.nodes.len()
            },
            _ => 1,
        }
    }
}

impl PaneBranch {
    /// Whether the layout of this branch shows a left/right split.
    pub fn has_horizontal_split(&self, hidden_panes: &[HiddenPane]) -> (r: bool)
        ensures
            r == horizontal_split(self@, hidden_panes@),
        decreases self,
    {
        let ghost s = trees_of(self.nodes@);
        let mut visible_or_move_children: usize = 0;
        let mut any_child_split = false;
        let mut i: usize = 0;
        while i < self.nodes.len()
            invariant
                i <= self.nodes.len(),
                s == trees_of(self.nodes@),
                visible_or_move_children <= i,
                visible_or_move_children + count_taking_part(s, hidden_panes@, i as int)
                    == count_taking_part(s, hidden_panes@, 0),
                any_split_from(s, hidden_panes@, 0) == (any_child_split || any_split_from(
                    s,
                    hidden_panes@,
                    i as int,
                )),
            decreases self.nodes.len() - i,
        {
            proof {
                crate::tree::lemma_trees_of_index(self.nodes@, i as int);
            }
            let child = &self.nodes[i].1;
            if child.has_visible_children(hidden_panes) || child.has_children_hidden_for_move(
                hidden_panes,
            ) {
                visible_or_move_children += 1;
                if child.has_horizontal_split(hidden_panes) {
                    any_child_split = true;
                }
            }
            i += 1;
        }
        self.axis == SplitDirection::Horizontal && visible_or_move_children > 1 || any_child_split
    }

    /// Whether some pane of this branch is shown.
    pub fn has_visible_children(&self, hidden_panes: &[HiddenPane]) -> (r: bool)
        ensures
            r == has_visible(self@, hidden_panes@),
        decreases self,
    {
        let ghost s = trees_of(self.nodes@);
        let mut i: usize = 0;
        while i < self.nodes.len()
            invariant
                i <= self.nodes.len(),
                s == trees_of(self.nodes@),
                has_visible(self@, hidden_panes@) == any_visible_from(s, hidden_panes@, i as int),
            decreases self.nodes.len() - i,
        {
            proof {
                crate::tree::lemma_trees_of_index(self.nodes@, i as int);
            }
            if self.nodes[i].1.has_visible_children(hidden_panes) {


                return true;
            }
            i += 1;
        }
        false
    }

    /// Whether some pane of this branch is hidden for a move.
    pub fn has_children_hidden_for_move(&self, hidden_panes: &[HiddenPane]) -> (r: bool)
        ensures
            r == has_moving(self@, hidden_panes@),
        decreases self,
    {
        let ghost s = trees_of(self.nodes@);
        let mut i: usize = 0;
        while i < self.nodes.len()
            invariant
                i <= self.nodes.len(),
                s == trees_of(self.nodes@),
                has_moving(self@, hidden_panes@) == any_moving_from(s, hidden_panes@, i as int),
            decreases self.nodes.len() - i,
        {
            proof {
                crate::tree::lemma_trees_of_index(self.nodes@, i as int);
            }
            if self.nodes[i].1.has_children_hidden_for_move(hidden_panes) {

                return true;
            }
            i += 1;
        }
        false
    }
}


/// The panes a node renders as a single rail when it is fully collapsed: a
/// collapsed leaf, or a branch whose every pane is collapsed. `None` when the
/// node has at least one pane that is not collapsed.
pub fn railed_pane_ids(node: &PaneNode, hidden_panes: &[HiddenPane]) -> (r: Option<Vec<PaneId>>)
    ensures
        r matches Some(v) ==> railed(node@, hidden_panes@) == Some(v@),
        r is None ==> railed(node@, hidden_panes@) is None,
{
    match node {
        PaneNode::Leaf(id) => {
            if pane_collapsed(hidden_panes, id) {
                Some(vec![*id])
            } else {
                None
            }
        },
        PaneNode::Branch(_) => {
            let ids = node.pane_ids();
            if ids.len() == 0 {
                return None;
            }
            let mut k: usize = 0;
            while k < ids.len()
                invariant
                    k <= ids.len(),
                    ids@ == leaves(node@),
                    forall|j: int|
                        0 <= j < k ==> hidden_for(
                            hidden_panes@,
                            #[trigger] ids@[j],
                            HiddenPaneReason::Collapsed,
                        ),
                decreases ids.len() - k,
            {
                if !pane_collapsed(hidden_panes, &ids[k]) {
                    return None;
                }
                k += 1;
            }
            Some(ids)
        },
    }
}

/// Whether a node renders as a rail (a fixed-size, non-resizable strip)
/// rather than a real pane.
pub fn is_railed_node(node: &PaneNode, hidden_panes: &[HiddenPane]) -> (r: bool)
    ensures
        r == is_railed(node@, hidden_panes@),
{
    railed_pane_ids(node, hidden_panes).is_some()
}

impl PaneBranch {
    /// The index of the next node after `after` that renders as a real,
    /// resizable pane, skipping rails. `None` when only rails or the branch's
    /// trailing edge follow.
    pub fn next_resizable_index(&self, after: usize, hidden_panes: &[HiddenPane]) -> (r: Option<
        usize,
    >)
        ensures
            r matches Some(j) ==> next_resizable(trees_of(self.nodes@), hidden_panes@, after as int)
                == Some(j as int),
            r is None ==> next_resizable(trees_of(self.nodes@), hidden_panes@, after as int) is None,
    {
        let ghost s = trees_of(self.nodes@);
        proof {
            assert(s.len() == self.nodes@.len());
        }
        if after >= self.nodes.len() {
            return None;
        }
        let mut j = after + 1;
        while j < self.nodes.len()
            invariant
                after < j,
                s == trees_of(self.nodes@),
                next_resizable(s, hidden_panes@, after as int) == next_resizable_from(
                    s,
                    hidden_panes@,
                    j as int,
                ),
            decreases self.nodes.len() - j,
        {
            proof {
                crate::tree::lemma_trees_of_index(self.nodes@, j as int);
            }
            if !is_railed_node(&self.nodes[j].1, hidden_panes) {
                return Some(j);
            }
            j += 1;
        }
        proof {
            assert(s.len() == self.nodes@.len());
        }
        None
    }

    /// The nearest real, resizable pane before `before`, skipping rails.
    pub fn prev_resizable_index(&self, before: usize, hidden_panes: &[HiddenPane]) -> (r: Option<
        usize,
    >)
        requires
            before <= self.nodes.len(),
        ensures
            r matches Some(j) ==> prev_resizable(trees_of(self.nodes@), hidden_panes@, before as int)
                == Some(j as int),
            r is None ==> prev_resizable(trees_of(self.nodes@), hidden_panes@, before as int) is None,
    {
        let ghost s = trees_of(self.nodes@);
        let mut j = before;
        while j > 0
            invariant
                j <= before <= self.nodes.len(),
                s == trees_of(self.nodes@),
                prev_resizable(s, hidden_panes@, before as int) == prev_resizable(
                    s,
                    hidden_panes@,
                    j as int,
                ),
            decreases j,
        {
            proof {
                crate::tree::lemma_trees_of_index(self.nodes@, j - 1);
            }
            if !is_railed_node(&self.nodes[j - 1].1, hidden_panes) {
                return Some(j - 1);
            }
            j -= 1;
        }
        None
    }

    /// The two real panes a drag of divider `divider_idx` resizes: the pane
    /// owning the divider and the nearest real pane beyond it, leaving any
    /// rails between them at their fixed size. `None` when the owner is a
    /// rail or no real pane follows.
    pub fn resize_pair_across_rails(&self, divider_idx: usize, hidden_panes: &[HiddenPane]) -> (r:
        Option<(usize, usize)>)
        requires
            divider_idx < self.nodes.len(),
        ensures
            ({
                let s = trees_of(self.nodes@);
                let expected = if is_railed(s[divider_idx as int].1, hidden_panes@) {
                    None
                } else {
                    next_resizable(s, hidden_panes@, divider_idx as int)
                };
                &&& r matches Some(p) ==> p.0 == divider_idx && expected == Some(p.1 as int)
                &&& r is None ==> expected is None
            }),
    {
        proof {
            crate::tree::lemma_trees_of_index(self.nodes@, divider_idx as int);
        }
        if is_railed_node(&self.nodes[divider_idx].1, hidden_panes) {
            return None;
        }
        match self.next_resizable_index(divider_idx, hidden_panes) {
            Some(right) => Some((divider_idx, right)),
            None => None,
        }
    }

    /// Which divider a keyboard resize of the focused pane at `focused_idx`
    /// acts on: its own trailing divider when a real pane follows (skipping
    /// rails), otherwise the divider of the nearest real pane before it.
    /// `None` when it is the only real pane in the branch.
    pub fn keyboard_resize_divider_idx(&self, focused_idx: usize, hidden_panes: &[HiddenPane]) -> (r:
        Option<usize>)
        requires
            focused_idx <= self.nodes.len(),
        ensures
            ({
                let s = trees_of(self.nodes@);
                let expected = if next_resizable(s, hidden_panes@, focused_idx as int) is Some {
                    Some(focused_idx as int)
                } else {
                    prev_resizable(s, hidden_panes@, focused_idx as int)
                };
                &&& r matches Some(j) ==> expected == Some(j as int)
                &&& r is None ==> expected is None
            }),
    {
        if self.next_resizable_index(focused_idx, hidden_panes).is_some() {
            Some(focused_idx)
        } else {
            self.prev_resizable_index(focused_idx, hidden_panes)
        }
    }
}


/// Whether a weight, read as an `f32`, is within `f32::EPSILON` of `1.0` or is
/// not a number (see [`flex_settled`]).
pub fn is_flex_settled(flex: PaneFlex) -> (r: bool)
    ensures
        r == flex_settled(flex.0),
{
    let bits = flex.0;
    bits == 0x3F7F_FFFEu32 || bits == 0x3F7F_FFFFu32 || bits == 0x3F80_0000u32 || bits
        == 0x3F80_0001u32 || ((bits & 0x7F80_0000u32) == 0x7F80_0000u32 && (bits & 0x007F_FFFFu32)
        != 0)
}

impl PaneNode {
    /// Whether some branch of this node holds a divider with this id.
    pub fn has_divider_id(&self, border_id: u64) -> (r: bool)
        ensures
            r == has_divider(self@, border_id),
        decreases self,
    {
        match self {
            PaneNode::Leaf(_) => false,
            PaneNode::Branch(branch) => branch.has_divider_id(border_id),
        }
    }

    /// Resets the weights of the first branch holding divider `border_id` to
    /// the default weight. Returns whether such a branch was found.
    pub fn reset_pane_sizes(&mut self, border_id: u64) -> (r: bool)
        ensures
            r == has_divider(old(self)@, border_id),
            final(self)@ == reset_tree(old(self)@, border_id),
        decreases *old(self),
    {
        match self {
            PaneNode::Leaf(_) => false,
            PaneNode::Branch(branch) => branch.reset_pane_sizes(border_id),
        }
    }

    /// Redistributes the weights along `axis` evenly (see [`distribute_tree`]).
    /// Returns whether some weight changed.
    pub fn distribute_pane_sizes(&mut self, axis: SplitDirection, hidden_panes: &[HiddenPane]) -> (r:
        bool)
        ensures
            r == distribute_changes(old(self)@, axis, hidden_panes@),
            final(self)@ == distribute_tree(old(self)@, axis, hidden_panes@),
        decreases *old(self),
    {
        match self {
            PaneNode::Leaf(_) => false,
            PaneNode::Branch(branch) => branch.distribute_pane_sizes(axis, hidden_panes),
        }
    }
}

impl PaneBranch {
    /// Whether this branch holds a divider with this id, itself or deeper.
    pub fn has_divider_id(&self, border_id: u64) -> (r: bool)
        ensures
            r == has_divider(self@, border_id),
        decreases self,
    {
        if self.owns_divider(border_id) {
            return true;
        }
        let ghost s = trees_of(self.nodes@);
        let mut i: usize = 0;
        while i < self.nodes.len()
            invariant
                i <= self.nodes.len(),
                s == trees_of(self.nodes@),
                any_divider_from(s, border_id, 0) == any_divider_from(s, border_id, i as int),
            decreases self.nodes.len() - i,
        {
            proof {
                crate::tree::lemma_trees_of_index(self.nodes@, i as int);
            }
            if self.nodes[i].1.has_divider_id(border_id) {
                return true;
            }
            i += 1;
        }
        false
    }

    /// Whether this branch's own dividers include one with this id.
    pub fn owns_divider(&self, border_id: u64) -> (r: bool)
        ensures
            r == own_divider(self.dividers@, border_id),
    {
        let mut k: usize = 0;
        while k < self.dividers.len()
            invariant
                k <= self.dividers.len(),
                forall|j: int| 0 <= j < k ==> #[trigger] self.dividers@[j].id != border_id,
            decreases self.dividers.len() - k,
        {
            if self.dividers[k].id == border_id {
                assert(self.dividers@[k as int].id == border_id);
                return true;
            }
            k += 1;
        }
        false
    }

    /// See [`PaneNode::reset_pane_sizes`].
    pub fn reset_pane_sizes(&mut self, border_id: u64) -> (r: bool)
        ensures
            r == has_divider(old(self)@, border_id),
            final(self)@ == reset_tree(old(self)@, border_id),
        decreases *old(self),
    {
        let ghost s = trees_of(self.nodes@);
        let ghost old_nodes = self.nodes@;
        if self.owns_divider(border_id) {
            let mut i: usize = 0;
            while i < self.nodes.len()
                invariant
                    i <= self.nodes.len(),
                    self.nodes.len() == old_nodes.len(),
                    self.axis == old(self).axis,
                    self.dividers == old(self).dividers,
                    forall|j: int|
                        0 <= j < self.nodes.len() ==> (#[trigger] self.nodes@[j]).1 == old_nodes[j].1,
                    forall|j: int| 0 <= j < i ==> (#[trigger] self.nodes@[j]).0 == default_flex(),
                decreases self.nodes.len() - i,
            {
                let (_, node) = self.nodes.remove(i);
                self.nodes.insert(i, (PaneFlex(DEFAULT_FLEX_BITS), node));
                i += 1;
            }
            proof {
                assert(trees_of(self.nodes@) =~= s.map_values(|x: (PaneFlex, Tree)| (default_flex(), x.1)));
            }
            return true;
        }
        proof {
            lemma_first_divider_child_from(s, border_id, 0);
        }
        let mut i: usize = 0;
        while i < self.nodes.len()
            invariant
                i <= self.nodes.len(),
                s == trees_of(self.nodes@),
                self.nodes@ == old_nodes,
                old_nodes == old(self).nodes@,
                self.axis == old(self).axis,
                self.dividers == old(self).dividers,
                !own_divider(self.dividers@, border_id),
                first_divider_child_from(s, border_id, 0) == first_divider_child_from(
                    s,
                    border_id,
                    i as int,
                ),
                any_divider_from(s, border_id, 0) == any_divider_from(s, border_id, i as int),
            decreases self.nodes.len() - i,
        {
            proof {
                crate::tree::lemma_trees_of_index(self.nodes@, i as int);
            }
            if self.nodes[i].1.has_divider_id(border_id) {
                let (flex, mut node) = self.nodes.remove(i);
                proof {
                    assert(node == old(self).nodes@[i as int].1);
                    assert(decreases_to!(old(self).nodes => old(self).nodes@));
                }
                node.reset_pane_sizes(border_id);
                let ghost nn = node;
                self.nodes.insert(i, (flex, node));
                proof {
                    assert(self.nodes@ =~= old_nodes.update(i as int, (flex, nn)));
                    crate::tree::lemma_trees_of_update(old_nodes, i as int, (flex, nn));
                }
                return true;
            }
            i += 1;
        }
        false
    }

    /// See [`PaneNode::distribute_pane_sizes`].
    pub fn distribute_pane_sizes(&mut self, axis: SplitDirection, hidden_panes: &[HiddenPane]) -> (r:
        bool)
        ensures
            r == distribute_changes(old(self)@, axis, hidden_panes@),
            final(self)@ == distribute_tree(old(self)@, axis, hidden_panes@),
        decreases *old(self),
    {
        let ghost s = trees_of(self.nodes@);
        let ghost old_nodes = self.nodes@;
        let ghost target = distribute_tree(old(self)@, axis, hidden_panes@);
        let along = self.axis == axis;
        let mut changed = false;
        let mut i: usize = 0;
        proof {
            assert(s.len() == old_nodes.len());
        }
        while i < self.nodes.len()
            invariant
                i <= self.nodes.len(),
                self.nodes.len() == old_nodes.len(),
                s == trees_of(old_nodes),
                s.len() == old_nodes.len(),
                old_nodes == old(self).nodes@,
                along == (old(self).axis == axis),
                self.axis == old(self).axis,
                self.dividers == old(self).dividers,
                target == distribute_tree(old(self)@, axis, hidden_panes@),
                forall|j: int| i <= j < self.nodes.len() ==> #[trigger] self.nodes@[j] == old_nodes[j],
                forall|j: int|
                    0 <= j < i ==> (#[trigger] trees_of(self.nodes@)[j]) == target->Branch_1[j],
                changes_from(along, s, axis, hidden_panes@, 0) == (changed || changes_from(
                    along,
                    s,
                    axis,
                    hidden_panes@,
                    i as int,
                )),
            decreases self.nodes.len() - i,
        {
            proof {
                crate::tree::lemma_trees_of_index(old_nodes, i as int);
                crate::tree::lemma_trees_of_index(self.nodes@, i as int);
            }
            let ghost before = self.nodes@;
            if along && is_railed_node(&self.nodes[i].1, hidden_panes) {
                proof {
                    assert forall|j: int| 0 <= j <= i implies (#[trigger] trees_of(self.nodes@)[j])
                        == target->Branch_1[j] by {
                        crate::tree::lemma_trees_of_index(self.nodes@, j);
                    }
                }
                i += 1;
                continue;
            }
            let (mut flex, mut node) = self.nodes.remove(i);
            proof {
                assert(node == old(self).nodes@[i as int].1);
                assert(decreases_to!(old(self).nodes => old(self).nodes@));
            }
            if along && !is_flex_settled(flex) {
                flex = PaneFlex(DEFAULT_FLEX_BITS);
                changed = true;
            }
            let c = node.distribute_pane_sizes(axis, hidden_panes);
            changed = changed || c;
            let ghost nn = node;
            self.nodes.insert(i, (flex, node));
            proof {
                assert(self.nodes@ =~= before.update(i as int, (flex, nn)));
                crate::tree::lemma_trees_of_update(before, i as int, (flex, nn));
                assert forall|j: int| 0 <= j <= i implies (#[trigger] trees_of(self.nodes@)[j])
                    == target->Branch_1[j] by {
                    crate::tree::lemma_trees_of_index(self.nodes@, j);
                    crate::tree::lemma_trees_of_index(before, j);
                }
            }
            i += 1;
        }
        proof {
            assert(trees_of(self.nodes@) =~= target->Branch_1);
        }
        changed
    }
}


/// Resetting weights keeps the panes and the well-formedness of a tree.
pub proof fn lemma_reset_tree(t: Tree, id: u64)
    ensures
        wf_tree(t) ==> wf_tree(reset_tree(t, id)),
        leaves(reset_tree(t, id)) == leaves(t),
    decreases t,
{
    match t {
        Tree::Leaf(_) => {},
        Tree::Branch(axis, s, ds) => {
            if own_divider(ds, id) {
                let s2 = s.map_values(|x: (PaneFlex, Tree)| (default_flex(), x.1));
                lemma_same_children(s, s2);
            } else {
                lemma_first_divider_child_from(s, id, 0);
                let i = first_divider_child_from(s, id, 0);
                if i >= 0 {
                    lemma_reset_tree(s[i].1, id);
                    let s2 = s.update(i, (s[i].0, reset_tree(s[i].1, id)));
                    crate::tree::lemma_leaves_of_update(s, i, (s[i].0, reset_tree(s[i].1, id)));
                    crate::tree::lemma_leaves_of_split(s, i);
                    assert forall|j: int| 0 <= j < s2.len() && wf_tree(t) implies wf_tree(
                        #[trigger] s2[j].1,
                    ) by {
                        if j != i {
                            assert(s2[j] == s[j]);
                        }
                    }
                }
            }
        },
    }
}

/// Siblings with the same trees (weights aside) have the same panes.
pub proof fn lemma_same_children(s: Seq<(PaneFlex, Tree)>, s2: Seq<(PaneFlex, Tree)>)
    requires
        s.len() == s2.len(),
        forall|j: int| 0 <= j < s.len() ==> (#[trigger] s2[j]).1 == s[j].1,
    ensures
        crate::tree::leaves_of(s2) == crate::tree::leaves_of(s),
    decreases s.len(),
{
    if s.len() > 0 {
        lemma_same_children(s.drop_last(), s2.drop_last());
    }
}

/// Redistributing weights keeps the panes and the well-formedness of a tree.
pub proof fn lemma_distribute_tree(t: Tree, axis: SplitDirection, hidden: Seq<HiddenPane>)
    ensures
        wf_tree(t) ==> wf_tree(distribute_tree(t, axis, hidden)),
        leaves(distribute_tree(t, axis, hidden)) == leaves(t),
    decreases t,
{
    match t {
        Tree::Leaf(_) => {},
        Tree::Branch(a, s, ds) => {
            let s2 = distribute_tree(t, axis, hidden)->Branch_1;
            assert forall|j: int| 0 <= j < s.len() implies leaves((#[trigger] s2[j]).1) == leaves(
                s[j].1,
            ) && (wf_tree(s[j].1) ==> wf_tree(s2[j].1)) by {
                lemma_distribute_tree(s[j].1, axis, hidden);
            }
            lemma_same_leaves_children(s, s2);
        },
    }
}

/// Siblings whose trees have the same panes, one by one, have the same panes.
pub proof fn lemma_same_leaves_children(s: Seq<(PaneFlex, Tree)>, s2: Seq<(PaneFlex, Tree)>)
    requires
        s.len() == s2.len(),
        forall|j: int| 0 <= j < s.len() ==> leaves((#[trigger] s2[j]).1) == leaves(s[j].1),
    ensures
        crate::tree::leaves_of(s2) == crate::tree::leaves_of(s),
    decreases s.len(),
{
    if s.len() > 0 {
        lemma_same_leaves_children(s.drop_last(), s2.drop_last());
        assert(leaves(s2.last().1) == leaves(s.last().1));
    }
}


/// The path of child indices from the root of `t` to the first branch (in
/// pre-order) that holds divider `id`.
pub open spec fn divider_path(t: Tree, id: u64) -> Option<Seq<int>>
    decreases t,
{
    match t {
        Tree::Leaf(_) => None,
        Tree::Branch(_, s, ds) => if own_divider(ds, id) {
            Some(Seq::empty())
        } else {
            let i = first_divider_child_from(s, id, 0);
            if i < 0 {
                None
            } else {
                proof {
                    lemma_first_divider_child_from(s, id, 0);
                }
                match divider_path(s[i].1, id) {
                    Some(p) => Some(seq![i] + p),
                    None => None,
                }
            }
        },
    }
}

/// The node reached from `t` by following the child indices of `path`
/// (stopping where the path leaves the tree).
pub open spec fn subtree_at(t: Tree, path: Seq<int>) -> Tree
    decreases path.len(),
{
    if path.len() == 0 {
        t
    } else {
        match t {
            Tree::Branch(_, s, _) => if 0 <= path[0] < s.len() {
                subtree_at(s[path[0]].1, path.drop_first())
            } else {
                t
            },
            _ => t,
        }
    }
}

/// `t` with the weights of nodes `left` and `right` of the branch at `path`
/// set to `lf` and `rf`.
pub open spec fn set_pair_at(t: Tree, path: Seq<int>, left: int, right: int, lf: PaneFlex, rf: PaneFlex) -> Tree
    decreases path.len(),
{
    match t {
        Tree::Branch(a, s, ds) => if path.len() == 0 {
            if 0 <= left < s.len() && 0 <= right < s.len() {
                Tree::Branch(a, s.update(left, (lf, s[left].1)).update(right, (rf, s[right].1)), ds)
            } else {
                t
            }
        } else if 0 <= path[0] < s.len() {
            Tree::Branch(
                a,
                s.update(
                    path[0],
                    (s[path[0]].0, set_pair_at(s[path[0]].1, path.drop_first(), left, right, lf, rf)),
                ),
                ds,
            )
        } else {
            t
        },
        _ => t,
    }
}

/// The divider ids a keyboard resize of pane `pane` along `axis` acts on,
/// in order, and whether the resize is still to be handled further up.
pub open spec fn key_resize(t: Tree, pane: PaneId, axis: SplitDirection, hidden: Seq<HiddenPane>) -> (
    bool,
    Seq<u64>,
)
    decreases t, 0int,
{
    match t {
        Tree::Leaf(id) => (id == pane, Seq::empty()),
        Tree::Branch(a, s, ds) => key_resize_from(a, s, ds, pane, axis, hidden, 0),
    }
}

/// The keyboard resize of [`key_resize`] over the nodes of a branch from
/// index `i` on.
pub open spec fn key_resize_from(
    a: SplitDirection,
    s: Seq<(PaneFlex, Tree)>,
    ds: Seq<Divider>,
    pane: PaneId,
    axis: SplitDirection,
    hidden: Seq<HiddenPane>,
    i: int,
) -> (bool, Seq<u64>)
    decreases s, s.len() - i,
{
    if i < 0 || i >= s.len() {
        (false, Seq::empty())
    } else {
        let child = key_resize(s[i].1, pane, axis, hidden);
        if child.0 {
            if axis != a {
                (true, child.1)
            } else {
                let k = if next_resizable(s, hidden, i) is Some {
                    Some(i)
                } else {
                    prev_resizable(s, hidden, i)
                };
                (
                    false,
                    child.1 + match k {
                        Some(k) => seq![ds[k].id],
                        None => Seq::empty(),
                    },
                )
            }
        } else {
            let rest = key_resize_from(a, s, ds, pane, axis, hidden, i + 1);
            (rest.0, child.1 + rest.1)
        }
    }
}

impl PaneNode {
    /// The path of child indices to the first branch holding divider `border_id`.
    pub fn divider_path(&self, border_id: u64) -> (r: Option<Vec<usize>>)
        ensures
            r matches Some(v) ==> divider_path(self@, border_id) == Some(v@.map_values(|k: usize| k as int)),
            r is None ==> divider_path(self@, border_id) is None,
        decreases self,
    {
        match self {
            PaneNode::Leaf(_) => None,
            PaneNode::Branch(branch) => branch.divider_path(border_id),
        }
    }

    /// The divider ids a keyboard resize of `pane_id` along `axis` acts on,
    /// and whether the resize is still to be handled further up.
    pub fn keyboard_resize_dividers(&self, pane_id: PaneId, axis: SplitDirection, hidden_panes: &[HiddenPane]) -> (r: (bool, Vec<u64>))
        requires
            wf_tree(self@),
        ensures
            (r.0, r.1@) == key_resize(self@, pane_id, axis, hidden_panes@),
        decreases self,
    {
        match self {
            PaneNode::Leaf(id) => (*id == pane_id, Vec::new()),
            PaneNode::Branch(branch) => branch.keyboard_resize_dividers(pane_id, axis, hidden_panes),
        }
    }

    /// Sets the weights of nodes `left` and `right` of the branch reached by
    /// following the child indices of `path` from position `from` on.
    pub fn set_pair_flex(
        &mut self,
        path: &Vec<usize>,
        from: usize,
        left: usize,
        right: usize,
        left_flex: PaneFlex,
        right_flex: PaneFlex,
    )
        requires
            from <= path.len(),
        ensures
            final(self)@ == set_pair_at(
                old(self)@,
                path@.skip(from as int).map_values(|k: usize| k as int),
                left as int,
                right as int,
                left_flex,
                right_flex,
            ),
        decreases path.len() - from, 1int,
    {
        match self {
            PaneNode::Leaf(_) => {},
            PaneNode::Branch(branch) => branch.set_pair_flex(
                path,
                from,
                left,
                right,
                left_flex,
                right_flex,
            ),
        }
    }
}

impl PaneBranch {
    /// See [`PaneNode::divider_path`].
    pub fn divider_path(&self, border_id: u64) -> (r: Option<Vec<usize>>)
        ensures
            r matches Some(v) ==> divider_path(self@, border_id) == Some(v@.map_values(|k: usize| k as int)),
            r is None ==> divider_path(self@, border_id) is None,
        decreases self,
    {
        if self.owns_divider(border_id) {
            let v: Vec<usize> = Vec::new();
            proof {
                assert(v@.map_values(|k: usize| k as int) =~= Seq::<int>::empty());
            }
            return Some(v);
        }
        let ghost s = trees_of(self.nodes@);
        proof {
            lemma_first_divider_child_from(s, border_id, 0);
        }
        let mut i: usize = 0;
        while i < self.nodes.len()
            invariant
                i <= self.nodes.len(),
                s == trees_of(self.nodes@),
                !own_divider(self.dividers@, border_id),
                first_divider_child_from(s, border_id, 0) == first_divider_child_from(s, border_id, i as int),
            decreases self.nodes.len() - i,
        {
            proof {
                crate::tree::lemma_trees_of_index(self.nodes@, i as int);
            }
            if self.nodes[i].1.has_divider_id(border_id) {
                return match self.nodes[i].1.divider_path(border_id) {
                    Some(mut p) => {
                        let mut v = vec![i];
                        let ghost pv = p@;
                        v.append(&mut p);
                        proof {
                            assert(v@.map_values(|k: usize| k as int) =~= seq![i as int] + pv.map_values(|k: usize| k as int));
                        }
                        Some(v)
                    },
                    None => None,
                };
            }
            i += 1;
        }
        None
    }

    /// See [`PaneNode::keyboard_resize_dividers`].
    pub fn keyboard_resize_dividers(&self, pane_id: PaneId, axis: SplitDirection, hidden_panes: &[HiddenPane]) -> (r: (bool, Vec<u64>))
        requires
            wf_tree(self@),
        ensures
            (r.0, r.1@) == key_resize(self@, pane_id, axis, hidden_panes@),
        decreases self,
    {
        let ghost s = trees_of(self.nodes@);
        let mut acts: Vec<u64> = Vec::new();
        let mut idx: usize = 0;
        while idx < self.nodes.len()
            invariant
                idx <= self.nodes.len(),
                s == trees_of(self.nodes@),
                wf_tree(self@),
                ({
                    let rest = key_resize_from(self.axis, s, self.dividers@, pane_id, axis, hidden_panes@, idx as int);
                    key_resize(self@, pane_id, axis, hidden_panes@) == (rest.0, acts@ + rest.1)
                }),
            decreases self.nodes.len() - idx,
        {
            proof {
                crate::tree::lemma_trees_of_index(self.nodes@, idx as int);
                assert(wf_tree(s[idx as int].1));
            }
            let (hit, mut child_acts) = self.nodes[idx].1.keyboard_resize_dividers(pane_id, axis, hidden_panes);
            let ghost prev = acts@;
            let ghost ca = child_acts@;
            acts.append(&mut child_acts);
            if hit {
                if axis != self.axis {
                    proof {
                        assert(prev + ca == acts@);
                        assert(prev + (ca + Seq::<u64>::empty()) =~= acts@);
                    }
                    return (true, acts);
                }
                if let Some(divider_idx) = self.keyboard_resize_divider_idx(idx, hidden_panes) {
                    proof {
                        assert(self.dividers@.len() + 1 == self.nodes@.len());
                        if crate::layout::next_resizable(s, hidden_panes@, idx as int) is Some {
                            lemma_next_resizable_bound(s, hidden_panes@, idx as int);
                        } else {
                            lemma_prev_resizable_bound(s, hidden_panes@, idx as int);
                        }
                    }
                    acts.push(self.dividers[divider_idx].id);
                    proof {
                        assert(prev + (ca + seq![self.dividers@[divider_idx as int].id]) =~= acts@);
                    }
                } else {
                    proof {
                        assert(prev + (ca + Seq::<u64>::empty()) =~= acts@);
                    }
                }
                return (false, acts);
            }
            proof {
                let rest = key_resize_from(self.axis, s, self.dividers@, pane_id, axis, hidden_panes@, idx + 1);
                assert(prev + (ca + rest.1) =~= acts@ + rest.1);
            }
            idx += 1;
        }
        proof {
            assert(acts@ + Seq::<u64>::empty() =~= acts@);
        }
        (false, acts)
    }

    /// See [`PaneNode::set_pair_flex`].
    pub fn set_pair_flex(
        &mut self,
        path: &Vec<usize>,
        from: usize,
        left: usize,
        right: usize,
        left_flex: PaneFlex,
        right_flex: PaneFlex,
    )
        requires
            from <= path.len(),
        ensures
            final(self)@ == set_pair_at(
                old(self)@,
                path@.skip(from as int).map_values(|k: usize| k as int),
                left as int,
                right as int,
                left_flex,
                right_flex,
            ),
        decreases path.len() - from, 0int,
    {
        let ghost p = path@.skip(from as int).map_values(|k: usize| k as int);
        let ghost old_nodes = self.nodes@;
        if from == path.len() {
            proof {
                assert(p.len() == 0);
            }
            if left < self.nodes.len() && right < self.nodes.len() {
                let (_, l) = self.nodes.remove(left);
                self.nodes.insert(left, (left_flex, l));
                let ghost mid = self.nodes@;
                let (_, r) = self.nodes.remove(right);
                self.nodes.insert(right, (right_flex, r));
                proof {
                    crate::tree::lemma_trees_of_index(old_nodes, left as int);
                    crate::tree::lemma_trees_of_index(mid, right as int);
                    assert(mid =~= old_nodes.update(left as int, (left_flex, old_nodes[left as int].1)));
                    crate::tree::lemma_trees_of_update(
                        old_nodes,
                        left as int,
                        (left_flex, old_nodes[left as int].1),
                    );
                    assert(self.nodes@ =~= mid.update(right as int, (right_flex, mid[right as int].1)));
                    crate::tree::lemma_trees_of_update(
                        mid,
                        right as int,
                        (right_flex, mid[right as int].1),
                    );
                }
            }
        } else {
            let k = path[from];
            proof {
                assert(p[0] == k as int);
                assert(path@.skip(from + 1).map_values(|k: usize| k as int) =~= p.drop_first());
            }
            if k < self.nodes.len() {
                proof {
                    crate::tree::lemma_trees_of_index(old_nodes, k as int);
                }
                let (f, mut node) = self.nodes.remove(k);
                node.set_pair_flex(path, from + 1, left, right, left_flex, right_flex);
                let ghost nn = node;
                self.nodes.insert(k, (f, node));
                proof {
                    assert(self.nodes@ =~= old_nodes.update(k as int, (f, nn)));
                    crate::tree::lemma_trees_of_update(old_nodes, k as int, (f, nn));
                }
            } else {
                proof {
                    assert(trees_of(old_nodes).len() == old_nodes.len());
                }
            }
        }
    }
}

pub proof fn lemma_next_resizable_bound(s: Seq<(PaneFlex, Tree)>, hidden: Seq<HiddenPane>, after: int)
    requires
        0 <= after,
        next_resizable(s, hidden, after) is Some,
    ensures
        after < next_resizable(s, hidden, after)->Some_0 < s.len(),
{
    lemma_next_resizable_from_bound(s, hidden, after + 1);
}

pub proof fn lemma_next_resizable_from_bound(s: Seq<(PaneFlex, Tree)>, hidden: Seq<HiddenPane>, j: int)
    requires
        0 <= j,
        next_resizable_from(s, hidden, j) is Some,
    ensures
        j <= next_resizable_from(s, hidden, j)->Some_0 < s.len(),
    decreases s.len() - j,
{
    if j < s.len() && is_railed(s[j].1, hidden) {
        lemma_next_resizable_from_bound(s, hidden, j + 1);
    }
}

pub proof fn lemma_prev_resizable_bound(s: Seq<(PaneFlex, Tree)>, hidden: Seq<HiddenPane>, before: int)
    requires
        prev_resizable(s, hidden, before) is Some,
    ensures
        0 <= prev_resizable(s, hidden, before)->Some_0 < before,
    decreases before,
{
    if before > 0 && is_railed(s[before - 1].1, hidden) {
        lemma_prev_resizable_bound(s, hidden, before - 1);
    }
}


/// Position of the first divider with this id, from `k` on; -1 when none has it.
pub open spec fn divider_index_from(ds: Seq<Divider>, id: u64, k: int) -> int
    decreases ds.len() - k,
{
    if k < 0 || k >= ds.len() {
        -1
    } else if ds[k].id == id {
        k
    } else {
        divider_index_from(ds, id, k + 1)
    }
}

pub proof fn lemma_divider_index_from(ds: Seq<Divider>, id: u64, k: int)
    requires
        0 <= k,
    ensures
        -1 <= divider_index_from(ds, id, k) < ds.len(),
        divider_index_from(ds, id, k) >= 0 ==> ds[divider_index_from(ds, id, k)].id == id,
        divider_index_from(ds, id, k) == -1 ==> forall|j: int| k <= j < ds.len() ==> #[trigger] ds[j].id != id,
    decreases ds.len() - k,
{
    if k < ds.len() && ds[k].id != id {
        lemma_divider_index_from(ds, id, k + 1);
    }
}

/// What a drag of divider `id` resizes: the path of child indices to the
/// first branch holding it and, unless the drag is suppressed, the indices of
/// the two real panes it resizes across rails.
pub open spec fn divider_resize(t: Tree, id: u64, hidden: Seq<HiddenPane>) -> Option<(Seq<int>, Option<(int, int)>)>
    decreases t,
{
    match t {
        Tree::Leaf(_) => None,
        Tree::Branch(_, s, ds) => if own_divider(ds, id) {
            let k = divider_index_from(ds, id, 0);
            let pair = if 0 <= k < s.len() && !is_railed(s[k].1, hidden) {
                match next_resizable(s, hidden, k) {
                    Some(r) => Some((k, r)),
                    None => None,
                }
            } else {
                None
            };
            Some((Seq::empty(), pair))
        } else {
            let i = first_divider_child_from(s, id, 0);
            if i < 0 {
                None
            } else {
                proof {
                    lemma_first_divider_child_from(s, id, 0);
                }
                match divider_resize(s[i].1, id, hidden) {
                    Some(found) => Some((seq![i] + found.0, found.1)),
                    None => None,
                }
            }
        },
    }
}

impl PaneNode {
    /// See [`divider_resize`].
    pub fn divider_resize_target(&self, border_id: u64, hidden_panes: &[HiddenPane]) -> (r: Option<(Vec<usize>, Option<(usize, usize)>)>)
        requires
            wf_tree(self@),
        ensures
            r matches Some(x) ==> divider_resize(self@, border_id, hidden_panes@) == Some((
                x.0@.map_values(|k: usize| k as int),
                match x.1 {
                    Some(p) => Some((p.0 as int, p.1 as int)),
                    None => None,
                },
            )),
            r is None ==> divider_resize(self@, border_id, hidden_panes@) is None,
        decreases self,
    {
        match self {
            PaneNode::Leaf(_) => None,
            PaneNode::Branch(branch) => branch.divider_resize_target(border_id, hidden_panes),
        }
    }
}

impl PaneBranch {
    /// Position of the first of this branch's own dividers with this id.
    pub fn divider_index(&self, border_id: u64) -> (r: Option<usize>)
        ensures
            r matches Some(k) ==> divider_index_from(self.dividers@, border_id, 0) == k,
            r is None ==> divider_index_from(self.dividers@, border_id, 0) == -1,
    {
        let mut k: usize = 0;
        while k < self.dividers.len()
            invariant
                k <= self.dividers.len(),
                divider_index_from(self.dividers@, border_id, 0) == divider_index_from(self.dividers@, border_id, k as int),
            decreases self.dividers.len() - k,
        {
            if self.dividers[k].id == border_id {
                return Some(k);
            }
            k += 1;
        }
        None
    }

    /// See [`divider_resize`].
    pub fn divider_resize_target(&self, border_id: u64, hidden_panes: &[HiddenPane]) -> (r: Option<(Vec<usize>, Option<(usize, usize)>)>)
        requires
            wf_tree(self@),
        ensures
            r matches Some(x) ==> divider_resize(self@, border_id, hidden_panes@) == Some((
                x.0@.map_values(|k: usize| k as int),
                match x.1 {
                    Some(p) => Some((p.0 as int, p.1 as int)),
                    None => None,
                },
            )),
            r is None ==> divider_resize(self@, border_id, hidden_panes@) is None,
        decreases self,
    {
        let ghost s = trees_of(self.nodes@);
        proof {
            assert(s.len() == self.nodes@.len());
            lemma_divider_index_from(self.dividers@, border_id, 0);
        }
        match self.divider_index(border_id) {
            Some(k) => {
                let v: Vec<usize> = Vec::new();
                proof {
                    assert(own_divider(self.dividers@, border_id)) by {
                        assert(self.dividers@[k as int].id == border_id);
                    }
                    assert(v@.map_values(|k: usize| k as int) =~= Seq::<int>::empty());
                }
                return Some((v, self.resize_pair_across_rails(k, hidden_panes)));
            },
            None => {
                proof {
                    if own_divider(self.dividers@, border_id) {
                        let j = choose|j: int| 0 <= j < self.dividers@.len() && #[trigger] self.dividers@[j].id == border_id;
                    }
                }
            },
        }
        proof {
            lemma_first_divider_child_from(s, border_id, 0);
        }
        let mut i: usize = 0;
        while i < self.nodes.len()
            invariant
                i <= self.nodes.len(),
                s == trees_of(self.nodes@),
                wf_tree(self@),
                !own_divider(self.dividers@, border_id),
                first_divider_child_from(s, border_id, 0) == first_divider_child_from(s, border_id, i as int),
            decreases self.nodes.len() - i,
        {
            proof {
                crate::tree::lemma_trees_of_index(self.nodes@, i as int);
                assert(wf_tree(s[i as int].1));
            }
            if self.nodes[i].1.has_divider_id(border_id) {
                return match self.nodes[i].1.divider_resize_target(border_id, hidden_panes) {
                    Some((mut p, pair)) => {
                        let mut v = vec![i];
                        let ghost pv = p@;
                        v.append(&mut p);
                        proof {
                            assert(v@.map_values(|k: usize| k as int) =~= seq![i as int] + pv.map_values(|k: usize| k as int));
                        }
                        Some((v, pair))
                    },
                    None => None,
                };
            }
            i += 1;
        }
        None
    }
}

} // verus!
