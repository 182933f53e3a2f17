use vstd::prelude::*;

use crate::direction::{Direction, SplitDirection};
use crate::hidden::{
    hidden_any, hidden_for, pane_collapsed, pane_hidden_any, pane_hidden_for,
    pane_hidden_for_child_agent, pane_hidden_for_job, HiddenPane, HiddenPaneReason,
};
use crate::layout::{
    distribute_changes, distribute_tree, divider_resize, has_divider, horizontal_split, key_resize,
    reset_tree, set_pair_at,
};
use crate::tree::{
    children_bound, first_index, group_tree, insert_tree, leaves, remove_tree, replace_tree, sibling_tree,
    split_tree, trees_of, wf_tree, Divider, PaneBranch, PaneFlex, PaneId, PaneNode, Tree,
};

verus! {

/// Tree for all of the split panes of a tab.
///
/// Holds the root node and the number of panes, the panes that stay in the
/// tree but are hidden (for a move, a job, an undoable close, a temporary
/// replacement, as a child agent, or collapsed to a rail), and the id the next
/// divider gets.
pub struct PaneData {
    pub root: PaneNode,
    pub len: usize,
    pub hidden_panes: Vec<HiddenPane>,
    pub next_divider_id: u64,
}

/// Which hidden-pane entries a clean-up drops.
pub enum HiddenFilter {
    /// Every entry for this pane.
    Pane(PaneId),
    /// Every entry with this reason.
    Reason(HiddenPaneReason),
}

impl HiddenFilter {
    /// Whether an entry survives the clean-up.
    pub open spec fn keeps(self, p: HiddenPane) -> bool {
        match self {
            HiddenFilter::Pane(id) => p.pane_id != id,
            HiddenFilter::Reason(reason) => p.reason != reason,
        }
    }
}

/// The entries of `h` that survive `f`, in order.
pub open spec fn kept(h: Seq<HiddenPane>, f: HiddenFilter) -> Seq<HiddenPane>
    decreases h.len(),
{
    if h.len() == 0 {
        h
    } else if f.keeps(h.last()) {
        kept(h.drop_last(), f).push(h.last())
    } else {
        kept(h.drop_last(), f)
    }
}

/// The panes of `ids` that are not hidden, in order.
pub open spec fn visible_ids(ids: Seq<PaneId>, hidden: Seq<HiddenPane>) -> Seq<PaneId>
    decreases ids.len(),
{
    if ids.len() == 0 {
        ids
    } else if !hidden_any(hidden, ids.last()) {
        visible_ids(ids.drop_last(), hidden).push(ids.last())
    } else {
        visible_ids(ids.drop_last(), hidden)
    }
}

/// The panes of the entries of `h` with `reason`, in order.
pub open spec fn ids_with_reason(h: Seq<HiddenPane>, reason: HiddenPaneReason) -> Seq<PaneId>
    decreases h.len(),
{
    if h.len() == 0 {
        Seq::empty()
    } else if h.last().reason == reason {
        ids_with_reason(h.drop_last(), reason).push(h.last().pane_id)
    } else {
        ids_with_reason(h.drop_last(), reason)
    }
}

/// Index of the first entry of `h` equal to `e`, from `i` on; -1 when none is.
pub open spec fn first_entry_from(h: Seq<HiddenPane>, e: HiddenPane, i: int) -> int
    decreases h.len() - i,
{
    if i < 0 || i >= h.len() {
        -1
    } else if h[i] == e {
        i
    } else {
        first_entry_from(h, e, i + 1)
    }
}

/// Index of the first entry of `h` equal to `e`; -1 when none is.
pub open spec fn first_entry(h: Seq<HiddenPane>, e: HiddenPane) -> int {
    first_entry_from(h, e, 0)
}

/// Index of the first entry hiding some pane as the original of a temporary
/// replacement by `replacement`, from `i` on; -1 when none does.
pub open spec fn first_replaced_from(h: Seq<HiddenPane>, replacement: PaneId, i: int) -> int
    decreases h.len() - i,
{
    if i < 0 || i >= h.len() {
        -1
    } else if h[i].reason == HiddenPaneReason::TemporaryReplacement(replacement) {
        i
    } else {
        first_replaced_from(h, replacement, i + 1)
    }
}

/// Index of the first entry hiding pane `original` for a temporary
/// replacement, from `i` on; -1 when none does.
pub open spec fn first_original_from(h: Seq<HiddenPane>, original: PaneId, i: int) -> int
    decreases h.len() - i,
{
    if i < 0 || i >= h.len() {
        -1
    } else if h[i].pane_id == original && h[i].reason is TemporaryReplacement {
        i
    } else {
        first_original_from(h, original, i + 1)
    }
}

pub proof fn lemma_first_entry_from(h: Seq<HiddenPane>, e: HiddenPane, i: int)
    requires
        0 <= i,
    ensures
        ({
            let c = first_entry_from(h, e, i);
            &&& -1 <= c < h.len()
            &&& c >= 0 ==> i <= c && h[c] == e
            &&& c == -1 ==> forall|j: int| i <= j < h.len() ==> #[trigger] h[j] != e
        }),
    decreases h.len() - i,
{
    if i < h.len() && h[i] != e {
        lemma_first_entry_from(h, e, i + 1);
    }
}

pub proof fn lemma_first_entry(h: Seq<HiddenPane>, e: HiddenPane)
    ensures
        -1 <= first_entry(h, e) < h.len(),
        (first_entry(h, e) >= 0) == hidden_for(h, e.pane_id, e.reason),
        first_entry(h, e) >= 0 ==> h[first_entry(h, e)] == e,
{
    lemma_first_entry_from(h, e, 0);
    let c = first_entry(h, e);
    if c >= 0 {
        assert(h[c] == (HiddenPane { pane_id: e.pane_id, reason: e.reason }));
    } else {
        if hidden_for(h, e.pane_id, e.reason) {
            let k = choose|k: int|
                0 <= k < h.len() && #[trigger] h[k] == (HiddenPane {
                    pane_id: e.pane_id,
                    reason: e.reason,
                });
            assert(h[k] == e);
        }
    }
}

pub proof fn lemma_first_replaced_from(h: Seq<HiddenPane>, replacement: PaneId, i: int)
    requires
        0 <= i,
    ensures
        -1 <= first_replaced_from(h, replacement, i) < h.len(),
        first_replaced_from(h, replacement, i) >= 0 ==> h[first_replaced_from(h, replacement, i)].reason
            == HiddenPaneReason::TemporaryReplacement(replacement),
    decreases h.len() - i,
{
    if i < h.len() && h[i].reason != HiddenPaneReason::TemporaryReplacement(replacement) {
        lemma_first_replaced_from(h, replacement, i + 1);
    }
}


/// The entries of `h` that survive `f`.
pub fn retain_hidden(h: &Vec<HiddenPane>, f: &HiddenFilter) -> (r: Vec<HiddenPane>)
    ensures
        r@ == kept(h@, *f),
{
    let mut r: Vec<HiddenPane> = Vec::new();
    let mut i: usize = 0;
    while i < h.len()
        invariant
            i <= h.len(),
            r@ == kept(h@.take(i as int), *f),
        decreases h.len() - i,
    {
        proof {
            assert(h@.take(i + 1).drop_last() =~= h@.take(i as int));
        }
        let p = h[i];
        let keep = match f {
            HiddenFilter::Pane(id) => p.pane_id != *id,
            HiddenFilter::Reason(reason) => p.reason != *reason,
        };
        if keep {
            r.push(p);
        }
        i += 1;
    }
    proof {
        assert(h@.take(h.len() as int) =~= h@);
    }
    r
}

impl PaneData {
    /// Well formed: the layout tree is well formed.
    pub open spec fn wf(&self) -> bool {
        wf_tree(self.root@)
    }

    /// Whether the layout tree is well formed (see [`PaneData::wf`]).
    pub fn is_well_formed(&self) -> (r: bool)
        ensures
            r == self.wf(),
    {
        self.root.is_well_formed()
    }

    /// Creates a `PaneData` with a leaf as the root.
    pub fn new(pane_id: PaneId) -> (r: Self)
        ensures
            r.wf(),
            r.root@ == Tree::Leaf(pane_id),
            r.len == 1,
            r.hidden_panes@ == Seq::<HiddenPane>::empty(),
            r.next_divider_id == 0,
    {
        Self { root: PaneNode::Leaf(pane_id), len: 1, hidden_panes: Vec::new(), next_divider_id: 0 }
    }

    /// The panes of the layout, left to right and top to bottom, hidden ones included.
    pub fn pane_ids(&self) -> (r: Vec<PaneId>)
        ensures
            r@ == leaves(self.root@),
    {
        self.root.pane_ids()
    }

    /// Returns true if the given pane is hidden for any reason.
    pub fn is_pane_hidden(&self, pane_id: &PaneId) -> (r: bool)
        ensures
            r == hidden_any(self.hidden_panes@, *pane_id),
    {
        pane_hidden_any(self.hidden_panes.as_slice(), *pane_id)
    }

    /// The panes of the layout that are not hidden for any reason, left to
    /// right and top to bottom.
    pub fn visible_pane_ids(&self) -> (r: Vec<PaneId>)
        ensures
            r@ == visible_ids(leaves(self.root@), self.hidden_panes@),
    {
        let ids = self.root.pane_ids();
        let mut r: Vec<PaneId> = Vec::new();
        let mut i: usize = 0;
        while i < ids.len()
            invariant
                i <= ids.len(),
                r@ == visible_ids(ids@.take(i as int), self.hidden_panes@),
            decreases ids.len() - i,
        {
            proof {
                assert(ids@.take(i + 1).drop_last() =~= ids@.take(i as int));
            }
            if !self.is_pane_hidden(&ids[i]) {
                r.push(ids[i]);
            }
            i += 1;
        }
        proof {
            assert(ids@.take(ids.len() as int) =~= ids@);
        }
        r
    }

    /// The number of panes that are not hidden.
    pub fn visible_pane_count(&self) -> (r: usize)
        ensures
            r == visible_ids(leaves(self.root@), self.hidden_panes@).len(),
    {
        self.visible_pane_ids().len()
    }

    /// Whether the layout shows a left/right split.
    pub fn has_horizontal_split(&self) -> (r: bool)
        ensures
            r == horizontal_split(self.root@, self.hidden_panes@),
    {
        self.root.has_horizontal_split(self.hidden_panes.as_slice())
    }

    pub fn num_hidden_panes(&self) -> (r: usize)
        ensures
            r == self.hidden_panes@.len(),
    {
        self.hidden_panes.len()
    }

    /// Drops every hidden-pane entry for `pane_id`.
    pub fn remove_hidden_pane(&mut self, pane_id: PaneId)
        ensures
            final(self).hidden_panes@ == kept(old(self).hidden_panes@, HiddenFilter::Pane(pane_id)),
            final(self).root == old(self).root,
            final(self).len == old(self).len,
            final(self).next_divider_id == old(self).next_divider_id,
    {
        self.hidden_panes = retain_hidden(&self.hidden_panes, &HiddenFilter::Pane(pane_id));
    }

    pub fn hide_pane_for_move(&mut self, id: PaneId)
        ensures
            final(self).hidden_panes@ == old(self).hidden_panes@.push(
                HiddenPane { pane_id: id, reason: HiddenPaneReason::FromMove },
            ),
            final(self).root == old(self).root,
            final(self).len == old(self).len,
            final(self).next_divider_id == old(self).next_divider_id,
    {
        self.hidden_panes.push(HiddenPane::from_move(id));
    }

    /// Drops every entry hiding a pane for a move.
    pub fn clear_hidden_panes_from_move(&mut self)
        ensures
            final(self).hidden_panes@ == kept(
                old(self).hidden_panes@,
                HiddenFilter::Reason(HiddenPaneReason::FromMove),
            ),
            final(self).root == old(self).root,
            final(self).len == old(self).len,
            final(self).next_divider_id == old(self).next_divider_id,
    {
        self.hidden_panes = retain_hidden(
            &self.hidden_panes,
            &HiddenFilter::Reason(HiddenPaneReason::FromMove),
        );
    }

    pub fn hide_pane_for_job(&mut self, id: PaneId)
        ensures
            final(self).hidden_panes@ == old(self).hidden_panes@.push(
                HiddenPane { pane_id: id, reason: HiddenPaneReason::FromJob },
            ),
            final(self).root == old(self).root,
            final(self).len == old(self).len,
            final(self).next_divider_id == old(self).next_divider_id,
    {
        self.hidden_panes.push(HiddenPane::from_job(id));
    }

    /// Drops the first entry equal to `entry`; returns whether there was one.
    pub fn remove_first_entry(&mut self, entry: HiddenPane) -> (r: bool)
        ensures
            r == hidden_for(old(self).hidden_panes@, entry.pane_id, entry.reason),
            final(self).hidden_panes@ == if r {
                old(self).hidden_panes@.remove(first_entry(old(self).hidden_panes@, entry))
            } else {
                old(self).hidden_panes@
            },
            final(self).root == old(self).root,
            final(self).len == old(self).len,
            final(self).next_divider_id == old(self).next_divider_id,
    {
        proof {
            lemma_first_entry(self.hidden_panes@, entry);
        }
        let mut i: usize = 0;
        while i < self.hidden_panes.len()
            invariant
                i <= self.hidden_panes.len(),
                self.hidden_panes@ == old(self).hidden_panes@,
                self.root == old(self).root,
                self.len == old(self).len,
                self.next_divider_id == old(self).next_divider_id,
                first_entry(self.hidden_panes@, entry) == first_entry_from(
                    self.hidden_panes@,
                    entry,
                    i as int,
                ),
            decreases self.hidden_panes.len() - i,
        {
            if self.hidden_panes[i].pane_id == entry.pane_id && self.hidden_panes[i].reason
                == entry.reason {
                self.hidden_panes.remove(i);
                return true;
            }
            i += 1;
        }
        false
    }

    /// Shows a pane that was hidden for a job.
    pub fn show_pane_for_job(&mut self, id: PaneId)
        ensures
            ({
                let e = HiddenPane { pane_id: id, reason: HiddenPaneReason::FromJob };
                final(self).hidden_panes@ == if hidden_for(old(self).hidden_panes@, id, e.reason) {
                    old(self).hidden_panes@.remove(first_entry(old(self).hidden_panes@, e))
                } else {
                    old(self).hidden_panes@
                }
            }),
            final(self).root == old(self).root,
            final(self).len == old(self).len,
            final(self).next_divider_id == old(self).next_divider_id,
    {
        self.remove_first_entry(HiddenPane::from_job(id));
    }

    /// Hides a child agent pane, unless the pane is already hidden.
    pub fn hide_pane_for_child_agent(&mut self, id: PaneId)
        ensures
            final(self).hidden_panes@ == if hidden_any(old(self).hidden_panes@, id) {
                old(self).hidden_panes@
            } else {
                old(self).hidden_panes@.push(
                    HiddenPane { pane_id: id, reason: HiddenPaneReason::ChildAgent },
                )
            },
            final(self).root == old(self).root,
            final(self).len == old(self).len,
            final(self).next_divider_id == old(self).next_divider_id,
    {
        if !self.is_pane_hidden(&id) {
            self.hidden_panes.push(HiddenPane::from_child_agent(id));
        }
    }

    /// Shows a child agent pane that was hidden.
    pub fn show_pane_for_child_agent(&mut self, id: PaneId)
        ensures
            ({
                let e = HiddenPane { pane_id: id, reason: HiddenPaneReason::ChildAgent };
                final(self).hidden_panes@ == if hidden_for(old(self).hidden_panes@, id, e.reason) {
                    old(self).hidden_panes@.remove(first_entry(old(self).hidden_panes@, e))
                } else {
                    old(self).hidden_panes@
                }
            }),
            final(self).root == old(self).root,
            final(self).len == old(self).len,
            final(self).next_divider_id == old(self).next_divider_id,
    {
        self.remove_first_entry(HiddenPane::from_child_agent(id));
    }

    /// Returns true if `id` is hidden as a child agent pane.
    pub fn is_pane_hidden_for_child_agent(&self, id: PaneId) -> (r: bool)
        ensures
            r == hidden_for(self.hidden_panes@, id, HiddenPaneReason::ChildAgent),
    {
        pane_hidden_for_child_agent(self.hidden_panes.as_slice(), &id)
    }

    /// Collapses a pane to a thin edge rail: it stays in the tree but leaves
    /// navigation. A pane that is already hidden, or the last visible pane,
    /// is left alone (a tab always keeps at least one visible pane).
    pub fn collapse_pane(&mut self, id: PaneId) -> (r: bool)
        ensures
            r == (!hidden_any(old(self).hidden_panes@, id) && visible_ids(
                leaves(old(self).root@),
                old(self).hidden_panes@,
            ).len() > 1),
            final(self).hidden_panes@ == if r {
                old(self).hidden_panes@.push(
                    HiddenPane { pane_id: id, reason: HiddenPaneReason::Collapsed },
                )
            } else {
                old(self).hidden_panes@
            },
            final(self).root == old(self).root,
            final(self).len == old(self).len,
            final(self).next_divider_id == old(self).next_divider_id,
    {
        if self.is_pane_hidden(&id) || self.visible_pane_ids().len() <= 1 {
            return false;
        }
        self.hidden_panes.push(HiddenPane::from_collapse(id));
        true
    }

    /// Restores a collapsed pane to its original position and size: the pane
    /// never left the tree, so this drops the collapse marker. Returns false
    /// if the pane was not collapsed.
    pub fn restore_collapsed_pane(&mut self, id: PaneId) -> (r: bool)
        ensures
            ({
                let e = HiddenPane { pane_id: id, reason: HiddenPaneReason::Collapsed };
                &&& r == hidden_for(old(self).hidden_panes@, id, e.reason)
                &&& final(self).hidden_panes@ == if r {
                    old(self).hidden_panes@.remove(first_entry(old(self).hidden_panes@, e))
                } else {
                    old(self).hidden_panes@
                }
            }),
            final(self).root == old(self).root,
            final(self).len == old(self).len,
            final(self).next_divider_id == old(self).next_divider_id,
    {
        self.remove_first_entry(HiddenPane::from_collapse(id))
    }

    /// The panes hidden with `reason`, in the order they were hidden.
    pub fn pane_ids_hidden_for(&self, reason: HiddenPaneReason) -> (r: Vec<PaneId>)
        ensures
            r@ == ids_with_reason(self.hidden_panes@, reason),
    {
        let mut r: Vec<PaneId> = Vec::new();
        let mut i: usize = 0;
        while i < self.hidden_panes.len()
            invariant
                i <= self.hidden_panes.len(),
                r@ == ids_with_reason(self.hidden_panes@.take(i as int), reason),
            decreases self.hidden_panes.len() - i,
        {
            proof {
                assert(self.hidden_panes@.take(i + 1).drop_last() =~= self.hidden_panes@.take(
                    i as int,
                ));
            }
            if self.hidden_panes[i].reason == reason {
                r.push(self.hidden_panes[i].pane_id);
            }
            i += 1;
        }
        proof {
            assert(self.hidden_panes@.take(self.hidden_panes.len() as int) =~= self.hidden_panes@);
        }
        r
    }

    /// The currently collapsed (railed) panes, in collapse order.
    pub fn collapsed_pane_ids(&self) -> (r: Vec<PaneId>)
        ensures
            r@ == ids_with_reason(self.hidden_panes@, HiddenPaneReason::Collapsed),
    {
        self.pane_ids_hidden_for(HiddenPaneReason::Collapsed)
    }

    pub fn is_pane_collapsed(&self, id: &PaneId) -> (r: bool)
        ensures
            r == hidden_for(self.hidden_panes@, *id, HiddenPaneReason::Collapsed),
    {
        pane_collapsed(self.hidden_panes.as_slice(), id)
    }

    /// Shows the pane if it is hidden for a job (returning true), hides it for
    /// a job otherwise (returning false).
    pub fn toggle_pane_visibility_for_job(&mut self, id: PaneId) -> (r: bool)
        ensures
            ({
                let e = HiddenPane { pane_id: id, reason: HiddenPaneReason::FromJob };
                &&& r == hidden_for(old(self).hidden_panes@, id, e.reason)
                &&& final(self).hidden_panes@ == if r {
                    old(self).hidden_panes@.remove(first_entry(old(self).hidden_panes@, e))
                } else {
                    old(self).hidden_panes@.push(e)
                }
            }),
            final(self).root == old(self).root,
            final(self).len == old(self).len,
            final(self).next_divider_id == old(self).next_divider_id,
    {
        if pane_hidden_for_job(self.hidden_panes.as_slice(), &id) {
            self.show_pane_for_job(id);
            true
        } else {
            self.hide_pane_for_job(id);
            false
        }
    }

    pub fn hide_closed_pane(&mut self, id: PaneId)
        ensures
            final(self).hidden_panes@ == old(self).hidden_panes@.push(
                HiddenPane { pane_id: id, reason: HiddenPaneReason::Closed },
            ),
            final(self).root == old(self).root,
            final(self).len == old(self).len,
            final(self).next_divider_id == old(self).next_divider_id,
    {
        self.hidden_panes.push(HiddenPane::from_close(id));
    }

    /// Shows a pane hidden by a close, to undo the close. Returns false when
    /// the pane was not hidden by a close.
    pub fn unhide_closed_pane(&mut self, id: PaneId) -> (r: bool)
        ensures
            ({
                let e = HiddenPane { pane_id: id, reason: HiddenPaneReason::Closed };
                &&& r == hidden_for(old(self).hidden_panes@, id, e.reason)
                &&& final(self).hidden_panes@ == if r {
                    old(self).hidden_panes@.remove(first_entry(old(self).hidden_panes@, e))
                } else {
                    old(self).hidden_panes@
                }
            }),
            final(self).root == old(self).root,
            final(self).len == old(self).len,
            final(self).next_divider_id == old(self).next_divider_id,
    {
        self.remove_first_entry(HiddenPane::from_close(id))
    }

    /// The panes hidden by a close, in the order they were closed.
    pub fn get_closed_pane_ids(&self) -> (r: Vec<PaneId>)
        ensures
            r@ == ids_with_reason(self.hidden_panes@, HiddenPaneReason::Closed),
    {
        self.pane_ids_hidden_for(HiddenPaneReason::Closed)
    }

    /// Drops every entry hiding a pane by a close.
    pub fn clear_hidden_closed_panes(&mut self)
        ensures
            final(self).hidden_panes@ == kept(
                old(self).hidden_panes@,
                HiddenFilter::Reason(HiddenPaneReason::Closed),
            ),
            final(self).root == old(self).root,
            final(self).len == old(self).len,
            final(self).next_divider_id == old(self).next_divider_id,
    {
        self.hidden_panes = retain_hidden(
            &self.hidden_panes,
            &HiddenFilter::Reason(HiddenPaneReason::Closed),
        );
    }

    pub fn is_hidden_closed_pane(&self, pane_id: &PaneId) -> (r: bool)
        ensures
            r == hidden_for(self.hidden_panes@, *pane_id, HiddenPaneReason::Closed),
    {
        pane_hidden_for(self.hidden_panes.as_slice(), *pane_id, HiddenPaneReason::Closed)
    }

    /// Returns true when a hidden pane should be left out of app-state
    /// snapshots: it is hidden for some reason other than being collapsed.
    /// Collapsed panes leave navigation but are still live layout content, so
    /// they are snapshotted like ordinary panes.
    pub fn should_omit_pane_from_snapshot(&self, pane_id: &PaneId) -> (r: bool)
        ensures
            r == exists|i: int|
                0 <= i < self.hidden_panes@.len() && #[trigger] self.hidden_panes@[i].pane_id
                    == *pane_id && self.hidden_panes@[i].reason != HiddenPaneReason::Collapsed,
    {
        let mut i: usize = 0;
        while i < self.hidden_panes.len()
            invariant
                i <= self.hidden_panes.len(),
                forall|j: int|
                    0 <= j < i ==> !(#[trigger] self.hidden_panes@[j].pane_id == *pane_id
                        && self.hidden_panes@[j].reason != HiddenPaneReason::Collapsed),
            decreases self.hidden_panes.len() - i,
        {
            if self.hidden_panes[i].pane_id == *pane_id && self.hidden_panes[i].reason
                != HiddenPaneReason::Collapsed {
                assert(self.hidden_panes@[i as int].pane_id == *pane_id);
                return true;
            }
            i += 1;
        }
        false
    }

    /// Returns true if `pane_id` is currently a leaf in the layout tree.
    pub fn is_pane_in_tree(&self, pane_id: PaneId) -> (r: bool)
        ensures
            r == leaves(self.root@).contains(pane_id),
    {
        self.root.contains_pane(pane_id)
    }

    pub fn len(&self) -> (r: usize)
        ensures
            r == self.len,
    {
        self.len
    }

    pub fn is_empty(&self) -> (r: bool)
        ensures
            r == (self.len == 0),
    {
        self.len == 0
    }
}


impl PaneData {
    /// The pane whose temporary replacement is `replacement_pane_id`.
    pub fn original_pane_for_replacement(&self, replacement_pane_id: PaneId) -> (r: Option<PaneId>)
        ensures
            ({
                let c = first_replaced_from(self.hidden_panes@, replacement_pane_id, 0);
                r == if c >= 0 {
                    Some(self.hidden_panes@[c].pane_id)
                } else {
                    None::<PaneId>
                }
            }),
    {
        let mut i: usize = 0;
        while i < self.hidden_panes.len()
            invariant
                i <= self.hidden_panes.len(),
                first_replaced_from(self.hidden_panes@, replacement_pane_id, 0)
                    == first_replaced_from(self.hidden_panes@, replacement_pane_id, i as int),
            decreases self.hidden_panes.len() - i,
        {
            if self.hidden_panes[i].reason == HiddenPaneReason::TemporaryReplacement(
                replacement_pane_id,
            ) {
                return Some(self.hidden_panes[i].pane_id);
            }
            i += 1;
        }
        None
    }

    /// Whether `replacement_pane_id` is standing in temporarily for another pane.
    pub fn is_temporary_replacement(&self, replacement_pane_id: PaneId) -> (r: bool)
        ensures
            r == (first_replaced_from(self.hidden_panes@, replacement_pane_id, 0) >= 0),
    {
        self.original_pane_for_replacement(replacement_pane_id).is_some()
    }

    /// Inverse of [`Self::original_pane_for_replacement`]: given a pane
    /// swapped out for a temporary replacement, the replacement that took its
    /// slot.
    pub fn replacement_pane_for_original(&self, original_pane_id: PaneId) -> (r: Option<PaneId>)
        ensures
            ({
                let c = first_original_from(self.hidden_panes@, original_pane_id, 0);
                r == if c >= 0 {
                    Some(self.hidden_panes@[c].reason->TemporaryReplacement_0)
                } else {
                    None::<PaneId>
                }
            }),
    {
        let mut i: usize = 0;
        while i < self.hidden_panes.len()
            invariant
                i <= self.hidden_panes.len(),
                first_original_from(self.hidden_panes@, original_pane_id, 0) == first_original_from(
                    self.hidden_panes@,
                    original_pane_id,
                    i as int,
                ),
            decreases self.hidden_panes.len() - i,
        {
            if self.hidden_panes[i].pane_id == original_pane_id {
                match self.hidden_panes[i].reason {
                    HiddenPaneReason::TemporaryReplacement(replacement_id) => {
                        return Some(replacement_id);
                    },
                    _ => {},
                }
            }
            i += 1;
        }
        None
    }

    /// Replaces pane `original_pane_id` in the layout with
    /// `replacement_pane_id`. A temporary replacement also hides the original
    /// so that it can be swapped back. Returns false, changing nothing, when
    /// the original is not in the layout.
    pub fn replace_pane(
        &mut self,
        original_pane_id: PaneId,
        replacement_pane_id: PaneId,
        is_temporary: bool,
    ) -> (r: bool)
        requires
            old(self).wf(),
        ensures
            r == leaves(old(self).root@).contains(original_pane_id),
            final(self).wf(),
            final(self).root@ == replace_tree(old(self).root@, original_pane_id, replacement_pane_id),
            final(self).hidden_panes@ == if r && is_temporary {
                old(self).hidden_panes@.push(
                    HiddenPane {
                        pane_id: original_pane_id,
                        reason: HiddenPaneReason::TemporaryReplacement(replacement_pane_id),
                    },
                )
            } else {
                old(self).hidden_panes@
            },
            final(self).len == old(self).len,
            final(self).next_divider_id == old(self).next_divider_id,
    {
        proof {
            crate::tree::lemma_replace_tree(self.root@, original_pane_id, replacement_pane_id);
        }
        if !self.root.contains_pane(original_pane_id) {
            proof {
                assert(replace_tree(self.root@, original_pane_id, replacement_pane_id) == self.root@)
                    by {
                    lemma_replace_absent(self.root@, original_pane_id, replacement_pane_id);
                }
            }
            return false;
        }
        if is_temporary {
            self.hidden_panes.push(
                HiddenPane::from_temporary_replacement(original_pane_id, replacement_pane_id),
            );
        }
        let success = self.root.replace_pane(original_pane_id, replacement_pane_id);
        if success {
            return true;
        } else if is_temporary {
            self.hidden_panes.pop();
        }
        false
    }

    /// Swaps the original pane back in for its temporary replacement
    /// `replacement_pane_id`, returning the original. `None`, changing
    /// nothing, when there is no such replacement or the replacement is no
    /// longer in the layout.
    pub fn revert_temporary_replacement(&mut self, replacement_pane_id: PaneId) -> (r: Option<
        PaneId,
    >)
        requires
            old(self).wf(),
        ensures
            final(self).wf(),
            ({
                let h = old(self).hidden_panes@;
                let c = first_replaced_from(h, replacement_pane_id, 0);
                if c >= 0 && leaves(old(self).root@).contains(replacement_pane_id) {
                    &&& r == Some(h[c].pane_id)
                    &&& final(self).hidden_panes@ == h.remove(c)
                    &&& final(self).root@ == replace_tree(
                        old(self).root@,
                        replacement_pane_id,
                        h[c].pane_id,
                    )
                } else {
                    &&& r is None
                    &&& final(self).hidden_panes@ == h
                    &&& final(self).root@ == old(self).root@
                }
            }),
            final(self).len == old(self).len,
            final(self).next_divider_id == old(self).next_divider_id,
    {
        let ghost h = self.hidden_panes@;
        proof {
            lemma_first_replaced_from(h, replacement_pane_id, 0);
        }
        let mut i: usize = 0;
        while i < self.hidden_panes.len()
            invariant
                i <= self.hidden_panes.len(),
                self.hidden_panes@ == h,
                h == old(self).hidden_panes@,
                old(self).wf(),
                self.root == old(self).root,
                self.len == old(self).len,
                self.next_divider_id == old(self).next_divider_id,
                first_replaced_from(h, replacement_pane_id, 0) == first_replaced_from(
                    h,
                    replacement_pane_id,
                    i as int,
                ),
            decreases self.hidden_panes.len() - i,
        {
            if self.hidden_panes[i].reason == HiddenPaneReason::TemporaryReplacement(
                replacement_pane_id,
            ) {
                let hidden_pane = self.hidden_panes.remove(i);
                let original_pane_id = hidden_pane.pane_id;
                proof {
                    crate::tree::lemma_replace_tree(
                        self.root@,
                        replacement_pane_id,
                        original_pane_id,
                    );
                }
                if self.root.replace_pane(replacement_pane_id, original_pane_id) {
                    return Some(original_pane_id);
                } else {
                    proof {
                        lemma_replace_absent(old(self).root@, replacement_pane_id, original_pane_id);
                    }
                    self.hidden_panes.insert(i, hidden_pane);
                    proof {
                        assert(self.hidden_panes@ =~= h);
                    }
                    return None;
                }
            }
            i += 1;
        }
        None
    }
}

/// Replacing a pane that is not in the tree changes nothing.
pub proof fn lemma_replace_absent(t: Tree, old: PaneId, new: PaneId)
    requires
        !leaves(t).contains(old),
    ensures
        replace_tree(t, old, new) == t,
{
    match t {
        Tree::Leaf(p) => {
            if p == old {
                assert(leaves(t)[0] == old);
            }
        },
        Tree::Branch(_, s, _) => {
            crate::tree::lemma_first_child(s, old);
        },
    }
}


/// The id after `x`, wrapping around after the largest one.
pub open spec fn next_id(x: u64) -> u64 {
    if x == u64::MAX {
        0
    } else {
        (x + 1) as u64
    }
}

/// Whether moving pane `id` next to `target` in `direction` goes through:
/// the two differ, `id` is not already `target`'s direct neighbor that way,
/// `id` can be taken out of the layout, and `target` is still there after.
pub open spec fn move_applies(t: Tree, id: PaneId, target: PaneId, direction: Direction) -> bool {
    &&& id != target
    &&& sibling_tree(t, target, direction) != Some(id)
    &&& remove_tree(t, id) is Some
    &&& leaves(remove_tree(t, id)->Some_0).contains(target)
}

impl PaneData {
    /// Takes a fresh divider id.
    fn take_divider(&mut self) -> (r: Divider)
        ensures
            r == (Divider { id: old(self).next_divider_id }),
            final(self).next_divider_id == next_id(old(self).next_divider_id),
            final(self).root == old(self).root,
            final(self).len == old(self).len,
            final(self).hidden_panes == old(self).hidden_panes,
    {
        let d = Divider { id: self.next_divider_id };
        self.next_divider_id = if self.next_divider_id == u64::MAX {
            0
        } else {
            self.next_divider_id + 1
        };
        d
    }

    /// Creates a `PaneData` whose root is a branch along `axis` holding
    /// `nodes`, with fresh dividers between them; a single node becomes the
    /// root itself. The new dividers, and the ones split off later, are numbered
    /// above every divider id the nodes already hold, so no id is used twice.
    pub fn new_branch(axis: SplitDirection, nodes: Vec<(PaneFlex, PaneNode)>, len: usize) -> (r: Self)
        requires
            nodes.len() >= 1,
            children_bound(trees_of(nodes@), 0) + nodes.len() - 1 <= u64::MAX,
        ensures
            ({
                let base = children_bound(trees_of(nodes@), 0);
                &&& r.root@ == if nodes.len() == 1 {
                    nodes@[0].1@
                } else {
                    Tree::Branch(
                        axis,
                        trees_of(nodes@),
                        Seq::new(
                            (nodes.len() - 1) as nat,
                            |k: int| Divider { id: (base + k) as u64 },
                        ),
                    )
                }
                &&& r.next_divider_id == base + nodes.len() - 1
            }),
            (forall|i: int| 0 <= i < nodes.len() ==> wf_tree(#[trigger] nodes@[i].1@)) ==> r.wf(),
            r.len == len,
            r.hidden_panes@ == Seq::<HiddenPane>::empty(),
    {
        let ghost orig = nodes@;
        let ghost s = trees_of(orig);
        let mut base: u128 = 0;
        let mut i: usize = nodes.len();
        while i > 0
            invariant
                i <= nodes.len(),
                nodes@ == orig,
                s == trees_of(orig),
                base == children_bound(s, i as int),
                base <= u64::MAX + 1,
            decreases i,
        {
            i -= 1;
            proof {
                crate::tree::lemma_trees_of_index(orig, i as int);
            }
            let b = nodes[i].1.divider_id_bound();
            if b >= base {
                base = b;
            }
        }
        let base = base as u64;
        if nodes.len() == 1 {
            proof {
                crate::tree::lemma_trees_of_index(orig, 0);
            }
            let mut nodes = nodes;
            let (_, node) = nodes.pop().unwrap();
            return Self { root: node, len, hidden_panes: Vec::new(), next_divider_id: base };
        }
        let count = nodes.len() - 1;
        let mut dividers: Vec<Divider> = Vec::new();
        let mut k: usize = 0;
        while k < count
            invariant
                k <= count,
                count < usize::MAX,
                base + count <= u64::MAX,
                dividers@ == Seq::new(k as nat, |j: int| Divider { id: (base + j) as u64 }),
            decreases count - k,
        {
            dividers.push(Divider { id: base + k as u64 });
            proof {
                assert(dividers@ =~= Seq::new(
                    (k + 1) as nat,
                    |j: int| Divider { id: (base + j) as u64 },
                ));
            }
            k += 1;
        }
        let next_divider_id = base + count as u64;
        let r = Self {
            root: PaneNode::Branch(PaneBranch { axis, nodes, dividers }),
            len,
            hidden_panes: Vec::new(),
            next_divider_id,
        };
        proof {
            if forall|i: int| 0 <= i < orig.len() ==> wf_tree(#[trigger] orig[i].1@) {
                assert forall|i: int| 0 <= i < orig.len() implies wf_tree(
                    #[trigger] trees_of(orig)[i].1,
                ) by {
                    crate::tree::lemma_trees_of_index(orig, i);
                    assert(wf_tree(orig[i].1@));
                }
            }
        }
        r
    }

    /// Splits the first occurrence of pane `old_id`, putting `new_id` next to
    /// it in `direction`. Returns whether `old_id` was found.
    pub fn split(&mut self, old_id: PaneId, new_id: PaneId, direction: Direction) -> (r: bool)
        requires
            old(self).wf(),
            old(self).len < usize::MAX,
        ensures
            r == leaves(old(self).root@).contains(old_id),
            final(self).wf(),
            final(self).root@ == split_tree(
                old(self).root@,
                old_id,
                new_id,
                direction,
                Divider { id: old(self).next_divider_id },
            ),
            final(self).len == if r {
                old(self).len + 1
            } else {
                old(self).len as int
            },
            final(self).next_divider_id == if r {
                next_id(old(self).next_divider_id)
            } else {
                old(self).next_divider_id
            },
            final(self).hidden_panes == old(self).hidden_panes,
    {
        let d = Divider { id: self.next_divider_id };
        proof {
            crate::tree::lemma_split_tree(self.root@, old_id, new_id, direction, d);
        }
        let successful_split = self.root.split(old_id, new_id, direction, d);
        if successful_split {
            self.take_divider();
            self.len += 1;
        }
        successful_split
    }

    /// Splits the root of the pane tree, inserting `new_id` at the start or
    /// end of the layout according to `direction`.
    pub fn split_root(&mut self, new_id: PaneId, direction: Direction)
        requires
            old(self).wf(),
            old(self).len < usize::MAX,
        ensures
            final(self).wf(),
            final(self).root@ == insert_tree(
                old(self).root@,
                new_id,
                direction,
                Divider { id: old(self).next_divider_id },
            ),
            final(self).len == old(self).len + 1,
            final(self).next_divider_id == next_id(old(self).next_divider_id),
            final(self).hidden_panes == old(self).hidden_panes,
    {
        let d = self.take_divider();
        proof {
            crate::tree::lemma_insert_tree(self.root@, new_id, direction, d);
        }
        self.root.insert(new_id, direction, d);
        self.len += 1;
    }

    /// Removes the first occurrence of pane `content` from the layout. The
    /// last pane (a root leaf) cannot be removed.
    pub fn remove(&mut self, content: PaneId) -> (r: bool)
        requires
            old(self).wf(),
        ensures
            r == remove_tree(old(self).root@, content) is Some,
            final(self).wf(),
            final(self).root@ == if r {
                remove_tree(old(self).root@, content)->Some_0
            } else {
                old(self).root@
            },
            final(self).len == if r && old(self).len > 0 {
                old(self).len - 1
            } else {
                old(self).len as int
            },
            final(self).next_divider_id == old(self).next_divider_id,
            final(self).hidden_panes == old(self).hidden_panes,
    {
        proof {
            crate::tree::lemma_remove_tree(self.root@, content);
        }
        let successful_remove = self.root.remove(content);
        if successful_remove {
            self.len = self.len.saturating_sub(1);
        }
        successful_remove
    }

    /// Finds the pane next to `pane_id` in `direction`, but only if both are
    /// direct children of the same branch.
    pub fn sibling_by_direction(&self, pane_id: PaneId, direction: Direction) -> (r: Option<PaneId>)
        ensures
            r == sibling_tree(self.root@, pane_id, direction),
    {
        match &self.root {
            PaneNode::Branch(b) => b.sibling_by_direction(pane_id, direction),
            _ => None,
        }
    }

    /// Moves pane `id` next to `target_pane_id` in `direction`: takes it out
    /// of the layout and splits the target with it. Nothing happens when the
    /// pane is the target or already its direct neighbor that way. Returns
    /// whether the pane ended up next to the target.
    pub fn move_pane(&mut self, id: PaneId, target_pane_id: PaneId, direction: Direction) -> (r:
        bool)
        requires
            old(self).wf(),
        ensures
            r == move_applies(old(self).root@, id, target_pane_id, direction),
            final(self).wf(),
            final(self).root@ == if id == target_pane_id || sibling_tree(
                old(self).root@,
                target_pane_id,
                direction,
            ) == Some(id) || remove_tree(old(self).root@, id) is None {
                old(self).root@
            } else {
                split_tree(
                    remove_tree(old(self).root@, id)->Some_0,
                    target_pane_id,
                    id,
                    direction,
                    Divider { id: old(self).next_divider_id },
                )
            },
            final(self).len == if id != target_pane_id && sibling_tree(
                old(self).root@,
                target_pane_id,
                direction,
            ) != Some(id) && remove_tree(old(self).root@, id) is Some {
                (if old(self).len > 0 {
                    old(self).len - 1
                } else {
                    0int
                }) + if r {
                    1int
                } else {
                    0int
                }
            } else {
                old(self).len as int
            },
            final(self).next_divider_id == if r {
                next_id(old(self).next_divider_id)
            } else {
                old(self).next_divider_id
            },
            final(self).hidden_panes == old(self).hidden_panes,
    {
        if id == target_pane_id {
            return false;
        }
        match self.sibling_by_direction(target_pane_id, direction) {
            Some(sibling) => {
                if sibling == id {
                    return false;
                }
            },
            None => {},
        }
        if !self.remove(id) {
            return false;
        }
        proof {
            assert(self.len < usize::MAX);
        }
        self.split(target_pane_id, id, direction)
    }

    /// The panes of the structural group bordering `pane_id` in `direction`
    /// (see [`group_tree`]); empty when `pane_id` is at the layout's edge in
    /// `direction`.
    pub fn pane_group_by_direction(&self, pane_id: PaneId, direction: Direction) -> (r: Vec<PaneId>)
        ensures
            r@ == match group_tree(self.root@, pane_id, direction) {
                Some(v) => v,
                None => Seq::<PaneId>::empty(),
            },
    {
        match &self.root {
            PaneNode::Branch(branch) => match branch.pane_group_by_direction(pane_id, direction) {
                Some(v) => v,
                None => Vec::new(),
            },
            PaneNode::Leaf(_) => Vec::new(),
        }
    }

    /// Resets the weights of the branch holding divider `border_id` to the
    /// default weight. Returns whether such a branch was found.
    pub fn reset_pane_sizes(&mut self, border_id: u64) -> (r: bool)
        requires
            old(self).wf(),
        ensures
            r == has_divider(old(self).root@, border_id),
            final(self).wf(),
            final(self).root@ == reset_tree(old(self).root@, border_id),
            final(self).len == old(self).len,
            final(self).next_divider_id == old(self).next_divider_id,
            final(self).hidden_panes == old(self).hidden_panes,
    {
        proof {
            crate::layout::lemma_reset_tree(self.root@, border_id);
        }
        self.root.reset_pane_sizes(border_id)
    }

    /// Evenly redistributes the weights along `axis` (see
    /// [`distribute_tree`]). Returns whether some weight changed.
    pub fn distribute_pane_sizes(&mut self, axis: SplitDirection) -> (r: bool)
        requires
            old(self).wf(),
        ensures
            r == distribute_changes(old(self).root@, axis, old(self).hidden_panes@),
            final(self).wf(),
            final(self).root@ == distribute_tree(old(self).root@, axis, old(self).hidden_panes@),
            final(self).len == old(self).len,
            final(self).next_divider_id == old(self).next_divider_id,
            final(self).hidden_panes == old(self).hidden_panes,
    {
        proof {
            crate::layout::lemma_distribute_tree(self.root@, axis, self.hidden_panes@);
        }
        self.root.distribute_pane_sizes(axis, self.hidden_panes.as_slice())
    }
}


impl PaneData {
    /// What a drag of divider `border_id` resizes (see [`divider_resize`]).
    pub fn divider_resize_target(&self, border_id: u64) -> (r: Option<(Vec<usize>, Option<(usize, usize)>)>)
        requires
            self.wf(),
        ensures
            r matches Some(x) ==> divider_resize(self.root@, border_id, self.hidden_panes@) == Some((
                x.0@.map_values(|k: usize| k as int),
                match x.1 {
                    Some(p) => Some((p.0 as int, p.1 as int)),
                    None => None,
                },
            )),
            r is None ==> divider_resize(self.root@, border_id, self.hidden_panes@) is None,
    {
        self.root.divider_resize_target(border_id, self.hidden_panes.as_slice())
    }

    /// The divider ids a keyboard resize of pane `pane_id` along `axis` acts
    /// on, in order (see [`key_resize`]).
    pub fn keyboard_resize_dividers(&self, pane_id: PaneId, axis: SplitDirection) -> (r: Vec<u64>)
        requires
            self.wf(),
        ensures
            r@ == key_resize(self.root@, pane_id, axis, self.hidden_panes@).1,
    {
        let (_, acts) = self.root.keyboard_resize_dividers(pane_id, axis, self.hidden_panes.as_slice());
        acts
    }

    /// Sets the weights of nodes `left` and `right` of the branch at `path`.
    pub fn set_pair_flex(
        &mut self,
        path: &Vec<usize>,
        left: usize,
        right: usize,
        left_flex: PaneFlex,
        right_flex: PaneFlex,
    )
        requires
            old(self).wf(),
        ensures
            final(self).root@ == set_pair_at(
                old(self).root@,
                path@.map_values(|k: usize| k as int),
                left as int,
                right as int,
                left_flex,
                right_flex,
            ),
            final(self).len == old(self).len,
            final(self).next_divider_id == old(self).next_divider_id,
            final(self).hidden_panes == old(self).hidden_panes,
    {
        proof {
            assert(path@.skip(0) =~= path@);
        }
        self.root.set_pair_flex(path, 0, left, right, left_flex, right_flex);
    }
}

} // verus!
