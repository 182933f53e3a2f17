use vstd::prelude::*;

use crate::tree::PaneId;

verus! {

/// Why a pane is hidden.
#[derive(Debug, Clone, Copy, PartialEq, Eq, Structural)]
pub enum HiddenPaneReason {
    FromMove,
    FromJob,
    TemporaryReplacement(PaneId),
    /// The pane was closed. It is kept around temporarily in case the user
    /// wants to undo the close.
    Closed,
    /// The pane is a child agent spawned by an orchestrator. It stays hidden
    /// until the user explicitly reveals it from the status card.
    ChildAgent,
    /// The pane is collapsed to a thin edge rail. Unlike the other reasons, a
    /// collapsed pane is still rendered, as a rail in its slot, but it is
    /// excluded from navigation.
    Collapsed,
}

/// A pane that stays in the tree but is hidden for a reason.
#[derive(Debug, Clone, Copy, PartialEq, Eq, Structural)]
pub struct HiddenPane {
    pub pane_id: PaneId,
    pub reason: HiddenPaneReason,
}

impl HiddenPane {
    pub fn from_move(pane_id: PaneId) -> (r: Self)
        ensures
            r == (HiddenPane { pane_id, reason: HiddenPaneReason::FromMove }),
    {
        Self { pane_id, reason: HiddenPaneReason::FromMove }
    }

    pub fn from_job(pane_id: PaneId) -> (r: Self)
        ensures
            r == (HiddenPane { pane_id, reason: HiddenPaneReason::FromJob }),
    {
        Self { pane_id, reason: HiddenPaneReason::FromJob }
    }

    pub fn from_temporary_replacement(pane_id: PaneId, replacement_pane_id: PaneId) -> (r: Self)
        ensures
            r == (HiddenPane {
                pane_id,
                reason: HiddenPaneReason::TemporaryReplacement(replacement_pane_id),
            }),
    {
        Self { pane_id, reason: HiddenPaneReason::TemporaryReplacement(replacement_pane_id) }
    }

    pub fn from_close(pane_id: PaneId) -> (r: Self)
        ensures
            r == (HiddenPane { pane_id, reason: HiddenPaneReason::Closed }),
    {
        Self { pane_id, reason: HiddenPaneReason::Closed }
    }

    pub fn from_child_agent(pane_id: PaneId) -> (r: Self)
        ensures
            r == (HiddenPane { pane_id, reason: HiddenPaneReason::ChildAgent }),
    {
        Self { pane_id, reason: HiddenPaneReason::ChildAgent }
    }

    pub fn from_collapse(pane_id: PaneId) -> (r: Self)
        ensures
            r == (HiddenPane { pane_id, reason: HiddenPaneReason::Collapsed }),
    {
        Self { pane_id, reason: HiddenPaneReason::Collapsed }
    }
}

/// Whether some entry hides pane `id` for `reason`.
pub open spec fn hidden_for(hidden: Seq<HiddenPane>, id: PaneId, reason: HiddenPaneReason) -> bool {
    exists|i: int| 0 <= i < hidden.len() && #[trigger] hidden[i] == (HiddenPane { pane_id: id, reason })
}

/// Whether some entry hides pane `id`, for any reason.
pub open spec fn hidden_any(hidden: Seq<HiddenPane>, id: PaneId) -> bool {
    exists|i: int| 0 <= i < hidden.len() && #[trigger] hidden[i].pane_id == id
}

/// Whether `hidden` holds an entry hiding `id` for `reason`.
pub fn pane_hidden_for(hidden: &[HiddenPane], id: PaneId, reason: HiddenPaneReason) -> (r: bool)
    ensures
        r == hidden_for(hidden@, id, reason),
{
    let mut i: usize = 0;
    while i < hidden.len()
        invariant
            i <= hidden.len(),
            forall|j: int| 0 <= j < i ==> hidden@[j] != (HiddenPane { pane_id: id, reason }),
        decreases hidden.len() - i,
    {
        if hidden[i].reason == reason && hidden[i].pane_id == id {
            assert(hidden@[i as int] == (HiddenPane { pane_id: id, reason }));
            return true;
        }
        i += 1;
    }
    false
}

/// Whether `hidden` holds any entry for pane `id`.
pub fn pane_hidden_any(hidden: &[HiddenPane], id: PaneId) -> (r: bool)
    ensures
        r == hidden_any(hidden@, id),
{
    let mut i: usize = 0;
    while i < hidden.len()
        invariant
            i <= hidden.len(),
            forall|j: int| 0 <= j < i ==> hidden@[j].pane_id != id,
        decreases hidden.len() - i,
    {
        if hidden[i].pane_id == id {
            assert(hidden@[i as int].pane_id == id);
            return true;
        }
        i += 1;
    }
    false
}

pub fn pane_hidden_for_job(hidden_panes: &[HiddenPane], id: &PaneId) -> (r: bool)
    ensures
        r == hidden_for(hidden_panes@, *id, HiddenPaneReason::FromJob),
{
    pane_hidden_for(hidden_panes, *id, HiddenPaneReason::FromJob)
}

pub fn pane_hidden_for_move(hidden_panes: &[HiddenPane], id: &PaneId) -> (r: bool)
    ensures
        r == hidden_for(hidden_panes@, *id, HiddenPaneReason::FromMove),
{
    pane_hidden_for(hidden_panes, *id, HiddenPaneReason::FromMove)
}

pub fn pane_hidden_for_undo(hidden_panes: &[HiddenPane], id: &PaneId) -> (r: bool)
    ensures
        r == hidden_for(hidden_panes@, *id, HiddenPaneReason::Closed),
{
    pane_hidden_for(hidden_panes, *id, HiddenPaneReason::Closed)
}

pub fn pane_hidden_for_child_agent(hidden_panes: &[HiddenPane], id: &PaneId) -> (r: bool)
    ensures
        r == hidden_for(hidden_panes@, *id, HiddenPaneReason::ChildAgent),
{
    pane_hidden_for(hidden_panes, *id, HiddenPaneReason::ChildAgent)
}

pub fn pane_collapsed(hidden_panes: &[HiddenPane], id: &PaneId) -> (r: bool)
    ensures
        r == hidden_for(hidden_panes@, *id, HiddenPaneReason::Collapsed),
{
    pane_hidden_for(hidden_panes, *id, HiddenPaneReason::Collapsed)
}

} // verus!
