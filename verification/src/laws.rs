use vstd::prelude::*;

use crate::direction::{Direction, SplitDirection};
use crate::hidden::{hidden_any, hidden_for, HiddenPane, HiddenPaneReason};
use crate::layout::{
    changes_from, distribute_changes, distribute_tree, flex_settled, is_railed,
    lemma_distribute_tree, next_resizable, next_resizable_from, prev_resizable,
};
use crate::pane_data::{
    first_entry, first_entry_from, first_original_from, first_replaced_from, ids_with_reason,
    move_applies, visible_ids,
};
use crate::tree::{
    first_child, first_index, leaves, leaves_of, lemma_first_child, lemma_first_index,
    lemma_leaves_of_split, lemma_remove_tree, lemma_replace_tree, lemma_split_tree, remove_tree,
    replace_tree, split_tree, wf_tree, Divider, PaneFlex, PaneId, Tree,
};

verus! {

/// The position of a pane that was inserted into a list it was not in.
proof fn lemma_first_index_inserted(s: Seq<PaneId>, k: int, x: PaneId)
    requires
        0 <= k <= s.len(),
        !s.contains(x),
    ensures
        first_index(s.insert(k, x), x) == k,
{
    let s2 = s.insert(k, x);
    lemma_first_index(s2, x);
    assert(s2[k] == x);
    let f = first_index(s2, x);
    if f < k {
        assert(s2[f] == s[f]);
    }
}

/// Splitting a pane to open a new one and then closing the new one gives back the same
/// panes in the same order.
pub proof fn law_remove_undoes_split(
    t: Tree,
    old: PaneId,
    new: PaneId,
    direction: Direction,
    d: Divider,
)
    requires
        wf_tree(t),
        leaves(t).contains(old),
        !leaves(t).contains(new),
    ensures
        remove_tree(split_tree(t, old, new, direction, d), new) matches Some(r) && leaves(r)
            == leaves(t),
{
    lemma_split_tree(t, old, new, direction, d);
    let t2 = split_tree(t, old, new, direction, d);
    lemma_first_index(leaves(t), old);
    let k = first_index(leaves(t), old) + if direction.is_leading() {
        0int
    } else {
        1int
    };
    lemma_first_index_inserted(leaves(t), k, new);
    assert(leaves(t2)[k] == new);
    lemma_remove_tree(t2, new);
    assert(t2 is Branch) by {
        match t {
            Tree::Leaf(_) => {},
            Tree::Branch(..) => {},
        }
    }
    assert(leaves(t).insert(k, new).remove(k) =~= leaves(t));
}

/// Swapping a pane for a temporary replacement and reverting it gives back the same
/// layout and the hidden list as it was.
pub proof fn law_revert_undoes_temporary_replacement(
    t: Tree,
    h: Seq<HiddenPane>,
    original: PaneId,
    replacement: PaneId,
)
    requires
        wf_tree(t),
        leaves(t).contains(original),
        !leaves(t).contains(replacement),
        first_replaced_from(h, replacement, 0) == -1,
    ensures
        ({
            let t2 = replace_tree(t, original, replacement);
            let h2 = h.push(
                HiddenPane {
                    pane_id: original,
                    reason: HiddenPaneReason::TemporaryReplacement(replacement),
                },
            );
            let c = first_replaced_from(h2, replacement, 0);
            &&& leaves(t2).contains(replacement)
            &&& c == h.len()
            &&& h2[c].pane_id == original
            &&& h2.remove(c) == h
            &&& replace_tree(t2, replacement, h2[c].pane_id) == t
        }),
{
    let t2 = replace_tree(t, original, replacement);
    let e = HiddenPane {
        pane_id: original,
        reason: HiddenPaneReason::TemporaryReplacement(replacement),
    };
    let h2 = h.push(e);
    lemma_replace_tree(t, original, replacement);
    lemma_first_index(leaves(t), original);
    let k = first_index(leaves(t), original);
    assert(leaves(t2)[k] == replacement);
    law_replace_round_trip(t, original, replacement);
    lemma_replaced_prefix(h, h2, replacement, 0);
    assert(h2.remove(h.len() as int) =~= h);
}

/// Searching the extended list finds the entry added at its end when the list had none.
proof fn lemma_replaced_prefix(
    h: Seq<HiddenPane>,
    h2: Seq<HiddenPane>,
    replacement: PaneId,
    i: int,
)
    requires
        0 <= i <= h.len(),
        h2.len() == h.len() + 1,
        forall|j: int| 0 <= j < h.len() ==> h2[j] == h[j],
        h2[h.len() as int].reason == HiddenPaneReason::TemporaryReplacement(replacement),
        first_replaced_from(h, replacement, i) == -1,
    ensures
        first_replaced_from(h2, replacement, i) == h.len(),
    decreases h.len() - i,
{
    if i < h.len() {
        lemma_replaced_prefix(h, h2, replacement, i + 1);
    }
}

/// The collapse marker of a pane.
pub open spec fn collapse_entry(id: PaneId) -> HiddenPane {
    HiddenPane { pane_id: id, reason: HiddenPaneReason::Collapsed }
}

proof fn lemma_first_entry_pushed(h: Seq<HiddenPane>, e: HiddenPane, i: int)
    requires
        0 <= i <= h.len(),
        forall|j: int| i <= j < h.len() ==> h[j] != e,
    ensures
        first_entry_from(h.push(e), e, i) == h.len(),
    decreases h.len() - i,
{
    if i < h.len() {
        assert(h.push(e)[i] == h[i]);
        lemma_first_entry_pushed(h, e, i + 1);
    }
}

/// Restoring a pane right after collapsing it gives back the hidden list as it was; the
/// layout tree is untouched by both.
pub proof fn law_restore_undoes_collapse(h: Seq<HiddenPane>, id: PaneId)
    requires
        !hidden_any(h, id),
    ensures
        hidden_for(h.push(collapse_entry(id)), id, HiddenPaneReason::Collapsed),
        h.push(collapse_entry(id)).remove(first_entry(h.push(collapse_entry(id)), collapse_entry(id)))
            == h,
{
    if hidden_for(h, id, HiddenPaneReason::Collapsed) {
        let k = choose|k: int|
            0 <= k < h.len() && #[trigger] h[k] == (HiddenPane {
                pane_id: id,
                reason: HiddenPaneReason::Collapsed,
            });
        assert(h[k].pane_id == id);
    }
    lemma_push_then_drop(h, collapse_entry(id));
}

/// The visible panes after hiding `id`: the visible panes before, without `id`.
proof fn lemma_visible_after_hiding(ids: Seq<PaneId>, h: Seq<HiddenPane>, e: HiddenPane)
    ensures
        visible_ids(ids, h.push(e)) == visible_ids(ids, h).filter(
            |p: PaneId| p != e.pane_id,
        ),
    decreases ids.len(),
{
    if ids.len() > 0 {
        lemma_visible_after_hiding(ids.drop_last(), h, e);
        let p = ids.last();
        assert(hidden_any(h.push(e), p) == (hidden_any(h, p) || p == e.pane_id)) by {
            if hidden_any(h.push(e), p) {
                let k = choose|k: int| 0 <= k < h.push(e).len() && #[trigger] h.push(e)[k].pane_id == p;
                if k < h.len() {
                    assert(h[k].pane_id == p);
                }
            }
            if hidden_any(h, p) {
                let k = choose|k: int| 0 <= k < h.len() && #[trigger] h[k].pane_id == p;
                assert(h.push(e)[k].pane_id == p);
            }
            if p == e.pane_id {
                assert(h.push(e)[h.len() as int].pane_id == p);
            }
        }
        let f = |q: PaneId| q != e.pane_id;
        let v = visible_ids(ids.drop_last(), h);
        if !hidden_any(h, p) {
            assert(v.push(p).filter(f) == if p != e.pane_id { v.filter(f).push(p) } else { v.filter(f) }) by {
                v.lemma_filter_push(p, f);
            }
        }
    }
}

/// A collapsed pane stays in the layout but leaves navigation: after a successful collapse
/// the visible panes are those before without it, and it is not left out of snapshots.
pub proof fn law_collapsed_pane_leaves_navigation_only(
    ids: Seq<PaneId>,
    h: Seq<HiddenPane>,
    id: PaneId,
)
    requires
        !hidden_any(h, id),
    ensures
        visible_ids(ids, h.push(collapse_entry(id))) == visible_ids(ids, h).filter(
            |p: PaneId| p != id,
        ),
        !visible_ids(ids, h.push(collapse_entry(id))).contains(id),
        !(exists|i: int|
            0 <= i < h.push(collapse_entry(id)).len() && #[trigger] h.push(
                collapse_entry(id),
            )[i].pane_id == id && h.push(collapse_entry(id))[i].reason
                != HiddenPaneReason::Collapsed),
{
    let e = collapse_entry(id);
    lemma_visible_after_hiding(ids, h, e);
    let f = |p: PaneId| p != id;
    let v = visible_ids(ids, h);
    if v.filter(f).contains(id) {
        let k = choose|k: int| 0 <= k < v.filter(f).len() && v.filter(f)[k] == id;
        v.lemma_filter_pred(f, k);
    }
    let h2 = h.push(e);
    assert forall|i: int| 0 <= i < h2.len() && #[trigger] h2[i].pane_id == id implies h2[i].reason
        == HiddenPaneReason::Collapsed by {
        if i < h.len() {
            assert(h[i].pane_id == id);
        }
    }
}

/// Every pane that `visible_ids` keeps comes from `ids`.
proof fn lemma_visible_within(ids: Seq<PaneId>, h: Seq<HiddenPane>, x: PaneId)
    requires
        visible_ids(ids, h).contains(x),
    ensures
        ids.contains(x),
    decreases ids.len(),
{
    if ids.len() > 0 {
        let v = visible_ids(ids.drop_last(), h);
        let k = choose|k: int| 0 <= k < visible_ids(ids, h).len() && visible_ids(ids, h)[k] == x;
        if !hidden_any(h, ids.last()) && k == v.len() {
            assert(ids[ids.len() - 1] == x);
        } else {
            assert(v[k] == x);
            lemma_visible_within(ids.drop_last(), h, x);
            let j = choose|j: int| 0 <= j < ids.drop_last().len() && ids.drop_last()[j] == x;
            assert(ids[j] == x);
        }
    }
}

/// With two or more visible panes and no pane twice in the layout, some visible pane is
/// not `id`.
proof fn lemma_visible_other_than(ids: Seq<PaneId>, h: Seq<HiddenPane>, id: PaneId)
    requires
        ids.no_duplicates(),
        visible_ids(ids, h).len() > 1,
    ensures
        exists|k: int| 0 <= k < visible_ids(ids, h).len() && visible_ids(ids, h)[k] != id,
    decreases ids.len(),
{
    let v = visible_ids(ids.drop_last(), h);
    let p = ids.last();
    if !hidden_any(h, p) {
        if p != id {
            assert(visible_ids(ids, h)[v.len() as int] == p);
        } else {
            let y = v[0];
            assert(v.contains(y));
            lemma_visible_within(ids.drop_last(), h, y);
            let j = choose|j: int| 0 <= j < ids.drop_last().len() && ids.drop_last()[j] == y;
            assert(ids[j] == y);
            assert(j != ids.len() - 1);
            assert(visible_ids(ids, h)[0] == y);
        }
    } else {
        assert(ids.drop_last().no_duplicates()) by {
            assert forall|a: int, b: int|
                0 <= a < ids.drop_last().len() && 0 <= b < ids.drop_last().len() && a != b
                implies ids.drop_last()[a] != ids.drop_last()[b] by {
                assert(ids[a] != ids[b]);
            }
        }
        lemma_visible_other_than(ids.drop_last(), h, id);
    }
}

/// A tab always keeps a visible pane: a collapse that goes through (the pane was not
/// hidden and more than one pane was visible) leaves at least one pane visible, provided
/// no pane stands twice in the layout.
pub proof fn law_collapse_keeps_a_visible_pane(
    ids: Seq<PaneId>,
    h: Seq<HiddenPane>,
    id: PaneId,
)
    requires
        ids.no_duplicates(),
        !hidden_any(h, id),
        visible_ids(ids, h).len() > 1,
    ensures
        visible_ids(ids, h.push(collapse_entry(id))).len() >= 1,
{
    lemma_visible_after_hiding(ids, h, collapse_entry(id));
    lemma_visible_other_than(ids, h, id);
    let v = visible_ids(ids, h);
    let f = |p: PaneId| p != id;
    let k = choose|k: int| 0 <= k < v.len() && v[k] != id;
    v.lemma_filter_contains(f, k);
}

/// Pushing an entry that was absent and then dropping its first occurrence gives back the
/// list as it was.
proof fn lemma_push_then_drop(h: Seq<HiddenPane>, e: HiddenPane)
    requires
        !hidden_for(h, e.pane_id, e.reason),
    ensures
        hidden_for(h.push(e), e.pane_id, e.reason),
        h.push(e).remove(first_entry(h.push(e), e)) == h,
{
    let h2 = h.push(e);
    assert(h2[h.len() as int] == (HiddenPane { pane_id: e.pane_id, reason: e.reason }));
    assert forall|j: int| 0 <= j < h.len() implies h[j] != e by {
        if h[j] == e {
            assert(h[j] == (HiddenPane { pane_id: e.pane_id, reason: e.reason }));
        }
    }
    lemma_first_entry_pushed(h, e, 0);
    assert(h2.remove(h.len() as int) =~= h);
}

/// Toggling a pane's job visibility twice, starting from a pane not hidden for a job,
/// hides it and then shows it again, leaving the hidden list as it was.
pub proof fn law_job_toggle_twice_restores(h: Seq<HiddenPane>, id: PaneId)
    requires
        !hidden_for(h, id, HiddenPaneReason::FromJob),
    ensures
        ({
            let e = HiddenPane { pane_id: id, reason: HiddenPaneReason::FromJob };
            &&& hidden_for(h.push(e), id, HiddenPaneReason::FromJob)
            &&& h.push(e).remove(first_entry(h.push(e), e)) == h
        }),
{
    lemma_push_then_drop(h, HiddenPane { pane_id: id, reason: HiddenPaneReason::FromJob });
}

/// Hiding a child agent pane is idempotent: after one call the pane is hidden, so a second
/// call changes nothing.
pub proof fn law_hide_child_agent_idempotent(h: Seq<HiddenPane>, id: PaneId)
    ensures
        ({
            let once = if hidden_any(h, id) {
                h
            } else {
                h.push(HiddenPane { pane_id: id, reason: HiddenPaneReason::ChildAgent })
            };
            hidden_any(once, id)
        }),
{
    if !hidden_any(h, id) {
        let e = HiddenPane { pane_id: id, reason: HiddenPaneReason::ChildAgent };
        assert(h.push(e)[h.len() as int].pane_id == id);
    }
}

pub proof fn lemma_next_resizable_from_shape(s: Seq<(PaneFlex, Tree)>, hidden: Seq<HiddenPane>, j: int)
    requires
        0 <= j,
        next_resizable_from(s, hidden, j) is Some,
    ensures
        ({
            let r = next_resizable_from(s, hidden, j)->Some_0;
            &&& j <= r < s.len()
            &&& !is_railed(s[r].1, hidden)
            &&& forall|i: int| j <= i < r ==> is_railed(#[trigger] s[i].1, hidden)
        }),
    decreases s.len() - j,
{
    if j < s.len() && is_railed(s[j].1, hidden) {
        lemma_next_resizable_from_shape(s, hidden, j + 1);
    }
}

/// A divider drag resizes two real panes with nothing but rails between them: the rails
/// in between keep their fixed size.
pub proof fn law_resize_pair_flanks_only_rails(
    s: Seq<(PaneFlex, Tree)>,
    hidden: Seq<HiddenPane>,
    k: int,
)
    requires
        0 <= k < s.len(),
        next_resizable(s, hidden, k) is Some,
    ensures
        ({
            let r = next_resizable(s, hidden, k)->Some_0;
            &&& k < r < s.len()
            &&& !is_railed(s[r].1, hidden)
            &&& forall|i: int| k < i < r ==> is_railed(#[trigger] s[i].1, hidden)
        }),
{
    lemma_next_resizable_from_shape(s, hidden, k + 1);
}

/// Without rails, resizing is unchanged: a divider resizes the pane that owns it and the
/// one right after it.
pub proof fn law_resize_pair_is_adjacent_without_rails(
    s: Seq<(PaneFlex, Tree)>,
    hidden: Seq<HiddenPane>,
    k: int,
)
    requires
        0 <= k,
        k + 1 < s.len(),
        forall|i: int| 0 <= i < s.len() ==> !is_railed(#[trigger] s[i].1, hidden),
    ensures
        next_resizable(s, hidden, k) == Some(k + 1),
{
    assert(!is_railed(s[k + 1].1, hidden));
}

/// Whether a node is a rail depends on its panes only, which redistribution keeps.
proof fn lemma_distribute_keeps_rails(t: Tree, axis: SplitDirection, hidden: Seq<HiddenPane>)
    ensures
        is_railed(distribute_tree(t, axis, hidden), hidden) == is_railed(t, hidden),
{
    lemma_distribute_tree(t, axis, hidden);
}

/// Evening out the pane sizes twice is evening them out once.
pub proof fn law_distribute_idempotent(t: Tree, axis: SplitDirection, hidden: Seq<HiddenPane>)
    ensures
        distribute_tree(distribute_tree(t, axis, hidden), axis, hidden) == distribute_tree(
            t,
            axis,
            hidden,
        ),
    decreases t,
{
    match t {
        Tree::Leaf(_) => {},
        Tree::Branch(a, s, ds) => {
            let once = distribute_tree(t, axis, hidden);
            let s1 = once->Branch_1;
            let s2 = distribute_tree(once, axis, hidden)->Branch_1;
            assert forall|j: int| 0 <= j < s.len() implies #[trigger] s2[j] == s1[j] by {
                lemma_distribute_keeps_rails(s[j].1, axis, hidden);
                law_distribute_idempotent(s[j].1, axis, hidden);
            }
            assert(s2 =~= s1);
        },
    }
}

/// Moving a pane next to another never loses or duplicates a pane: the layout holds the
/// same panes, the moved one in its new place.
pub proof fn law_move_keeps_panes(
    t: Tree,
    id: PaneId,
    target: PaneId,
    direction: Direction,
    d: Divider,
)
    requires
        wf_tree(t),
        move_applies(t, id, target, direction),
    ensures
        leaves(split_tree(remove_tree(t, id)->Some_0, target, id, direction, d)).to_multiset()
            == leaves(t).to_multiset(),
{
    broadcast use vstd::multiset::group_multiset_axioms;

    let l = leaves(t);
    lemma_remove_tree(t, id);
    let r = remove_tree(t, id)->Some_0;
    lemma_first_index(l, id);
    let fi = first_index(l, id);
    lemma_split_tree(r, target, id, direction, d);
    lemma_first_index(leaves(r), target);
    let k = first_index(leaves(r), target) + if direction.is_leading() {
        0int
    } else {
        1int
    };
    vstd::seq_lib::to_multiset_remove(l, fi);
    vstd::seq_lib::to_multiset_insert(leaves(r), k, id);
    l.to_multiset_ensures();
    assert(l.to_multiset().count(id) > 0);
    assert(l.to_multiset().remove(id).insert(id) =~= l.to_multiset());
}

/// Every pane of a child is a pane of the sequence of siblings.
pub proof fn lemma_child_leaves_within(s: Seq<(PaneFlex, Tree)>, i: int, x: PaneId)
    requires
        0 <= i < s.len(),
        leaves(s[i].1).contains(x),
    ensures
        leaves_of(s).contains(x),
{
    lemma_leaves_of_split(s, i);
    let k = choose|k: int| 0 <= k < leaves(s[i].1).len() && leaves(s[i].1)[k] == x;
    let a = leaves_of(s.take(i));
    assert((a + leaves(s[i].1) + leaves_of(s.skip(i + 1)))[a.len() + k] == x);
}

/// Replacing a pane by one not in the layout and then replacing it back gives back the
/// very same layout, weights and dividers included.
pub proof fn law_replace_round_trip(t: Tree, old: PaneId, new: PaneId)
    requires
        wf_tree(t),
        !leaves(t).contains(new),
    ensures
        replace_tree(replace_tree(t, old, new), new, old) == t,
    decreases t,
{
    match t {
        Tree::Leaf(p) => {
            if p != old {
                assert(leaves(t)[0] == p);
            }
        },
        Tree::Branch(axis, s, ds) => {
            lemma_first_child(s, old);
            let i = first_child(s, old);
            if i < 0 {
                lemma_first_child(s, new);
            } else {
                let c = s[i].1;
                let c2 = replace_tree(c, old, new);
                let s2 = s.update(i, (s[i].0, c2));
                assert(wf_tree(c));
                assert(!leaves(c).contains(new)) by {
                    if leaves(c).contains(new) {
                        lemma_child_leaves_within(s, i, new);
                    }
                }
                lemma_replace_tree(c, old, new);
                lemma_first_index(leaves(c), old);
                assert(leaves(c2)[first_index(leaves(c), old)] == new);
                assert forall|j: int| 0 <= j < i implies !leaves(#[trigger] s2[j].1).contains(new) by {
                    assert(s2[j] == s[j]);
                    if leaves(s[j].1).contains(new) {
                        lemma_child_leaves_within(s, j, new);
                    }
                }
                assert(s2[i].1 == c2);
                assert(leaves(c2).contains(new));
                lemma_child_leaves_within(s2, i, new);
                lemma_first_child(s2, new);
                let i2 = first_child(s2, new);
                if i2 > i {
                    assert(!leaves(s2[i].1).contains(new));
                }
                if i2 >= 0 && i2 < i {
                    assert(!leaves(s2[i2].1).contains(new));
                }
                assert(i2 == i);
                law_replace_round_trip(c, old, new);
                assert(s2.update(i, (s2[i].0, replace_tree(s2[i].1, new, old))) =~= s);
            }
        },
    }
}

/// Moving a pane puts it right before (left, up) or right after (right, down) the target in
/// the pane order, the other panes keeping their order.
pub proof fn law_move_places_pane_beside_target(
    t: Tree,
    id: PaneId,
    target: PaneId,
    direction: Direction,
    d: Divider,
)
    requires
        wf_tree(t),
        move_applies(t, id, target, direction),
    ensures
        ({
            let l = leaves(t).remove(first_index(leaves(t), id));
            let moved = split_tree(remove_tree(t, id)->Some_0, target, id, direction, d);
            &&& wf_tree(moved)
            &&& leaves(moved) == l.insert(
                first_index(l, target) + if direction.is_leading() {
                    0int
                } else {
                    1int
                },
                id,
            )
        }),
{
    lemma_remove_tree(t, id);
    let r = remove_tree(t, id)->Some_0;
    lemma_split_tree(r, target, id, direction, d);
}

/// Collapsing a pane that is not hidden adds it last to the collapsed panes and hides it, so
/// that collapsing it a second time is refused.
pub proof fn law_collapse_records_pane(h: Seq<HiddenPane>, id: PaneId)
    requires
        !hidden_any(h, id),
    ensures
        ids_with_reason(h.push(collapse_entry(id)), HiddenPaneReason::Collapsed) == ids_with_reason(
            h,
            HiddenPaneReason::Collapsed,
        ).push(id),
        hidden_any(h.push(collapse_entry(id)), id),
        hidden_for(h.push(collapse_entry(id)), id, HiddenPaneReason::Collapsed),
{
    let h2 = h.push(collapse_entry(id));
    assert(h2.drop_last() =~= h);
    assert(h2[h.len() as int] == collapse_entry(id));
}

/// Every pane stands in at most one temporary replacement entry as the original, and every
/// replacement in at most one.
pub open spec fn replacements_unique(h: Seq<HiddenPane>) -> bool {
    forall|i: int, j: int|
        0 <= i < h.len() && 0 <= j < h.len() && (#[trigger] h[i]).reason is TemporaryReplacement
            && (#[trigger] h[j]).reason is TemporaryReplacement && (h[i].pane_id == h[j].pane_id
            || h[i].reason == h[j].reason) ==> i == j
}

proof fn lemma_first_original_from(h: Seq<HiddenPane>, original: PaneId, i: int)
    requires
        0 <= i,
    ensures
        ({
            let c = first_original_from(h, original, i);
            &&& -1 <= c < h.len()
            &&& c >= 0 ==> i <= c && h[c].pane_id == original && h[c].reason is TemporaryReplacement
            &&& c == -1 ==> forall|j: int|
                i <= j < h.len() ==> !((#[trigger] h[j]).pane_id == original
                    && h[j].reason is TemporaryReplacement)
        }),
    decreases h.len() - i,
{
    if i < h.len() && !(h[i].pane_id == original && h[i].reason is TemporaryReplacement) {
        lemma_first_original_from(h, original, i + 1);
    }
}

proof fn lemma_first_replaced_from_full(h: Seq<HiddenPane>, replacement: PaneId, i: int)
    requires
        0 <= i,
    ensures
        ({
            let c = first_replaced_from(h, replacement, i);
            &&& -1 <= c < h.len()
            &&& c >= 0 ==> i <= c && h[c].reason == HiddenPaneReason::TemporaryReplacement(
                replacement,
            )
            &&& c == -1 ==> forall|j: int|
                i <= j < h.len() ==> (#[trigger] h[j]).reason
                    != HiddenPaneReason::TemporaryReplacement(replacement)
        }),
    decreases h.len() - i,
{
    if i < h.len() && h[i].reason != HiddenPaneReason::TemporaryReplacement(replacement) {
        lemma_first_replaced_from_full(h, replacement, i + 1);
    }
}

/// Where each pane stands in at most one temporary replacement, the two lookups are
/// inverse: `r` is the replacement found for original `o` exactly when `o` is the original
/// found for replacement `r`.
pub proof fn law_replacement_lookups_are_inverse(h: Seq<HiddenPane>, o: PaneId, r: PaneId)
    requires
        replacements_unique(h),
    ensures
        ({
            let c = first_original_from(h, o, 0);
            c >= 0 && h[c].reason->TemporaryReplacement_0 == r
        }) == ({
            let c = first_replaced_from(h, r, 0);
            c >= 0 && h[c].pane_id == o
        }),
{
    lemma_first_original_from(h, o, 0);
    lemma_first_replaced_from_full(h, r, 0);
    let c1 = first_original_from(h, o, 0);
    let c2 = first_replaced_from(h, r, 0);
    if c1 >= 0 && h[c1].reason->TemporaryReplacement_0 == r {
        assert(h[c1].reason == HiddenPaneReason::TemporaryReplacement(r));
        assert(c2 >= 0);
        assert(h[c1].reason == h[c2].reason);
        assert(c1 == c2);
    }
    if c2 >= 0 && h[c2].pane_id == o {
        assert(h[c2].pane_id == o && h[c2].reason is TemporaryReplacement);
        assert(c1 >= 0);
        assert(h[c1].pane_id == h[c2].pane_id);
        assert(c1 == c2);
    }
}

/// Evening out the pane sizes a second time changes no weight: the second call reports no
/// change.
pub proof fn law_distribute_second_call_changes_nothing(
    t: Tree,
    axis: SplitDirection,
    hidden: Seq<HiddenPane>,
)
    ensures
        !distribute_changes(distribute_tree(t, axis, hidden), axis, hidden),
        distribute_tree(distribute_tree(t, axis, hidden), axis, hidden) == distribute_tree(
            t,
            axis,
            hidden,
        ),
    decreases t, 0int,
{
    law_distribute_idempotent(t, axis, hidden);
    if let Tree::Branch(a, s, ds) = t {
        lemma_distributed_changes_nothing(a, s, ds, axis, hidden, 0);
    }
}

proof fn lemma_distributed_changes_nothing(
    a: SplitDirection,
    s: Seq<(PaneFlex, Tree)>,
    ds: Seq<Divider>,
    axis: SplitDirection,
    hidden: Seq<HiddenPane>,
    i: int,
)
    requires
        0 <= i,
    ensures
        !changes_from(
            a == axis,
            distribute_tree(Tree::Branch(a, s, ds), axis, hidden)->Branch_1,
            axis,
            hidden,
            i,
        ),
    decreases s, s.len() - i,
{
    let s1 = distribute_tree(Tree::Branch(a, s, ds), axis, hidden)->Branch_1;
    if i < s.len() {
        lemma_distributed_changes_nothing(a, s, ds, axis, hidden, i + 1);
        if !(a == axis && is_railed(s[i].1, hidden)) {
            law_distribute_second_call_changes_nothing(s[i].1, axis, hidden);
            lemma_distribute_keeps_rails(s[i].1, axis, hidden);
            assert(s1[i].1 == distribute_tree(s[i].1, axis, hidden));
            assert(flex_settled(0x3F80_0000u32));
            assert(a == axis ==> flex_settled(s1[i].0.0));
        }
    }
}

/// Whether evening out changes the weight or the contents of node `j`.
pub open spec fn changes_at(
    along: bool,
    s: Seq<(PaneFlex, Tree)>,
    axis: SplitDirection,
    hidden: Seq<HiddenPane>,
    j: int,
) -> bool {
    if along {
        !is_railed(s[j].1, hidden) && (!flex_settled(s[j].0.0) || distribute_changes(
            s[j].1,
            axis,
            hidden,
        ))
    } else {
        distribute_changes(s[j].1, axis, hidden)
    }
}

/// Evening out the pane sizes reports a change exactly when it changes some weight.
pub proof fn law_distribute_reports_change(t: Tree, axis: SplitDirection, hidden: Seq<HiddenPane>)
    ensures
        distribute_changes(t, axis, hidden) == (distribute_tree(t, axis, hidden) != t),
    decreases t, 0int,
{
    if let Tree::Branch(a, s, ds) = t {
        let s1 = distribute_tree(t, axis, hidden)->Branch_1;
        let along = a == axis;
        assert forall|j: int| 0 <= j < s.len() implies (s1[j] != s[j]) == #[trigger] changes_at(
            along,
            s,
            axis,
            hidden,
            j,
        ) by {
            law_distribute_reports_change(s[j].1, axis, hidden);
            assert(flex_settled(0x3F80_0000u32));
        }
        lemma_changes_from_some(along, s, axis, hidden, 0);
        if distribute_changes(t, axis, hidden) {
            let j = choose|j: int| 0 <= j < s.len() && #[trigger] changes_at(along, s, axis, hidden, j);
            assert(s1[j] != s[j]);
            assert(s1 != s);
        } else {
            assert forall|j: int| 0 <= j < s.len() implies s1[j] == s[j] by {
                assert(!changes_at(along, s, axis, hidden, j));
            }
            assert(s1 =~= s);
        }
    }
}

proof fn lemma_changes_from_some(
    along: bool,
    s: Seq<(PaneFlex, Tree)>,
    axis: SplitDirection,
    hidden: Seq<HiddenPane>,
    i: int,
)
    requires
        0 <= i,
    ensures
        changes_from(along, s, axis, hidden, i) == exists|j: int|
            i <= j < s.len() && #[trigger] changes_at(along, s, axis, hidden, j),
    decreases s.len() - i,
{
    if i < s.len() {
        lemma_changes_from_some(along, s, axis, hidden, i + 1);
        assert(changes_from(along, s, axis, hidden, i) == (changes_at(along, s, axis, hidden, i)
            || changes_from(along, s, axis, hidden, i + 1)));
    }
}

/// A search for a real pane from `j` on finds none only when every node from `j` on is a rail.
pub proof fn lemma_next_resizable_from_none(s: Seq<(PaneFlex, Tree)>, hidden: Seq<HiddenPane>, j: int)
    requires
        0 <= j,
        next_resizable_from(s, hidden, j) is None,
    ensures
        forall|i: int| j <= i < s.len() ==> is_railed(#[trigger] s[i].1, hidden),
    decreases s.len() - j,
{
    if j < s.len() {
        lemma_next_resizable_from_none(s, hidden, j + 1);
    }
}

proof fn lemma_prev_resizable_shape(s: Seq<(PaneFlex, Tree)>, hidden: Seq<HiddenPane>, b: int)
    requires
        b <= s.len(),
    ensures
        prev_resizable(s, hidden, b) matches Some(r) ==> {
            &&& 0 <= r < b
            &&& !is_railed(s[r].1, hidden)
            &&& forall|i: int| r < i < b ==> is_railed(#[trigger] s[i].1, hidden)
        },
        prev_resizable(s, hidden, b) is None ==> forall|i: int|
            0 <= i < b ==> is_railed(#[trigger] s[i].1, hidden),
    decreases b,
{
    if b > 0 && is_railed(s[b - 1].1, hidden) {
        lemma_prev_resizable_shape(s, hidden, b - 1);
    }
}

/// The divider a keyboard resize of a real pane at `f` acts on: its own when a real pane
/// follows it, else that of the nearest real pane before it. Either way dragging that
/// divider resizes two real panes (the pane owning it is real and a real pane follows),
/// and there is none exactly when `f` is the only real pane of the branch.
pub proof fn law_keyboard_resize_target(s: Seq<(PaneFlex, Tree)>, hidden: Seq<HiddenPane>, f: int)
    requires
        0 <= f < s.len(),
        !is_railed(s[f].1, hidden),
    ensures
        ({
            let k = if next_resizable(s, hidden, f) is Some {
                Some(f)
            } else {
                prev_resizable(s, hidden, f)
            };
            &&& k matches Some(i) ==> {
                &&& 0 <= i < s.len() - 1
                &&& !is_railed(s[i].1, hidden)
                &&& next_resizable(s, hidden, i) is Some
                &&& (i == f) == (next_resizable(s, hidden, f) is Some)
            }
            &&& (k is None) == (forall|j: int|
                0 <= j < s.len() && j != f ==> is_railed(#[trigger] s[j].1, hidden))
        }),
{
    if next_resizable(s, hidden, f) is Some {
        lemma_next_resizable_from_shape(s, hidden, f + 1);
        let r = next_resizable(s, hidden, f)->Some_0;
        assert(!is_railed(s[r].1, hidden) && r != f);
    } else {
        lemma_next_resizable_from_none(s, hidden, f + 1);
        lemma_prev_resizable_shape(s, hidden, f);
        match prev_resizable(s, hidden, f) {
            Some(r) => {
                assert(!is_railed(s[r].1, hidden) && r != f);
                lemma_next_resizable_to(s, hidden, r + 1, f);
            },
            None => {},
        }
    }
}

/// Searching from `j` over rails up to a real pane at `f` finds a real pane.
pub proof fn lemma_next_resizable_to(s: Seq<(PaneFlex, Tree)>, hidden: Seq<HiddenPane>, j: int, f: int)
    requires
        0 <= j <= f < s.len(),
        !is_railed(s[f].1, hidden),
    ensures
        next_resizable_from(s, hidden, j) is Some,
    decreases f - j,
{
    if j < f && is_railed(s[j].1, hidden) {
        lemma_next_resizable_to(s, hidden, j + 1, f);
    }
}

} // verus!
