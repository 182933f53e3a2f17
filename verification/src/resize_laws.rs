use vstd::prelude::*;

use crate::hidden::HiddenPane;
use crate::laws::{
    lemma_next_resizable_from_none, lemma_next_resizable_from_shape, lemma_next_resizable_to,
};
use crate::layout::{
    divider_index_from, divider_resize, first_divider_child_from, has_divider, is_railed,
    lemma_divider_index_from, lemma_first_divider_child_from, next_resizable, own_divider,
    reset_tree,
};
use crate::slot_laws::{lemma_node_at_child, node_at};
use crate::tree::{default_flex, wf_tree, Divider, PaneFlex, Tree};

verus! {

/// The node at `p` is a branch whose divider at index `l` is the first with id `id`.
pub open spec fn owns_divider_at(t: Tree, p: Seq<int>, id: u64, l: int) -> bool {
    &&& node_at(t, p) is Some
    &&& node_at(t, p)->0 is Branch
    &&& 0 <= l < node_at(t, p)->0->Branch_2.len()
    &&& node_at(t, p)->0->Branch_2[l].id == id
    &&& forall|j: int| 0 <= j < l ==> (#[trigger] node_at(t, p)->0->Branch_2[j]).id != id
}

/// The two real panes a drag of the divider after node `l` resizes, in the nodes `s`:
/// node `l` itself, which owns the divider, and the first real pane after it, with only
/// rails in between.
pub open spec fn drag_pair(s: Seq<(PaneFlex, Tree)>, hidden: Seq<HiddenPane>, l: int, r: int) -> bool {
    &&& 0 <= l < r < s.len()
    &&& !is_railed(s[l].1, hidden)
    &&& !is_railed(s[r].1, hidden)
    &&& forall|j: int| l < j < r ==> is_railed(#[trigger] s[j].1, hidden)
}

/// The drag of divider `id` found at path `p` with result `pair`, its divider being index
/// `l` of that branch.
pub open spec fn drag_at(t: Tree, p: Seq<int>, pair: Option<(int, int)>, id: u64, hidden: Seq<HiddenPane>, l: int) -> bool {
    let s = node_at(t, p)->0->Branch_1;
    &&& owns_divider_at(t, p, id, l)
    &&& pair matches Some(x) ==> x.0 == l && drag_pair(s, hidden, l, x.1)
    &&& pair is None ==> l < s.len() && (is_railed(s[l].1, hidden) || forall|j: int|
        l < j < s.len() ==> is_railed(#[trigger] s[j].1, hidden))
}

proof fn lemma_any_divider_at(s: Seq<(PaneFlex, Tree)>, id: u64, k: int, i: int)
    requires
        0 <= k <= i < s.len(),
        has_divider(s[i].1, id),
    ensures
        crate::layout::any_divider_from(s, id, k),
    decreases i - k,
{
    if k < i {
        lemma_any_divider_at(s, id, k + 1, i);
    }
}

/// Dragging divider `id`: it is found exactly when some branch holds it, at a branch whose
/// divider `l` is the first with that id. The drag resizes the node `l` that owns the
/// divider against the first real pane after it, skipping rails; it does nothing exactly
/// when that owner is a rail or only rails follow it.
pub proof fn law_divider_drag(t: Tree, id: u64, hidden: Seq<HiddenPane>)
    requires
        wf_tree(t),
    ensures
        (divider_resize(t, id, hidden) is Some) == has_divider(t, id),
        divider_resize(t, id, hidden) matches Some(found) ==> exists|l: int|
            #[trigger] drag_at(t, found.0, found.1, id, hidden, l),
    decreases t,
{
    match t {
        Tree::Leaf(_) => {},
        Tree::Branch(a, s, ds) => {
            let e = Seq::<int>::empty();
            assert(node_at(t, e) == Some(t));
            if own_divider(ds, id) {
                lemma_divider_index_from(ds, id, 0);
                let l = divider_index_from(ds, id, 0);
                if l == -1 {
                    let j = choose|j: int| 0 <= j < ds.len() && #[trigger] ds[j].id == id;
                    assert(ds[j].id != id);
                }
                assert forall|j: int| 0 <= j < l implies (#[trigger] ds[j]).id != id by {
                    lemma_divider_index_before(ds, id, 0, j);
                }
                assert(owns_divider_at(t, e, id, l));
                assert(l < s.len());
                if !is_railed(s[l].1, hidden) {
                    match next_resizable(s, hidden, l) {
                        Some(r) => {
                            lemma_next_resizable_from_shape(s, hidden, l + 1);
                        },
                        None => {
                            lemma_next_resizable_from_none(s, hidden, l + 1);
                        },
                    }
                }
                let found = divider_resize(t, id, hidden)->Some_0;
                assert(found.0 == e);
                assert(drag_at(t, found.0, found.1, id, hidden, l));
                assert(exists|l: int| #[trigger] drag_at(t, found.0, found.1, id, hidden, l));
            } else {
                lemma_first_divider_child_from(s, id, 0);
                let i = first_divider_child_from(s, id, 0);
                if i >= 0 {
                    law_divider_drag(s[i].1, id, hidden);
                    let found = divider_resize(s[i].1, id, hidden)->Some_0;
                    lemma_any_divider_at(s, id, 0, i);
                    let l = choose|l: int| #[trigger] drag_at(s[i].1, found.0, found.1, id, hidden, l);
                    lemma_node_at_child(a, s, ds, i, found.0);
                    assert(divider_resize(t, id, hidden) == Some((seq![i] + found.0, found.1)));
                    assert(drag_at(t, seq![i] + found.0, found.1, id, hidden, l));
                    let ft = divider_resize(t, id, hidden)->Some_0;
                    assert(drag_at(t, ft.0, ft.1, id, hidden, l));
                } else {
                    lemma_no_divider_from(s, id);
                }
            }
        },
    }
}

proof fn lemma_divider_index_before(ds: Seq<Divider>, id: u64, k: int, j: int)
    requires
        0 <= k <= j,
        divider_index_from(ds, id, k) > j,
    ensures
        ds[j].id != id,
    decreases j - k,
{
    if k < j {
        lemma_divider_index_before(ds, id, k + 1, j);
    }
}

proof fn lemma_no_divider_from(s: Seq<(PaneFlex, Tree)>, id: u64)
    requires
        first_divider_child_from(s, id, 0) < 0,
    ensures
        !crate::layout::any_divider_from(s, id, 0),
{
    lemma_first_divider_child_from(s, id, 0);
    lemma_any_divider_from(s, id, 0);
}

proof fn lemma_any_divider_from(s: Seq<(PaneFlex, Tree)>, id: u64, i: int)
    requires
        0 <= i,
        forall|j: int| i <= j < s.len() ==> !has_divider(#[trigger] s[j].1, id),
    ensures
        !crate::layout::any_divider_from(s, id, i),
    decreases s.len() - i,
{
    if i < s.len() {
        lemma_any_divider_from(s, id, i + 1);
    }
}

/// Without rails, a drag of a divider resizes the node owning it and the node right after.
pub proof fn law_divider_drag_without_rails(
    s: Seq<(PaneFlex, Tree)>,
    hidden: Seq<HiddenPane>,
    l: int,
    r: int,
)
    requires
        drag_pair(s, hidden, l, r),
        forall|j: int| 0 <= j < s.len() ==> !is_railed(#[trigger] s[j].1, hidden),
    ensures
        r == l + 1,
{
    if r > l + 1 {
        assert(is_railed(s[l + 1].1, hidden));
    }
}

/// Resetting the sizes at divider `id` of a branch that holds it gives every node of that
/// branch the default weight and keeps every node's contents.
pub proof fn law_reset_own_branch(
    a: crate::direction::SplitDirection,
    s: Seq<(PaneFlex, Tree)>,
    ds: Seq<Divider>,
    id: u64,
)
    requires
        own_divider(ds, id),
    ensures
        reset_tree(Tree::Branch(a, s, ds), id) is Branch,
        reset_tree(Tree::Branch(a, s, ds), id)->Branch_0 == a,
        reset_tree(Tree::Branch(a, s, ds), id)->Branch_2 == ds,
        reset_tree(Tree::Branch(a, s, ds), id)->Branch_1.len() == s.len(),
        forall|j: int|
            0 <= j < s.len() ==> (#[trigger] reset_tree(Tree::Branch(a, s, ds), id)->Branch_1[j]) == (
            default_flex(),
            s[j].1,
        ),
{
}

/// Resetting the sizes at divider `id`: where no branch holds it nothing changes;
/// otherwise, at the branch holding it that a drag of it acts on, every node gets the
/// default weight and keeps its contents.
pub proof fn law_reset_pane_sizes(t: Tree, id: u64, hidden: Seq<HiddenPane>)
    requires
        wf_tree(t),
    ensures
        !has_divider(t, id) ==> reset_tree(t, id) == t,
        has_divider(t, id) ==> {
            let p = divider_resize(t, id, hidden)->Some_0.0;
            &&& node_at(t, p) is Some
            &&& node_at(reset_tree(t, id), p) is Some
            &&& node_at(t, p)->0 is Branch
            &&& node_at(reset_tree(t, id), p)->0 is Branch
            &&& node_at(reset_tree(t, id), p)->0->Branch_1.len() == node_at(t, p)->0->Branch_1.len()
            &&& forall|j: int|
                0 <= j < node_at(t, p)->0->Branch_1.len() ==> (#[trigger] node_at(
                    reset_tree(t, id),
                    p,
                )->0->Branch_1[j]) == (default_flex(), node_at(t, p)->0->Branch_1[j].1)
        },
    decreases t,
{
    law_divider_drag(t, id, hidden);
    match t {
        Tree::Leaf(_) => {},
        Tree::Branch(a, s, ds) => {
            let e = Seq::<int>::empty();
            assert(node_at(t, e) == Some(t));
            assert(node_at(reset_tree(t, id), e) == Some(reset_tree(t, id)));
            if own_divider(ds, id) {
                law_reset_own_branch(a, s, ds, id);
            } else {
                lemma_first_divider_child_from(s, id, 0);
                let i = first_divider_child_from(s, id, 0);
                if i >= 0 {
                    lemma_any_divider_at(s, id, 0, i);
                    law_reset_pane_sizes(s[i].1, id, hidden);
                    let p = divider_resize(s[i].1, id, hidden)->Some_0.0;
                    lemma_node_at_child(a, s, ds, i, p);
                    let r = reset_tree(t, id);
                    let s2 = s.update(i, (s[i].0, reset_tree(s[i].1, id)));
                    assert(r == Tree::Branch(a, s2, ds));
                    lemma_node_at_child(a, s2, ds, i, p);
                    assert(s2[i].1 == reset_tree(s[i].1, id));
                } else {
                    lemma_no_divider_from(s, id);
                }
            }
        },
    }
}

/// `t` with the node at path `p` replaced by `n`.
pub open spec fn replace_at(t: Tree, p: Seq<int>, n: Tree) -> Tree
    decreases p.len(),
{
    if p.len() == 0 {
        n
    } else {
        match t {
            Tree::Branch(a, s, ds) => if 0 <= p[0] < s.len() {
                Tree::Branch(a, s.update(p[0], (s[p[0]].0, replace_at(s[p[0]].1, p.drop_first(), n))), ds)
            } else {
                t
            },
            Tree::Leaf(_) => t,
        }
    }
}

/// A branch with every node at the default weight, contents kept.
pub open spec fn with_default_weights(b: Tree) -> Tree {
    match b {
        Tree::Branch(a, s, ds) => Tree::Branch(
            a,
            Seq::new(s.len(), |j: int| (default_flex(), s[j].1)),
            ds,
        ),
        Tree::Leaf(_) => b,
    }
}

/// Resetting the sizes at divider `id` changes the branch holding it (the one a drag of it
/// acts on) to default weights and nothing else in the tree.
pub proof fn law_reset_changes_only_that_branch(t: Tree, id: u64, hidden: Seq<HiddenPane>)
    requires
        wf_tree(t),
        has_divider(t, id),
    ensures
        ({
            let p = divider_resize(t, id, hidden)->Some_0.0;
            reset_tree(t, id) == replace_at(t, p, with_default_weights(node_at(t, p)->0))
        }),
    decreases t,
{
    law_divider_drag(t, id, hidden);
    if let Tree::Branch(a, s, ds) = t {
        if own_divider(ds, id) {
            assert(s.map_values(|x: (PaneFlex, Tree)| (default_flex(), x.1)) =~= Seq::new(
                s.len(),
                |j: int| (default_flex(), s[j].1),
            ));
        } else {
            lemma_first_divider_child_from(s, id, 0);
            let i = first_divider_child_from(s, id, 0);
            if i < 0 {
                lemma_no_divider_from(s, id);
            } else {
                law_divider_drag(s[i].1, id, hidden);
                law_reset_changes_only_that_branch(s[i].1, id, hidden);
                let p = divider_resize(s[i].1, id, hidden)->Some_0.0;
                let q = seq![i] + p;
                lemma_node_at_child(a, s, ds, i, p);
                assert(q.drop_first() =~= p);
                assert(q[0] == i);
                assert(divider_resize(t, id, hidden)->Some_0.0 == q);
            }
        }
    }
}

} // verus!
