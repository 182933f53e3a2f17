use vstd::prelude::*;

use crate::adjacency_laws::{
    law_lookup, law_sibling_is_adjacent, lemma_child_no_duplicates, lemma_children_disjoint,
};
use crate::direction::{Direction, SplitDirection};
use crate::hidden::{hidden_for, HiddenPane, HiddenPaneReason};
use crate::layout::{
    any_moving_from, any_split_from, any_visible_from, count_taking_part, has_moving, has_visible,
    horizontal_split, key_resize, key_resize_from, leaf_shown, next_resizable, prev_resizable,
    takes_part,
};
use crate::laws::lemma_child_leaves_within;
use crate::tree::{
    first_child, first_panes, group_tree, leaves, leaves_of, lemma_first_child, lookup_from,
    lookup_tree, sibling_from, sibling_tree, wf_tree, Divider, Lookup, PaneFlex, PaneId, Tree,
};

verus! {

/// The node reached from `t` by following the child indices of `path`; none when the path
/// leaves the tree.
pub open spec fn node_at(t: Tree, path: Seq<int>) -> Option<Tree>
    decreases path.len(),
{
    if path.len() == 0 {
        Some(t)
    } else {
        match t {
            Tree::Branch(_, s, _) => if 0 <= path[0] < s.len() {
                node_at(s[path[0]].1, path.drop_first())
            } else {
                None
            },
            Tree::Leaf(_) => None,
        }
    }
}

/// The index of the slot next to slot `i` toward `direction`.
pub open spec fn next_slot(i: int, direction: Direction) -> int {
    if direction.is_leading() {
        i - 1
    } else {
        i + 1
    }
}

/// Node `b` is a branch along `direction`'s axis in which pane `id` is a direct child and
/// the slot next to it toward `direction` holds the pane `q`.
pub open spec fn slot_neighbors(b: Tree, id: PaneId, direction: Direction, q: PaneId) -> bool {
    &&& b matches Tree::Branch(axis, s, _)
    &&& b->Branch_0 == direction.spec_axis()
    &&& exists|i: int|
        #![trigger b->Branch_1[i]]
        0 <= i < b->Branch_1.len() && 0 <= next_slot(i, direction) < b->Branch_1.len()
            && b->Branch_1[i].1 == Tree::Leaf(id) && b->Branch_1[next_slot(i, direction)].1
            == Tree::Leaf(q)
}

/// The node at `p` in `t` is a branch in which `q` is the neighbor of `id` toward `direction`.
pub open spec fn neighbors_at(t: Tree, p: Seq<int>, id: PaneId, direction: Direction, q: PaneId) -> bool {
    node_at(t, p) is Some && slot_neighbors(node_at(t, p)->0, id, direction, q)
}

/// Following child `c` first, then `p`.
pub proof fn lemma_node_at_child(axis: SplitDirection, s: Seq<(PaneFlex, Tree)>, ds: Seq<Divider>, c: int, p: Seq<int>)
    requires
        0 <= c < s.len(),
    ensures
        node_at(Tree::Branch(axis, s, ds), seq![c] + p) == node_at(s[c].1, p),
{
    assert((seq![c] + p).drop_first() =~= p);
    assert((seq![c] + p)[0] == c);
}

/// The panes of a node inside `t` are panes of `t`.
pub proof fn lemma_node_at_leaves(t: Tree, p: Seq<int>, x: PaneId)
    requires
        node_at(t, p) is Some,
        leaves(node_at(t, p)->0).contains(x),
    ensures
        leaves(t).contains(x),
    decreases p.len(),
{
    if p.len() > 0 {
        let s = t->Branch_1;
        lemma_node_at_leaves(s[p[0]].1, p.drop_first(), x);
        lemma_child_leaves_within(s, p[0], x);
    }
}

/// The pane next to `id` toward `direction` in the same branch, along that direction's
/// axis: a direct sibling found is always such a neighbor, and where no pane occurs twice,
/// any such neighbor is the sibling found. So, where no pane occurs twice, there is no
/// sibling exactly when `id` is not a direct child of a branch along the axis with a pane
/// in the next slot.
pub proof fn law_sibling_slot(t: Tree, id: PaneId, direction: Direction)
    ensures
        sibling_tree(t, id, direction) matches Some(q) ==> exists|p: Seq<int>|
            #[trigger] neighbors_at(t, p, id, direction, q),
        leaves(t).no_duplicates() ==> forall|p: Seq<int>, q: PaneId|
            #[trigger] neighbors_at(t, p, id, direction, q)
                ==> sibling_tree(t, id, direction) == Some(q),
    decreases t, 0int,
{
    if let Tree::Branch(axis, s, ds) = t {
        lemma_sibling_from_slot(axis, s, ds, id, direction, 0);
        if leaves(t).no_duplicates() {
            assert forall|p: Seq<int>, q: PaneId|
                #[trigger] neighbors_at(t, p, id, direction, q)
                implies sibling_tree(t, id, direction) == Some(q) by {
                lemma_sibling_from_finds(axis, s, ds, id, direction, 0, p, q);
            }
        }
    }
}

proof fn lemma_sibling_from_slot(
    axis: SplitDirection,
    s: Seq<(PaneFlex, Tree)>,
    ds: Seq<Divider>,
    id: PaneId,
    direction: Direction,
    i: int,
)
    requires
        0 <= i,
    ensures
        sibling_from(axis, s, id, direction, i) matches Some(q) ==> exists|p: Seq<int>|
            #[trigger] neighbors_at(Tree::Branch(axis, s, ds), p, id, direction, q),
    decreases s, s.len() - i,
{
    let t = Tree::Branch(axis, s, ds);
    if i < s.len() {
        match s[i].1 {
            Tree::Branch(..) => {
                match sibling_tree(s[i].1, id, direction) {
                    Some(q) => {
                        law_sibling_slot(s[i].1, id, direction);
                        let p = choose|p: Seq<int>|
                            #[trigger] neighbors_at(s[i].1, p, id, direction, q);
                        lemma_node_at_child(axis, s, ds, i, p);
                        assert(node_at(t, seq![i] + p) == node_at(s[i].1, p));
                        assert(neighbors_at(t, seq![i] + p, id, direction, q));
                    },
                    None => {
                        lemma_sibling_from_slot(axis, s, ds, id, direction, i + 1);
                    },
                }
            },
            Tree::Leaf(x) => {
                if direction.spec_axis() == axis && x == id {
                    if let Some(q) = sibling_from(axis, s, id, direction, i) {
                        let e = Seq::<int>::empty();
                        assert(node_at(t, e) == Some(t));
                        assert(s[next_slot(i, direction)].1 == Tree::Leaf(q));
                        assert(t->Branch_1[i].1 == Tree::Leaf(id));
                        assert(slot_neighbors(t, id, direction, q));
                        assert(neighbors_at(t, e, id, direction, q));
                    }
                } else {
                    lemma_sibling_from_slot(axis, s, ds, id, direction, i + 1);
                }
            },
        }
    }
}

/// The slot index through which path `p` leaves `t`, or the slot of `id` itself when `p`
/// is empty.
proof fn lemma_sibling_from_finds(
    axis: SplitDirection,
    s: Seq<(PaneFlex, Tree)>,
    ds: Seq<Divider>,
    id: PaneId,
    direction: Direction,
    i: int,
    p: Seq<int>,
    q: PaneId,
)
    requires
        0 <= i,
        leaves(Tree::Branch(axis, s, ds)).no_duplicates(),
        neighbors_at(Tree::Branch(axis, s, ds), p, id, direction, q),
        p.len() > 0 ==> i <= p[0],
        p.len() == 0 ==> exists|k: int|
            #![trigger s[k]]
            i <= k < s.len() && 0 <= next_slot(k, direction) < s.len() && s[k].1 == Tree::Leaf(id)
                && s[next_slot(k, direction)].1 == Tree::Leaf(q),
    ensures
        sibling_from(axis, s, id, direction, i) == Some(q),
    decreases s, s.len() - i,
{
    let t = Tree::Branch(axis, s, ds);
    assert(leaves(t) == crate::tree::leaves_of(s));
    // The child through which the slot is reached holds `id`.
    let c: int = if p.len() > 0 {
        p[0]
    } else {
        choose|k: int|
            #![trigger s[k]]
            i <= k < s.len() && 0 <= next_slot(k, direction) < s.len() && s[k].1 == Tree::Leaf(id)
                && s[next_slot(k, direction)].1 == Tree::Leaf(q)
    };
    let b = node_at(t, p)->0;
    assert(0 <= c < s.len());
    if p.len() > 0 {
        let k = choose|k: int|
            #![trigger b->Branch_1[k]]
            0 <= k < b->Branch_1.len() && 0 <= next_slot(k, direction) < b->Branch_1.len()
                && b->Branch_1[k].1 == Tree::Leaf(id) && b->Branch_1[next_slot(k, direction)].1
                == Tree::Leaf(q);
        assert(leaves(b->Branch_1[k].1) == seq![id]);
        assert(leaves(b->Branch_1[k].1)[0] == id);
        lemma_child_leaves_within(b->Branch_1, k, id);
        assert(leaves(b) == crate::tree::leaves_of(b->Branch_1));
        lemma_node_at_leaves(s[c].1, p.drop_first(), id);
    } else {
        assert(leaves(s[c].1) == seq![id]);
        assert(leaves(s[c].1)[0] == id);
    }
    assert(leaves(s[c].1).contains(id));
    if i < c {
        // Slot `i` does not hold `id`, so the search passes over it.
        if leaves(s[i].1).contains(id) {
            lemma_children_disjoint(s, c, i, id);
        }
        law_sibling_is_adjacent(s[i].1, id, direction);
        if let Tree::Leaf(x) = s[i].1 {
            assert(leaves(s[i].1) == seq![x]);
            assert(x != id);
        }
        if p.len() == 0 {
            assert(s[c].1 == Tree::Leaf(id));
            assert(i + 1 <= c < s.len() && 0 <= next_slot(c, direction) < s.len() && s[c].1 == Tree::Leaf(id)
                && s[next_slot(c, direction)].1 == Tree::Leaf(q));
        }
        lemma_sibling_from_finds(axis, s, ds, id, direction, i + 1, p, q);
    } else {
        assert(i == c);
        if p.len() > 0 {
            lemma_child_no_duplicates(s, c);
            let rest = p.drop_first();
            assert(p =~= seq![c] + rest);
            lemma_node_at_child(axis, s, ds, c, rest);
            assert(s[c].1 is Branch) by {
                if rest.len() > 0 {
                } else {
                    assert(node_at(s[c].1, rest) == Some(s[c].1));
                }
            }
            law_sibling_slot(s[c].1, id, direction);
            assert(node_at(s[c].1, rest) == Some(b));
            assert(neighbors_at(s[c].1, rest, id, direction, q));
            assert(sibling_tree(s[c].1, id, direction) == Some(q));
        } else {
            assert(b == t);
            assert(axis == direction.spec_axis());
            assert(s[c].1 == Tree::Leaf(id));
            assert(s[next_slot(c, direction)].1 == Tree::Leaf(q));
            if direction.is_leading() {
                assert(c != 0);
            } else {
                assert(c != s.len() - 1);
            }
        }
    }
}

/// The node at `p` in `t` is a branch along `direction`'s axis whose slot `i` holds pane
/// `id` and has a slot next to it toward `direction`.
pub open spec fn open_slot_at(t: Tree, p: Seq<int>, i: int, id: PaneId, direction: Direction) -> bool {
    &&& node_at(t, p) is Some
    &&& node_at(t, p)->0 is Branch
    &&& node_at(t, p)->0->Branch_0 == direction.spec_axis()
    &&& 0 <= i < node_at(t, p)->0->Branch_1.len()
    &&& 0 <= next_slot(i, direction) < node_at(t, p)->0->Branch_1.len()
    &&& leaves(node_at(t, p)->0->Branch_1[i].1).contains(id)
}

/// Some branch on the way down to pane `id` has a slot next to it toward `direction`.
pub open spec fn has_open_slot(t: Tree, id: PaneId, direction: Direction) -> bool {
    exists|p: Seq<int>, i: int| #[trigger] open_slot_at(t, p, i, id, direction)
}

/// The child in the slot next to the open slot `i` of the node at `p`.
pub open spec fn next_child(t: Tree, p: Seq<int>, i: int, direction: Direction) -> Tree {
    node_at(t, p)->0->Branch_1[next_slot(i, direction)].1
}

/// The child in the open slot `i` of the node at `p`.
pub open spec fn slot_child(t: Tree, p: Seq<int>, i: int) -> Tree {
    node_at(t, p)->0->Branch_1[i].1
}

proof fn lemma_leaf_has_no_open_slot(t: Tree, id: PaneId, direction: Direction)
    requires
        t is Leaf,
    ensures
        !has_open_slot(t, id, direction),
{
    assert forall|p: Seq<int>, i: int| !#[trigger] open_slot_at(t, p, i, id, direction) by {
        if p.len() > 0 {
            assert(node_at(t, p) is None);
        }
    }
}

/// A tree without pane `id` has no open slot for it.
proof fn lemma_absent_has_no_open_slot(t: Tree, id: PaneId, direction: Direction)
    requires
        !leaves(t).contains(id),
    ensures
        !has_open_slot(t, id, direction),
{
    assert forall|p: Seq<int>, i: int| !#[trigger] open_slot_at(t, p, i, id, direction) by {
        if open_slot_at(t, p, i, id, direction) {
            let b = node_at(t, p)->0;
            lemma_child_leaves_within(b->Branch_1, i, id);
            assert(leaves(b) == leaves_of(b->Branch_1));
            lemma_node_at_leaves(t, p, id);
        }
    }
}

/// An open slot of a branch is its own, at the child holding `id`, or one inside that child.
proof fn lemma_open_slot_split(
    axis: SplitDirection,
    s: Seq<(PaneFlex, Tree)>,
    ds: Seq<Divider>,
    id: PaneId,
    direction: Direction,
    c: int,
)
    requires
        0 <= c < s.len(),
        leaves_of(s).no_duplicates(),
        leaves(s[c].1).contains(id),
    ensures
        has_open_slot(Tree::Branch(axis, s, ds), id, direction) == ((axis == direction.spec_axis()
            && 0 <= next_slot(c, direction) < s.len()) || has_open_slot(s[c].1, id, direction)),
        axis == direction.spec_axis() && 0 <= next_slot(c, direction) < s.len() ==> open_slot_at(
            Tree::Branch(axis, s, ds),
            Seq::empty(),
            c,
            id,
            direction,
        ),
        forall|p: Seq<int>, i: int|
            #[trigger] open_slot_at(s[c].1, p, i, id, direction) ==> open_slot_at(
                Tree::Branch(axis, s, ds),
                seq![c] + p,
                i,
                id,
                direction,
            ) && node_at(Tree::Branch(axis, s, ds), seq![c] + p) == node_at(s[c].1, p),
{
    let t = Tree::Branch(axis, s, ds);
    let e = Seq::<int>::empty();
    assert(node_at(t, e) == Some(t));
    assert forall|p: Seq<int>, i: int| #[trigger] open_slot_at(s[c].1, p, i, id, direction) implies open_slot_at(
        t,
        seq![c] + p,
        i,
        id,
        direction,
    ) && node_at(t, seq![c] + p) == node_at(s[c].1, p) by {
        lemma_node_at_child(axis, s, ds, c, p);
    }
    if axis == direction.spec_axis() && 0 <= next_slot(c, direction) < s.len() {
        assert(open_slot_at(t, e, c, id, direction));
    }
    if has_open_slot(s[c].1, id, direction) {
        let (p, i) = choose|p: Seq<int>, i: int| #[trigger] open_slot_at(s[c].1, p, i, id, direction);
        assert(open_slot_at(t, seq![c] + p, i, id, direction));
    }
    if has_open_slot(t, id, direction) {
        let (p, i) = choose|p: Seq<int>, i: int| #[trigger] open_slot_at(t, p, i, id, direction);
        if p.len() == 0 {
            assert(node_at(t, p) == Some(t));
            if i != c {
                lemma_children_disjoint(s, c, i, id);
            }
        } else {
            let c2 = p[0];
            let rest = p.drop_first();
            assert(p =~= seq![c2] + rest);
            lemma_node_at_child(axis, s, ds, c2, rest);
            let b = node_at(t, p)->0;
            lemma_child_leaves_within(b->Branch_1, i, id);
            assert(leaves(b) == leaves_of(b->Branch_1));
            lemma_node_at_leaves(s[c2].1, rest, id);
            if c2 != c {
                lemma_children_disjoint(s, c, c2, id);
            }
            assert(open_slot_at(s[c].1, rest, i, id, direction));
        }
    }
}

/// Looking for the panes next to `id` in `direction`, where no pane occurs twice: the pane
/// is located with nothing beyond it exactly when it is in the tree and no branch on the
/// way down to it has a slot next to it toward `direction`. What is found are the panes,
/// at the edge facing `id`, of the slot next to `id`'s slot in the innermost such branch:
/// the one whose child holding `id` has no such branch inside.
pub proof fn law_lookup_slot(t: Tree, id: PaneId, direction: Direction)
    requires
        wf_tree(t),
        leaves(t).no_duplicates(),
    ensures
        (lookup_tree(t, id, direction) is Located) == (leaves(t).contains(id) && !has_open_slot(
            t,
            id,
            direction,
        )),
        lookup_tree(t, id, direction) matches Lookup::Found(x) ==> exists|p: Seq<int>, i: int|
            {
                &&& #[trigger] open_slot_at(t, p, i, id, direction)
                &&& x == first_panes(next_child(t, p, i, direction), direction)
                &&& !has_open_slot(slot_child(t, p, i), id, direction)
            },
    decreases t,
{
    law_lookup(t, id, direction);
    match t {
        Tree::Leaf(_) => {
            lemma_leaf_has_no_open_slot(t, id, direction);
        },
        Tree::Branch(axis, s, ds) => {
            assert(leaves(t) == leaves_of(s));
            if !leaves(t).contains(id) {
                lemma_absent_has_no_open_slot(t, id, direction);
            } else {
                lemma_first_child(s, id);
                let c = first_child(s, id);
                lemma_lookup_skip(axis, s, id, direction, 0, c);
                lemma_child_no_duplicates(s, c);
                law_lookup_slot(s[c].1, id, direction);
                law_lookup(s[c].1, id, direction);
                lemma_open_slot_split(axis, s, ds, id, direction, c);
                let e = Seq::<int>::empty();
                match lookup_tree(s[c].1, id, direction) {
                    Lookup::Found(x) => {
                        let (p, i) = choose|p: Seq<int>, i: int|
                            {
                                &&& #[trigger] open_slot_at(s[c].1, p, i, id, direction)
                                &&& x == first_panes(next_child(s[c].1, p, i, direction), direction)
                                &&& !has_open_slot(slot_child(s[c].1, p, i), id, direction)
                            };
                        assert(open_slot_at(t, seq![c] + p, i, id, direction));
                        assert(next_child(t, seq![c] + p, i, direction) == next_child(s[c].1, p, i, direction));
                        assert(slot_child(t, seq![c] + p, i) == slot_child(s[c].1, p, i));
                    },
                    Lookup::Located => {
                        if axis == direction.spec_axis() && 0 <= next_slot(c, direction) < s.len() {
                            assert(open_slot_at(t, e, c, id, direction));
                            assert(next_child(t, e, c, direction) == s[next_slot(c, direction)].1);
                            assert(slot_child(t, e, c) == s[c].1);
                        }
                    },
                    Lookup::NotFound => {},
                }
            }
        },
    }
}

/// The lookup passes over the slots before the one holding `id`.
proof fn lemma_lookup_skip(
    axis: SplitDirection,
    s: Seq<(PaneFlex, Tree)>,
    id: PaneId,
    direction: Direction,
    i: int,
    c: int,
)
    requires
        0 <= i <= c < s.len(),
        forall|j: int| 0 <= j < c ==> !leaves(#[trigger] s[j].1).contains(id),
        forall|j: int| 0 <= j < s.len() ==> wf_tree(#[trigger] s[j].1),
    ensures
        lookup_from(axis, s, id, direction, i) == lookup_from(axis, s, id, direction, c),
    decreases c - i,
{
    if i < c {
        law_lookup(s[i].1, id, direction);
        lemma_lookup_skip(axis, s, id, direction, i + 1, c);
    }
}

/// The group of panes bordering `id` toward `direction`, where no pane occurs twice: there
/// is none exactly when no branch on the way down to `id` has a slot next to it toward
/// `direction`; otherwise it is the panes, in order, of the slot next to `id`'s slot in the
/// innermost such branch.
pub proof fn law_group_slot(t: Tree, id: PaneId, direction: Direction)
    requires
        leaves(t).no_duplicates(),
    ensures
        (group_tree(t, id, direction) is None) == !has_open_slot(t, id, direction),
        group_tree(t, id, direction) matches Some(g) ==> exists|p: Seq<int>, i: int|
            {
                &&& #[trigger] open_slot_at(t, p, i, id, direction)
                &&& g == leaves(next_child(t, p, i, direction))
                &&& !has_open_slot(slot_child(t, p, i), id, direction)
            },
    decreases t,
{
    match t {
        Tree::Leaf(_) => {
            lemma_leaf_has_no_open_slot(t, id, direction);
        },
        Tree::Branch(axis, s, ds) => {
            assert(leaves(t) == leaves_of(s));
            lemma_first_child(s, id);
            let c = first_child(s, id);
            if c < 0 {
                lemma_absent_has_no_open_slot(t, id, direction);
            } else {
                lemma_child_no_duplicates(s, c);
                law_group_slot(s[c].1, id, direction);
                lemma_open_slot_split(axis, s, ds, id, direction, c);
                if s[c].1 is Leaf {
                    lemma_leaf_has_no_open_slot(s[c].1, id, direction);
                }
                let e = Seq::<int>::empty();
                let inner = match s[c].1 {
                    Tree::Branch(..) => group_tree(s[c].1, id, direction),
                    Tree::Leaf(_) => None,
                };
                if let Some(g) = inner {
                    let (p, i) = choose|p: Seq<int>, i: int|
                        {
                            &&& #[trigger] open_slot_at(s[c].1, p, i, id, direction)
                            &&& g == leaves(next_child(s[c].1, p, i, direction))
                            &&& !has_open_slot(slot_child(s[c].1, p, i), id, direction)
                        };
                    assert(open_slot_at(t, seq![c] + p, i, id, direction));
                    assert(next_child(t, seq![c] + p, i, direction) == next_child(s[c].1, p, i, direction));
                    assert(slot_child(t, seq![c] + p, i) == slot_child(s[c].1, p, i));
                } else if axis == direction.spec_axis() && 0 <= next_slot(c, direction) < s.len() {
                    assert(open_slot_at(t, e, c, id, direction));
                    assert(next_child(t, e, c, direction) == s[next_slot(c, direction)].1);
                    assert(slot_child(t, e, c) == s[c].1);
                }
            }
        },
    }
}

/// A pane that counts toward a split being shown: it is shown, or it is being moved (a
/// collapsed or temporarily replaced pane counts).
pub open spec fn counted_pane(hidden: Seq<HiddenPane>, id: PaneId) -> bool {
    leaf_shown(hidden, id) || hidden_for(hidden, id, HiddenPaneReason::FromMove)
}

proof fn lemma_in_some_child(s: Seq<(PaneFlex, Tree)>, x: PaneId)
    requires
        leaves_of(s).contains(x),
    ensures
        exists|j: int| 0 <= j < s.len() && #[trigger] leaves(s[j].1).contains(x),
{
    lemma_first_child(s, x);
    let c = first_child(s, x);
    assert(leaves(s[c].1).contains(x));
}

/// A node shows a pane exactly when one of its panes is shown, and holds a pane being
/// moved exactly when one of its panes is being moved.
pub proof fn lemma_visible_and_moving(t: Tree, hidden: Seq<HiddenPane>)
    ensures
        has_visible(t, hidden) == exists|x: PaneId| #[trigger] leaves(t).contains(x) && leaf_shown(hidden, x),
        has_moving(t, hidden) == exists|x: PaneId|
            #[trigger] leaves(t).contains(x) && hidden_for(hidden, x, HiddenPaneReason::FromMove),
    decreases t, 0int,
{
    match t {
        Tree::Leaf(id) => {
            assert(leaves(t)[0] == id);
            assert(leaves(t).contains(id));
            assert forall|x: PaneId| #[trigger] leaves(t).contains(x) implies x == id by {
                let k = choose|k: int| 0 <= k < leaves(t).len() && leaves(t)[k] == x;
            }
        },
        Tree::Branch(_, s, _) => {
            assert(leaves(t) == leaves_of(s));
            lemma_visible_and_moving_from(s, hidden, 0);
            if exists|x: PaneId| #[trigger] leaves(t).contains(x) && leaf_shown(hidden, x) {
                let x = choose|x: PaneId| #[trigger] leaves(t).contains(x) && leaf_shown(hidden, x);
                lemma_in_some_child(s, x);
                let j = choose|j: int| 0 <= j < s.len() && #[trigger] leaves(s[j].1).contains(x);
                assert(has_visible(s[j].1, hidden));
            }
            if exists|x: PaneId|
                #[trigger] leaves(t).contains(x) && hidden_for(hidden, x, HiddenPaneReason::FromMove) {
                let x = choose|x: PaneId|
                    #[trigger] leaves(t).contains(x) && hidden_for(hidden, x, HiddenPaneReason::FromMove);
                lemma_in_some_child(s, x);
                let j = choose|j: int| 0 <= j < s.len() && #[trigger] leaves(s[j].1).contains(x);
                assert(has_moving(s[j].1, hidden));
            }
            if has_visible(t, hidden) {
                let j = choose|j: int| 0 <= j < s.len() && #[trigger] has_visible(s[j].1, hidden);
                lemma_visible_and_moving(s[j].1, hidden);
                let x = choose|x: PaneId| #[trigger] leaves(s[j].1).contains(x) && leaf_shown(hidden, x);
                lemma_child_leaves_within(s, j, x);
            }
            if has_moving(t, hidden) {
                let j = choose|j: int| 0 <= j < s.len() && #[trigger] has_moving(s[j].1, hidden);
                lemma_visible_and_moving(s[j].1, hidden);
                let x = choose|x: PaneId|
                    #[trigger] leaves(s[j].1).contains(x) && hidden_for(hidden, x, HiddenPaneReason::FromMove);
                lemma_child_leaves_within(s, j, x);
            }
        },
    }
}

proof fn lemma_visible_and_moving_from(s: Seq<(PaneFlex, Tree)>, hidden: Seq<HiddenPane>, i: int)
    requires
        0 <= i,
    ensures
        any_visible_from(s, hidden, i) == exists|j: int|
            i <= j < s.len() && #[trigger] has_visible(s[j].1, hidden),
        any_moving_from(s, hidden, i) == exists|j: int|
            i <= j < s.len() && #[trigger] has_moving(s[j].1, hidden),
        forall|j: int| i <= j < s.len() ==> (has_visible(#[trigger] s[j].1, hidden) == exists|x: PaneId|
            #[trigger] leaves(s[j].1).contains(x) && leaf_shown(hidden, x)),
        forall|j: int| i <= j < s.len() ==> (has_moving(#[trigger] s[j].1, hidden) == exists|x: PaneId|
            #[trigger] leaves(s[j].1).contains(x) && hidden_for(hidden, x, HiddenPaneReason::FromMove)),
    decreases s, s.len() - i,
{
    if i < s.len() {
        lemma_visible_and_moving(s[i].1, hidden);
        lemma_visible_and_moving_from(s, hidden, i + 1);
    }
}

/// A node takes part in the layout exactly when one of its panes counts.
pub proof fn law_takes_part(t: Tree, hidden: Seq<HiddenPane>)
    ensures
        takes_part(t, hidden) == exists|x: PaneId| #[trigger] leaves(t).contains(x) && counted_pane(hidden, x),
{
    lemma_visible_and_moving(t, hidden);
    if exists|x: PaneId| #[trigger] leaves(t).contains(x) && counted_pane(hidden, x) {
        let x = choose|x: PaneId| #[trigger] leaves(t).contains(x) && counted_pane(hidden, x);
        assert(leaves(t).contains(x));
    }
}

/// The node at `p` in `t` is a left/right branch with more than one node taking part.
pub open spec fn shown_split_at(t: Tree, p: Seq<int>, hidden: Seq<HiddenPane>) -> bool {
    &&& node_at(t, p) is Some
    &&& node_at(t, p)->0 is Branch
    &&& node_at(t, p)->0->Branch_0 == SplitDirection::Horizontal
    &&& count_taking_part(node_at(t, p)->0->Branch_1, hidden, 0) > 1
}

proof fn lemma_count_some(s: Seq<(PaneFlex, Tree)>, hidden: Seq<HiddenPane>, i: int)
    requires
        0 <= i,
        count_taking_part(s, hidden, i) > 0,
    ensures
        exists|j: int| i <= j < s.len() && #[trigger] takes_part(s[j].1, hidden),
    decreases s.len() - i,
{
    if i < s.len() && !takes_part(s[i].1, hidden) {
        lemma_count_some(s, hidden, i + 1);
    }
}

proof fn lemma_any_split_from(s: Seq<(PaneFlex, Tree)>, hidden: Seq<HiddenPane>, i: int)
    requires
        0 <= i,
    ensures
        any_split_from(s, hidden, i) == exists|j: int|
            i <= j < s.len() && #[trigger] takes_part(s[j].1, hidden) && horizontal_split(s[j].1, hidden),
    decreases s.len() - i,
{
    if i < s.len() {
        lemma_any_split_from(s, hidden, i + 1);
    }
}

/// The layout shows a left/right split exactly when some branch in it runs left to right
/// with more than one node taking part (a node takes part when one of its panes counts:
/// see [`law_takes_part`]).
pub proof fn law_horizontal_split(t: Tree, hidden: Seq<HiddenPane>)
    ensures
        horizontal_split(t, hidden) == exists|p: Seq<int>| #[trigger] shown_split_at(t, p, hidden),
    decreases t,
{
    let e = Seq::<int>::empty();
    assert(node_at(t, e) == Some(t));
    if let Tree::Branch(axis, s, ds) = t {
        lemma_any_split_from(s, hidden, 0);
        if axis == SplitDirection::Horizontal && count_taking_part(s, hidden, 0) > 1 {
            assert(shown_split_at(t, e, hidden));
        }
        if any_split_from(s, hidden, 0) {
            let j = choose|j: int|
                0 <= j < s.len() && #[trigger] takes_part(s[j].1, hidden) && horizontal_split(s[j].1, hidden);
            law_horizontal_split(s[j].1, hidden);
            let p = choose|p: Seq<int>| #[trigger] shown_split_at(s[j].1, p, hidden);
            lemma_node_at_child(axis, s, ds, j, p);
            assert(shown_split_at(t, seq![j] + p, hidden));
        }
        if exists|p: Seq<int>| #[trigger] shown_split_at(t, p, hidden) {
            let p = choose|p: Seq<int>| #[trigger] shown_split_at(t, p, hidden);
            if p.len() > 0 {
                let j = p[0];
                let rest = p.drop_first();
                assert(p =~= seq![j] + rest);
                lemma_node_at_child(axis, s, ds, j, rest);
                assert(shown_split_at(s[j].1, rest, hidden));
                law_horizontal_split(s[j].1, hidden);
                // Some pane of the split counts, and it is a pane of child `j`.
                let b = node_at(s[j].1, rest)->0;
                lemma_count_some(b->Branch_1, hidden, 0);
                let k = choose|k: int| 0 <= k < b->Branch_1.len() && #[trigger] takes_part(
                    b->Branch_1[k].1,
                    hidden,
                );
                law_takes_part(b->Branch_1[k].1, hidden);
                let x = choose|x: PaneId| #[trigger] leaves(b->Branch_1[k].1).contains(x) && counted_pane(hidden, x);
                lemma_child_leaves_within(b->Branch_1, k, x);
                assert(leaves(b) == leaves_of(b->Branch_1));
                lemma_node_at_leaves(s[j].1, rest, x);
                law_takes_part(s[j].1, hidden);
                assert(takes_part(s[j].1, hidden));
            }
        }
    } else {
        assert forall|p: Seq<int>| !#[trigger] shown_split_at(t, p, hidden) by {
            if p.len() > 0 {
                assert(node_at(t, p) is None);
            }
        }
    }
}

/// The node at `p` in `t` is a branch along `axis` whose slot `i` holds pane `pane`.
pub open spec fn along_slot_at(t: Tree, p: Seq<int>, i: int, pane: PaneId, axis: SplitDirection) -> bool {
    &&& node_at(t, p) is Some
    &&& node_at(t, p)->0 is Branch
    &&& node_at(t, p)->0->Branch_0 == axis
    &&& 0 <= i < node_at(t, p)->0->Branch_1.len()
    &&& leaves(node_at(t, p)->0->Branch_1[i].1).contains(pane)
}

/// Some branch along `axis` lies on the way down to pane `pane`.
pub open spec fn has_along_slot(t: Tree, pane: PaneId, axis: SplitDirection) -> bool {
    exists|p: Seq<int>, i: int| #[trigger] along_slot_at(t, p, i, pane, axis)
}

/// The divider a keyboard resize of the node in slot `i` of a branch acts on (see
/// `law_keyboard_resize_target`), as a list of at most one id.
pub open spec fn keyboard_divider(s: Seq<(PaneFlex, Tree)>, ds: Seq<Divider>, hidden: Seq<HiddenPane>, i: int) -> Seq<u64> {
    let k = if next_resizable(s, hidden, i) is Some {
        Some(i)
    } else {
        prev_resizable(s, hidden, i)
    };
    match k {
        Some(k) => seq![ds[k].id],
        None => Seq::empty(),
    }
}

proof fn lemma_along_slot_split(
    a: SplitDirection,
    s: Seq<(PaneFlex, Tree)>,
    ds: Seq<Divider>,
    pane: PaneId,
    axis: SplitDirection,
    c: int,
)
    requires
        0 <= c < s.len(),
        leaves_of(s).no_duplicates(),
        leaves(s[c].1).contains(pane),
    ensures
        has_along_slot(Tree::Branch(a, s, ds), pane, axis) == (a == axis || has_along_slot(
            s[c].1,
            pane,
            axis,
        )),
        a == axis ==> along_slot_at(Tree::Branch(a, s, ds), Seq::empty(), c, pane, axis),
        forall|p: Seq<int>, i: int|
            #[trigger] along_slot_at(s[c].1, p, i, pane, axis) ==> along_slot_at(
                Tree::Branch(a, s, ds),
                seq![c] + p,
                i,
                pane,
                axis,
            ) && node_at(Tree::Branch(a, s, ds), seq![c] + p) == node_at(s[c].1, p),
{
    let t = Tree::Branch(a, s, ds);
    let e = Seq::<int>::empty();
    assert(node_at(t, e) == Some(t));
    assert forall|p: Seq<int>, i: int| #[trigger] along_slot_at(s[c].1, p, i, pane, axis) implies along_slot_at(
        t,
        seq![c] + p,
        i,
        pane,
        axis,
    ) && node_at(t, seq![c] + p) == node_at(s[c].1, p) by {
        lemma_node_at_child(a, s, ds, c, p);
    }
    if a == axis {
        assert(along_slot_at(t, e, c, pane, axis));
    }
    if has_along_slot(s[c].1, pane, axis) {
        let (p, i) = choose|p: Seq<int>, i: int| #[trigger] along_slot_at(s[c].1, p, i, pane, axis);
        assert(along_slot_at(t, seq![c] + p, i, pane, axis));
    }
    if has_along_slot(t, pane, axis) {
        let (p, i) = choose|p: Seq<int>, i: int| #[trigger] along_slot_at(t, p, i, pane, axis);
        if p.len() > 0 {
            let c2 = p[0];
            let rest = p.drop_first();
            assert(p =~= seq![c2] + rest);
            lemma_node_at_child(a, s, ds, c2, rest);
            let b = node_at(t, p)->0;
            lemma_child_leaves_within(b->Branch_1, i, pane);
            assert(leaves(b) == leaves_of(b->Branch_1));
            lemma_node_at_leaves(s[c2].1, rest, pane);
            if c2 != c {
                lemma_children_disjoint(s, c, c2, pane);
            }
            assert(along_slot_at(s[c].1, rest, i, pane, axis));
        }
    }
}

proof fn lemma_absent_has_no_along_slot(t: Tree, pane: PaneId, axis: SplitDirection)
    requires
        !leaves(t).contains(pane),
    ensures
        !has_along_slot(t, pane, axis),
{
    assert forall|p: Seq<int>, i: int| !#[trigger] along_slot_at(t, p, i, pane, axis) by {
        if along_slot_at(t, p, i, pane, axis) {
            let b = node_at(t, p)->0;
            lemma_child_leaves_within(b->Branch_1, i, pane);
            assert(leaves(b) == leaves_of(b->Branch_1));
            lemma_node_at_leaves(t, p, pane);
        }
    }
}

/// A keyboard resize of pane `pane` along `axis`, where no pane occurs twice: it is left to
/// the layout around the tree exactly when the pane is in the tree and no branch along
/// `axis` lies on the way down to it. Otherwise it acts on the divider that
/// `law_keyboard_resize_target` picks in the innermost such branch, for the slot holding
/// the pane, and on no other; a tree without the pane gives nothing.
pub proof fn law_keyboard_resize_dividers(t: Tree, pane: PaneId, axis: SplitDirection, hidden: Seq<HiddenPane>)
    requires
        leaves(t).no_duplicates(),
    ensures
        key_resize(t, pane, axis, hidden).0 == (leaves(t).contains(pane) && !has_along_slot(
            t,
            pane,
            axis,
        )),
        !has_along_slot(t, pane, axis) ==> key_resize(t, pane, axis, hidden).1 == Seq::<u64>::empty(),
        has_along_slot(t, pane, axis) ==> exists|p: Seq<int>, i: int|
            {
                &&& #[trigger] along_slot_at(t, p, i, pane, axis)
                &&& !has_along_slot(slot_child(t, p, i), pane, axis)
                &&& key_resize(t, pane, axis, hidden).1 == keyboard_divider(
                    node_at(t, p)->0->Branch_1,
                    node_at(t, p)->0->Branch_2,
                    hidden,
                    i,
                )
            },
    decreases t,
{
    match t {
        Tree::Leaf(id) => {
            assert(leaves(t)[0] == id);
            assert forall|p: Seq<int>, i: int| !#[trigger] along_slot_at(t, p, i, pane, axis) by {
                if p.len() > 0 {
                    assert(node_at(t, p) is None);
                }
            }
            if id == pane {
                assert(leaves(t).contains(pane));
            } else {
                assert(!leaves(t).contains(pane)) by {
                    if leaves(t).contains(pane) {
                        let k = choose|k: int| 0 <= k < leaves(t).len() && leaves(t)[k] == pane;
                    }
                }
            }
        },
        Tree::Branch(a, s, ds) => {
            assert(leaves(t) == leaves_of(s));
            lemma_first_child(s, pane);
            let c = first_child(s, pane);
            if c < 0 {
                lemma_absent_has_no_along_slot(t, pane, axis);
                lemma_key_resize_absent_tree(t, pane, axis, hidden);
            } else {
                lemma_child_no_duplicates(s, c);
                law_keyboard_resize_dividers(s[c].1, pane, axis, hidden);
                lemma_along_slot_split(a, s, ds, pane, axis, c);
                lemma_key_resize_skip(a, s, ds, pane, axis, hidden, 0, c);
                assert forall|j: int| c < j < s.len() implies !leaves(#[trigger] s[j].1).contains(pane) by {
                    if leaves(s[j].1).contains(pane) {
                        lemma_children_disjoint(s, c, j, pane);
                    }
                }
                lemma_key_resize_absent(a, s, ds, pane, axis, hidden, c + 1);
                let child = key_resize(s[c].1, pane, axis, hidden);
                let rest = key_resize_from(a, s, ds, pane, axis, hidden, c + 1);
                assert(child.1 + Seq::<u64>::empty() =~= child.1);
                assert(Seq::<u64>::empty() + keyboard_divider(s, ds, hidden, c) =~= keyboard_divider(s, ds, hidden, c));
                let e = Seq::<int>::empty();
                if has_along_slot(s[c].1, pane, axis) {
                    let (p, i) = choose|p: Seq<int>, i: int|
                        {
                            &&& #[trigger] along_slot_at(s[c].1, p, i, pane, axis)
                            &&& !has_along_slot(slot_child(s[c].1, p, i), pane, axis)
                            &&& child.1 == keyboard_divider(
                                node_at(s[c].1, p)->0->Branch_1,
                                node_at(s[c].1, p)->0->Branch_2,
                                hidden,
                                i,
                            )
                        };
                    assert(along_slot_at(t, seq![c] + p, i, pane, axis));
                    assert(slot_child(t, seq![c] + p, i) == slot_child(s[c].1, p, i));
                } else if a == axis {
                    assert(along_slot_at(t, e, c, pane, axis));
                    assert(slot_child(t, e, c) == s[c].1);
                }
            }
        },
    }
}

/// No slot from `i` on holds the pane: the resize finds nothing there.
proof fn lemma_key_resize_absent(
    a: SplitDirection,
    s: Seq<(PaneFlex, Tree)>,
    ds: Seq<Divider>,
    pane: PaneId,
    axis: SplitDirection,
    hidden: Seq<HiddenPane>,
    i: int,
)
    requires
        0 <= i,
        forall|j: int| i <= j < s.len() ==> !leaves(#[trigger] s[j].1).contains(pane),
    ensures
        key_resize_from(a, s, ds, pane, axis, hidden, i) == (false, Seq::<u64>::empty()),
    decreases s, s.len() - i,
{
    if i < s.len() {
        lemma_key_resize_absent_tree(s[i].1, pane, axis, hidden);
        lemma_key_resize_absent(a, s, ds, pane, axis, hidden, i + 1);
        assert(Seq::<u64>::empty() + Seq::<u64>::empty() =~= Seq::<u64>::empty());
    }
}

proof fn lemma_key_resize_absent_tree(t: Tree, pane: PaneId, axis: SplitDirection, hidden: Seq<HiddenPane>)
    requires
        !leaves(t).contains(pane),
    ensures
        key_resize(t, pane, axis, hidden) == (false, Seq::<u64>::empty()),
    decreases t, 0int,
{
    match t {
        Tree::Leaf(id) => {
            assert(leaves(t)[0] == id);
        },
        Tree::Branch(a, s, ds) => {
            assert(leaves(t) == leaves_of(s));
            assert forall|j: int| 0 <= j < s.len() implies !leaves(#[trigger] s[j].1).contains(pane) by {
                if leaves(s[j].1).contains(pane) {
                    lemma_child_leaves_within(s, j, pane);
                }
            }
            lemma_key_resize_absent(a, s, ds, pane, axis, hidden, 0);
        },
    }
}

/// The resize passes over the slots before the one holding the pane.
proof fn lemma_key_resize_skip(
    a: SplitDirection,
    s: Seq<(PaneFlex, Tree)>,
    ds: Seq<Divider>,
    pane: PaneId,
    axis: SplitDirection,
    hidden: Seq<HiddenPane>,
    i: int,
    c: int,
)
    requires
        0 <= i <= c < s.len(),
        forall|j: int| 0 <= j < c ==> !leaves(#[trigger] s[j].1).contains(pane),
    ensures
        key_resize_from(a, s, ds, pane, axis, hidden, i) == key_resize_from(a, s, ds, pane, axis, hidden, c),
    decreases c - i,
{
    if i < c {
        lemma_key_resize_absent_tree(s[i].1, pane, axis, hidden);
        lemma_key_resize_skip(a, s, ds, pane, axis, hidden, i + 1, c);
        let r = key_resize_from(a, s, ds, pane, axis, hidden, i + 1);
        assert(Seq::<u64>::empty() + r.1 =~= r.1);
    }
}

} // verus!
