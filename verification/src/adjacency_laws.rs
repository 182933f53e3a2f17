use vstd::prelude::*;

use crate::direction::{Direction, SplitDirection};
use crate::laws::lemma_child_leaves_within;
use crate::tree::{
    first_child, first_panes, first_panes_from, group_tree, leaves, lookup_from, lookup_tree,
    sibling_from, sibling_tree, Lookup, leaves_of, lemma_first_child, lemma_leaves_of_concat,
    lemma_leaves_of_split, wf_tree, PaneFlex, PaneId, Tree,
};

verus! {

/// Where the panes of child `i` sit among the panes of its siblings.
pub proof fn lemma_child_offset(s: Seq<(PaneFlex, Tree)>, i: int)
    requires
        0 <= i < s.len(),
    ensures
        ({
            let o = leaves_of(s.take(i)).len();
            let c = leaves(s[i].1);
            &&& o + c.len() <= leaves_of(s).len()
            &&& leaves_of(s).subrange(o as int, (o + c.len()) as int) == c
            &&& leaves_of(s.take(i + 1)).len() == o + c.len()
        }),
{
    lemma_leaves_of_split(s, i);
    let a = leaves_of(s.take(i));
    let c = leaves(s[i].1);
    let b = leaves_of(s.skip(i + 1));
    assert((a + c + b).subrange(a.len() as int, (a.len() + c.len()) as int) =~= c);
}

/// A well-formed tree has a pane.
pub proof fn lemma_leaves_nonempty(t: Tree)
    requires
        wf_tree(t),
    ensures
        leaves(t).len() > 0,
    decreases t,
{
    match t {
        Tree::Leaf(_) => {},
        Tree::Branch(_, s, _) => {
            lemma_leaves_nonempty(s[0].1);
            lemma_child_offset(s, 0);
        },
    }
}

/// `g` stands as one unbroken run somewhere in `l`.
pub open spec fn occurs_as_run(l: Seq<PaneId>, g: Seq<PaneId>) -> bool {
    exists|a: int| 0 <= a && a + g.len() <= l.len() && #[trigger] l.subrange(a, a + g.len()) == g
}

proof fn lemma_run_at(l: Seq<PaneId>, g: Seq<PaneId>, a: int)
    requires
        0 <= a,
        a + g.len() <= l.len(),
        l.subrange(a, a + g.len()) == g,
    ensures
        occurs_as_run(l, g),
{
}

/// The group of panes that collapsing `id` toward `direction` would rail is never empty and
/// stands as one unbroken run in the layout's pane order.
pub proof fn law_group_is_contiguous(t: Tree, id: PaneId, direction: Direction)
    requires
        wf_tree(t),
    ensures
        group_tree(t, id, direction) matches Some(g) ==> g.len() > 0 && occurs_as_run(leaves(t), g),
    decreases t,
{
    match t {
        Tree::Leaf(_) => {},
        Tree::Branch(axis, s, _) => {
            assert(leaves(t) == leaves_of(s));
            lemma_first_child(s, id);
            let i = first_child(s, id);
            if i >= 0 {
                let inner = match s[i].1 {
                    Tree::Branch(..) => group_tree(s[i].1, id, direction),
                    Tree::Leaf(_) => None,
                };
                if inner is Some {
                    let g = inner->0;
                    law_group_is_contiguous(s[i].1, id, direction);
                    let c = leaves(s[i].1);
                    let a = choose|a: int|
                        0 <= a && a + g.len() <= c.len() && #[trigger] c.subrange(a, a + g.len())
                            == g;
                    lemma_child_offset(s, i);
                    let o = leaves_of(s.take(i)).len() as int;
                    assert(leaves(t).subrange(o, o + c.len()) == c);
                    assert(leaves(t).subrange(o + a, o + a + g.len()) =~= g);
                    lemma_run_at(leaves(t), g, o + a);
                } else if direction.spec_axis() == axis {
                    if direction.is_leading() {
                        if i > 0 {
                            let g = leaves(s[i - 1].1);
                            lemma_leaves_nonempty(s[i - 1].1);
                            lemma_child_offset(s, i - 1);
                            let o = leaves_of(s.take(i - 1)).len() as int;
                            lemma_run_at(leaves(t), g, o);
                        }
                    } else {
                        if i + 1 < s.len() {
                            let g = leaves(s[i + 1].1);
                            lemma_leaves_nonempty(s[i + 1].1);
                            lemma_child_offset(s, i + 1);
                            let o = leaves_of(s.take(i + 1)).len() as int;
                            lemma_run_at(leaves(t), g, o);
                        }
                    }
                }
            }
        },
    }
}

/// Pane `id` and pane `q` stand side by side at position `k` of the pane order `l`, `q`
/// first when `direction` points to the start (left, up), `id` first otherwise.
pub open spec fn side_by_side(l: Seq<PaneId>, k: int, id: PaneId, q: PaneId, direction: Direction) -> bool {
    &&& 0 <= k
    &&& k + 1 < l.len()
    &&& if direction.is_leading() {
        l[k] == q && l[k + 1] == id
    } else {
        l[k] == id && l[k + 1] == q
    }
}

/// A pane's direct sibling in a direction is its neighbor in the layout's pane order, on
/// that side; a pane that is not in the layout has none.
pub proof fn law_sibling_is_adjacent(t: Tree, id: PaneId, direction: Direction)
    ensures
        sibling_tree(t, id, direction) matches Some(q) ==> exists|k: int|
            side_by_side(leaves(t), k, id, q, direction),
        !leaves(t).contains(id) ==> sibling_tree(t, id, direction) is None,
        leaves(t).no_duplicates() ==> sibling_tree(t, id, direction) != Some(id),
    decreases t, 0int,
{
    lemma_sibling_is_adjacent(t, id, direction);
    if let Some(q) = sibling_tree(t, id, direction) {
        let l = leaves(t);
        let k = choose|k: int| side_by_side(l, k, id, q, direction);
        if direction.is_leading() {
            assert(l[k + 1] == id);
        } else {
            assert(l[k] == id);
        }
    }
}

proof fn lemma_sibling_is_adjacent(t: Tree, id: PaneId, direction: Direction)
    ensures
        sibling_tree(t, id, direction) matches Some(q) ==> exists|k: int|
            side_by_side(leaves(t), k, id, q, direction),
    decreases t, 0int,
{
    match t {
        Tree::Leaf(_) => {
            assert(sibling_tree(t, id, direction) is None);
        },
        Tree::Branch(axis, s, _) => {
            lemma_sibling_from_adjacent(axis, s, id, direction, 0);
            assert(leaves(t) == leaves_of(s));
        },
    }
}

proof fn lemma_sibling_from_adjacent(
    axis: SplitDirection,
    s: Seq<(PaneFlex, Tree)>,
    id: PaneId,
    direction: Direction,
    i: int,
)
    requires
        0 <= i,
    ensures
        sibling_from(axis, s, id, direction, i) matches Some(q) ==> exists|k: int|
            side_by_side(leaves_of(s), k, id, q, direction),
    decreases s, s.len() - i,
{
    if i < s.len() {
        let r = sibling_from(axis, s, id, direction, i);
        match s[i].1 {
            Tree::Branch(..) => {
                match sibling_tree(s[i].1, id, direction) {
                    Some(q) => {
                        lemma_sibling_is_adjacent(s[i].1, id, direction);
                        let c = leaves(s[i].1);
                        let k = choose|k: int| side_by_side(c, k, id, q, direction);
                        lemma_child_offset(s, i);
                        let o = leaves_of(s.take(i)).len() as int;
                        let l = leaves_of(s);
                        assert(l.subrange(o, o + c.len()) == c);
                        assert(l[o + k] == c[k]);
                        assert(l[o + k + 1] == c[k + 1]);
                        assert(side_by_side(l, o + k, id, q, direction));
                    },
                    None => {
                        lemma_sibling_from_adjacent(axis, s, id, direction, i + 1);
                    },
                }
            },
            Tree::Leaf(p) => {
                if direction.spec_axis() == axis && p == id {
                    if let Some(q) = r {
                        let l = leaves_of(s);
                        if direction.is_leading() {
                            lemma_child_offset(s, i - 1);
                            lemma_child_offset(s, i);
                            let o = leaves_of(s.take(i - 1)).len() as int;
                            assert(leaves(s[i - 1].1) == seq![q]);
                            assert(leaves(s[i].1) == seq![id]);
                            assert(l.subrange(o, o + 1) == seq![q]);
                            assert(l.subrange(o + 1, o + 2) == seq![id]);
                            assert(l.subrange(o, o + 1)[0] == l[o]);
                            assert(l.subrange(o + 1, o + 2)[0] == l[o + 1]);
                            assert(l[o] == q);
                            assert(l[o + 1] == id);
                            assert(side_by_side(l, o, id, q, direction));
                        } else {
                            lemma_child_offset(s, i);
                            lemma_child_offset(s, i + 1);
                            let o = leaves_of(s.take(i)).len() as int;
                            assert(leaves(s[i + 1].1) == seq![q]);
                            assert(leaves(s[i].1) == seq![id]);
                            assert(l.subrange(o, o + 1) == seq![id]);
                            assert(l.subrange(o + 1, o + 2) == seq![q]);
                            assert(l.subrange(o, o + 1)[0] == l[o]);
                            assert(l.subrange(o + 1, o + 2)[0] == l[o + 1]);
                            assert(l[o] == id);
                            assert(l[o + 1] == q);
                            assert(side_by_side(l, o, id, q, direction));
                        }
                    }
                } else {
                    lemma_sibling_from_adjacent(axis, s, id, direction, i + 1);
                }
            },
        }
    }
}

/// The panes at a tree's edge facing away from `direction` are some of its panes, and
/// there is at least one.
pub proof fn lemma_first_panes_within(t: Tree, direction: Direction)
    requires
        wf_tree(t),
    ensures
        first_panes(t, direction).subset_of(leaves(t).to_set()),
        exists|p: PaneId| #[trigger] first_panes(t, direction).contains(p),
    decreases t, 0int,
{
    match t {
        Tree::Leaf(id) => {
            assert(first_panes(t, direction) == set![id]);
            assert(first_panes(t, direction).contains(id));
            assert(leaves(t)[0] == id);
        },
        Tree::Branch(axis, s, _) => {
            if direction.spec_axis() == axis {
                let j = if direction.is_leading() {
                    s.len() - 1
                } else {
                    0
                };
                lemma_first_panes_within(s[j].1, direction);
                let w = choose|p: PaneId| #[trigger] first_panes(s[j].1, direction).contains(p);
                assert(first_panes(t, direction).contains(w));
                assert forall|p: PaneId| first_panes(t, direction).contains(p) implies leaves(
                    t,
                ).to_set().contains(p) by {
                    assert(leaves(s[j].1).contains(p));
                    lemma_child_leaves_within(s, j, p);
                }
            } else {
                lemma_first_panes_from_within(s, direction, 0);
                let w = choose|p: PaneId| #[trigger] first_panes_from(s, direction, 0).contains(p);
                assert(first_panes(t, direction).contains(w));
            }
        },
    }
}

proof fn lemma_first_panes_from_within(s: Seq<(PaneFlex, Tree)>, direction: Direction, i: int)
    requires
        0 <= i,
        forall|j: int| 0 <= j < s.len() ==> wf_tree(#[trigger] s[j].1),
    ensures
        first_panes_from(s, direction, i).subset_of(leaves_of(s).to_set()),
        i < s.len() ==> exists|p: PaneId| #[trigger] first_panes_from(s, direction, i).contains(p),
    decreases s, s.len() - i,
{
    if i < s.len() {
        lemma_first_panes_within(s[i].1, direction);
        lemma_first_panes_from_within(s, direction, i + 1);
        let w = choose|p: PaneId| #[trigger] first_panes(s[i].1, direction).contains(p);
        assert(first_panes_from(s, direction, i).contains(w));
        assert forall|p: PaneId| first_panes_from(s, direction, i).contains(p) implies leaves_of(
            s,
        ).to_set().contains(p) by {
            if first_panes(s[i].1, direction).contains(p) {
                assert(leaves(s[i].1).contains(p));
                lemma_child_leaves_within(s, i, p);
            }
        }
    }
}

/// Where no pane occurs twice, a pane of one child is a pane of no other child.
pub proof fn lemma_children_disjoint(s: Seq<(PaneFlex, Tree)>, i: int, j: int, x: PaneId)
    requires
        0 <= i < s.len(),
        0 <= j < s.len(),
        i != j,
        leaves_of(s).no_duplicates(),
        leaves(s[i].1).contains(x),
    ensures
        !leaves(s[j].1).contains(x),
{
    if leaves(s[j].1).contains(x) {
        let (lo, hi) = if i < j {
            (i, j)
        } else {
            (j, i)
        };
        lemma_child_offset(s, lo);
        lemma_child_offset(s, hi);
        assert(s.take(hi) =~= s.take(lo + 1) + s.subrange(lo + 1, hi));
        lemma_leaves_of_concat(s.take(lo + 1), s.subrange(lo + 1, hi));
        let l = leaves_of(s);
        let olo = leaves_of(s.take(lo)).len() as int;
        let ohi = leaves_of(s.take(hi)).len() as int;
        let clo = leaves(s[lo].1);
        let chi = leaves(s[hi].1);
        let a = choose|a: int| 0 <= a < clo.len() && clo[a] == x;
        let b = choose|b: int| 0 <= b < chi.len() && chi[b] == x;
        assert(l.subrange(olo, olo + clo.len())[a] == l[olo + a]);
        assert(l.subrange(ohi, ohi + chi.len())[b] == l[ohi + b]);
        assert(olo + a < ohi + b);
    }
}

/// Where no pane occurs twice among siblings, none occurs twice within one of them.
pub proof fn lemma_child_no_duplicates(s: Seq<(PaneFlex, Tree)>, i: int)
    requires
        0 <= i < s.len(),
        leaves_of(s).no_duplicates(),
    ensures
        leaves(s[i].1).no_duplicates(),
{
    lemma_child_offset(s, i);
    let l = leaves_of(s);
    let o = leaves_of(s.take(i)).len() as int;
    let c = leaves(s[i].1);
    assert forall|a: int, b: int| 0 <= a < c.len() && 0 <= b < c.len() && a != b implies c[a]
        != c[b] by {
        assert(l.subrange(o, o + c.len())[a] == l[o + a]);
        assert(l.subrange(o, o + c.len())[b] == l[o + b]);
    }
}

/// Looking for the panes next to `id`: the pane is reported missing exactly when it is not
/// in the tree, and what is found is a non-empty set of the tree's panes, which leaves out
/// `id` itself where no pane occurs twice.
pub proof fn law_lookup(t: Tree, id: PaneId, direction: Direction)
    requires
        wf_tree(t),
    ensures
        (lookup_tree(t, id, direction) is NotFound) == !leaves(t).contains(id),
        lookup_tree(t, id, direction) matches Lookup::Found(x) ==> {
            &&& exists|p: PaneId| x.contains(p)
            &&& x.subset_of(leaves(t).to_set())
            &&& leaves(t).no_duplicates() ==> !x.contains(id)
        },
    decreases t, 0int,
{
    match t {
        Tree::Leaf(p) => {
            if p == id {
                assert(leaves(t)[0] == id);
            }
        },
        Tree::Branch(axis, s, _) => {
            lemma_lookup_from(axis, s, id, direction, 0);
            assert(leaves(t) == leaves_of(s));
            if leaves_of(s).contains(id) {
                lemma_first_child(s, id);
                let c = first_child(s, id);
                assert(leaves(s[c].1).contains(id));
            } else {
                assert forall|j: int| 0 <= j < s.len() implies !leaves(#[trigger] s[j].1).contains(
                    id,
                ) by {
                    if leaves(s[j].1).contains(id) {
                        lemma_child_leaves_within(s, j, id);
                    }
                }
            }
        },
    }
}

proof fn lemma_lookup_from(
    axis: SplitDirection,
    s: Seq<(PaneFlex, Tree)>,
    id: PaneId,
    direction: Direction,
    i: int,
)
    requires
        0 <= i,
        forall|j: int| 0 <= j < s.len() ==> wf_tree(#[trigger] s[j].1),
    ensures
        (lookup_from(axis, s, id, direction, i) is NotFound) == (forall|j: int|
            i <= j < s.len() ==> !leaves(#[trigger] s[j].1).contains(id)),
        lookup_from(axis, s, id, direction, i) matches Lookup::Found(x) ==> {
            &&& exists|p: PaneId| x.contains(p)
            &&& x.subset_of(leaves_of(s).to_set())
            &&& leaves_of(s).no_duplicates() ==> !x.contains(id)
        },
    decreases s, s.len() - i,
{
    if i < s.len() {
        law_lookup(s[i].1, id, direction);
        lemma_lookup_from(axis, s, id, direction, i + 1);
        if leaves_of(s).no_duplicates() {
            lemma_child_no_duplicates(s, i);
        }
        match lookup_tree(s[i].1, id, direction) {
            Lookup::Found(x) => {
                assert forall|p: PaneId| x.contains(p) implies leaves_of(s).to_set().contains(p) by {
                    assert(leaves(s[i].1).contains(p));
                    lemma_child_leaves_within(s, i, p);
                }
            },
            Lookup::Located => {
                if direction.spec_axis() == axis {
                    let j = if direction.is_leading() {
                        i - 1
                    } else {
                        i + 1
                    };
                    if 0 <= j < s.len() {
                        lemma_first_panes_within(s[j].1, direction);
                        assert forall|p: PaneId|
                            first_panes(s[j].1, direction).contains(p) implies leaves_of(
                            s,
                        ).to_set().contains(p) by {
                            assert(leaves(s[j].1).contains(p));
                            lemma_child_leaves_within(s, j, p);
                        }
                        if leaves_of(s).no_duplicates() && first_panes(s[j].1, direction).contains(id) {
                            assert(leaves(s[j].1).to_set().contains(id));
                            lemma_children_disjoint(s, i, j, id);
                        }
                    }
                }
            },
            Lookup::NotFound => {},
        }
    }
}

} // verus!
