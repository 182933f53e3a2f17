use vstd::prelude::*;

use crate::direction::{Direction, SplitDirection};

verus! {

/// Identifies a pane of a pane group.
#[derive(PartialEq, Eq, Clone, Copy, Debug, Hash, Structural)]
pub struct PaneId(pub u64);

/// The flex weight of a pane along its branch's axis, held as the IEEE-754 bit
/// pattern of the `f32` weight the renderer uses.
#[derive(PartialEq, Eq, Clone, Copy, Debug, Structural)]
pub struct PaneFlex(pub u32);

/// Bit pattern of the default flex weight, `1.0f32`.
pub const DEFAULT_FLEX_BITS: u32 = 0x3F80_0000u32;

/// A resize handle between two adjacent nodes of a branch.
#[derive(PartialEq, Eq, Clone, Copy, Debug, Structural)]
pub struct Divider {
    pub id: u64,
}

/// Single node in the tree of panes.
pub enum PaneNode {
    /// A collection of panes split in a specific direction.
    Branch(PaneBranch),
    /// A single pane.
    Leaf(PaneId),
}

pub struct PaneBranch {
    pub axis: SplitDirection,
    pub nodes: Vec<(PaneFlex, PaneNode)>,
    pub dividers: Vec<Divider>,
}

/// The abstract shape of a pane node: its panes, its splits with their
/// weights, and its dividers.
pub enum Tree {
    Leaf(PaneId),
    Branch(SplitDirection, Seq<(PaneFlex, Tree)>, Seq<Divider>),
}

/// The shape of an executable node.
pub open spec fn tree_of(n: PaneNode) -> Tree
    decreases n,
{
    match n {
        PaneNode::Leaf(id) => Tree::Leaf(id),
        PaneNode::Branch(b) => {
            proof { assert(decreases_to!(b.nodes => b.nodes@)); }
            Tree::Branch(b.axis, trees_of(b.nodes@), b.dividers@)
        },
    }
}

/// The shapes of a sequence of executable sibling nodes, with their weights.
pub open spec fn trees_of(s: Seq<(PaneFlex, PaneNode)>) -> Seq<(PaneFlex, Tree)>
    decreases s,
{
    Seq::new(
        s.len(),
        |i: int|
            if 0 <= i < s.len() {
                (s[i].0, tree_of(s[i].1))
            } else {
                arbitrary()
            },
    )
}

impl View for PaneNode {
    type V = Tree;

    open spec fn view(&self) -> Tree {
        tree_of(*self)
    }
}

impl View for PaneBranch {
    type V = Tree;

    open spec fn view(&self) -> Tree {
        Tree::Branch(self.axis, trees_of(self.nodes@), self.dividers@)
    }
}

/// The panes of a tree, left to right and top to bottom.
pub open spec fn leaves(t: Tree) -> Seq<PaneId>
    decreases t,
{
    match t {
        Tree::Leaf(id) => seq![id],
        Tree::Branch(_, s, _) => leaves_of(s),
    }
}

/// The panes of a sequence of sibling trees, in order.
pub open spec fn leaves_of(s: Seq<(PaneFlex, Tree)>) -> Seq<PaneId>
    decreases s,
{
    if s.len() == 0 {
        Seq::empty()
    } else {
        leaves_of(s.drop_last()) + leaves(s.last().1)
    }
}

pub proof fn lemma_trees_of_index(s: Seq<(PaneFlex, PaneNode)>, i: int)
    requires
        0 <= i < s.len(),
    ensures
        trees_of(s).len() == s.len(),
        trees_of(s)[i] == (s[i].0, tree_of(s[i].1)),
{
}


pub proof fn lemma_leaves_of_single(x: (PaneFlex, Tree))
    ensures
        leaves_of(seq![x]) == leaves(x.1),
{
    assert(seq![x].drop_last() =~= Seq::<(PaneFlex, Tree)>::empty());
    assert(leaves_of(Seq::<(PaneFlex, Tree)>::empty()) == Seq::<PaneId>::empty());
    assert(Seq::<PaneId>::empty() + leaves(x.1) =~= leaves(x.1));
}

pub proof fn lemma_leaves_of_concat(a: Seq<(PaneFlex, Tree)>, b: Seq<(PaneFlex, Tree)>)
    ensures
        leaves_of(a + b) == leaves_of(a) + leaves_of(b),
    decreases b.len(),
{
    if b.len() == 0 {
        assert(a + b =~= a);
        assert(leaves_of(a) + leaves_of(b) =~= leaves_of(a));
    } else {
        lemma_leaves_of_concat(a, b.drop_last());
        assert((a + b).drop_last() =~= a + b.drop_last());
        assert((a + b).last() == b.last());
        assert(leaves_of(a) + leaves_of(b.drop_last()) + leaves(b.last().1) =~= leaves_of(a) + (
        leaves_of(b.drop_last()) + leaves(b.last().1)));
    }
}

/// Splitting a sequence of siblings around index `i`.
pub proof fn lemma_leaves_of_split(s: Seq<(PaneFlex, Tree)>, i: int)
    requires
        0 <= i < s.len(),
    ensures
        leaves_of(s) == leaves_of(s.take(i)) + leaves(s[i].1) + leaves_of(s.skip(i + 1)),
        leaves_of(s.take(i + 1)) == leaves_of(s.take(i)) + leaves(s[i].1),
{
    assert(s =~= s.take(i) + seq![s[i]] + s.skip(i + 1));
    lemma_leaves_of_concat(s.take(i) + seq![s[i]], s.skip(i + 1));
    lemma_leaves_of_concat(s.take(i), seq![s[i]]);
    lemma_leaves_of_single(s[i]);
    assert(s.take(i + 1) =~= s.take(i) + seq![s[i]]);
}

pub proof fn lemma_contains_concat<A>(a: Seq<A>, b: Seq<A>, x: A)
    ensures
        (a + b).contains(x) == (a.contains(x) || b.contains(x)),
{
    if a.contains(x) {
        let k = choose|k: int| 0 <= k < a.len() && a[k] == x;
        assert((a + b)[k] == x);
    }
    if b.contains(x) {
        let k = choose|k: int| 0 <= k < b.len() && b[k] == x;
        assert((a + b)[a.len() + k] == x);
    }
    if (a + b).contains(x) {
        let k = choose|k: int| 0 <= k < (a + b).len() && (a + b)[k] == x;
        if k < a.len() {
            assert(a[k] == x);
        } else {
            assert(b[k - a.len()] == x);
        }
    }
}

pub proof fn lemma_leaves_of_update(s: Seq<(PaneFlex, Tree)>, i: int, x: (PaneFlex, Tree))
    requires
        0 <= i < s.len(),
    ensures
        leaves_of(s.update(i, x)) == leaves_of(s.take(i)) + leaves(x.1) + leaves_of(s.skip(i + 1)),
{
    let u = s.update(i, x);
    lemma_leaves_of_split(u, i);
    assert(u.take(i) =~= s.take(i));
    assert(u.skip(i + 1) =~= s.skip(i + 1));
}

pub proof fn lemma_leaves_of_insert(s: Seq<(PaneFlex, Tree)>, i: int, x: (PaneFlex, Tree))
    requires
        0 <= i <= s.len(),
    ensures
        leaves_of(s.insert(i, x)) == leaves_of(s.take(i)) + leaves(x.1) + leaves_of(s.skip(i)),
        leaves_of(s) == leaves_of(s.take(i)) + leaves_of(s.skip(i)),
{
    let u = s.insert(i, x);
    lemma_leaves_of_split(u, i);
    assert(u.take(i) =~= s.take(i));
    assert(u.skip(i + 1) =~= s.skip(i));
    assert(s =~= s.take(i) + s.skip(i));
    lemma_leaves_of_concat(s.take(i), s.skip(i));
}

pub proof fn lemma_leaves_of_remove(s: Seq<(PaneFlex, Tree)>, i: int)
    requires
        0 <= i < s.len(),
    ensures
        leaves_of(s.remove(i)) == leaves_of(s.take(i)) + leaves_of(s.skip(i + 1)),
{
    assert(s.remove(i) =~= s.take(i) + s.skip(i + 1));
    lemma_leaves_of_concat(s.take(i), s.skip(i + 1));
}

pub proof fn lemma_insert_in_middle<A>(a: Seq<A>, c: Seq<A>, b: Seq<A>, k: int, x: A)
    requires
        0 <= k <= c.len(),
    ensures
        a + c.insert(k, x) + b == (a + c + b).insert(a.len() + k, x),
{
    assert(a + c.insert(k, x) + b =~= (a + c + b).insert(a.len() + k, x));
}

pub proof fn lemma_remove_in_middle<A>(a: Seq<A>, c: Seq<A>, b: Seq<A>, k: int)
    requires
        0 <= k < c.len(),
    ensures
        a + c.remove(k) + b == (a + c + b).remove(a.len() + k),
{
    assert(a + c.remove(k) + b =~= (a + c + b).remove(a.len() + k));
}

/// The position of the first occurrence of `x` in `s` (its length when absent).
pub open spec fn first_index(s: Seq<PaneId>, x: PaneId) -> int
    decreases s.len(),
{
    if s.len() == 0 {
        0
    } else if s[0] == x {
        0
    } else {
        1 + first_index(s.drop_first(), x)
    }
}

pub proof fn lemma_first_index(s: Seq<PaneId>, x: PaneId)
    ensures
        0 <= first_index(s, x) <= s.len(),
        s.contains(x) ==> first_index(s, x) < s.len() && s[first_index(s, x)] == x,
        !s.contains(x) ==> first_index(s, x) == s.len(),
        forall|j: int| 0 <= j < first_index(s, x) ==> s[j] != x,
    decreases s.len(),
{
    if s.len() > 0 && s[0] != x {
        lemma_first_index(s.drop_first(), x);
        if s.contains(x) {
            let k = choose|k: int| 0 <= k < s.len() && s[k] == x;
            assert(s.drop_first()[k - 1] == x);
        }
        if s.drop_first().contains(x) {
            let k = choose|k: int| 0 <= k < s.drop_first().len() && s.drop_first()[k] == x;
            assert(s[k + 1] == x);
        }
        assert forall|j: int| 0 <= j < first_index(s, x) implies s[j] != x by {
            if j > 0 {
                assert(s[j] == s.drop_first()[j - 1]);
            }
        }
    } else if s.len() > 0 {
        assert(s.contains(x));
    }
}

pub proof fn lemma_first_index_concat(a: Seq<PaneId>, b: Seq<PaneId>, x: PaneId)
    ensures
        first_index(a + b, x) == if a.contains(x) {
            first_index(a, x)
        } else {
            a.len() + first_index(b, x)
        },
    decreases a.len(),
{
    if a.len() == 0 {
        assert(a + b =~= b);
    } else {
        assert((a + b)[0] == a[0]);
        if a[0] != x {
            assert((a + b).drop_first() =~= a.drop_first() + b);
            lemma_first_index_concat(a.drop_first(), b, x);
            if a.contains(x) {
                let k = choose|k: int| 0 <= k < a.len() && a[k] == x;
                assert(a.drop_first()[k - 1] == x);
            }
            if a.drop_first().contains(x) {
                let k = choose|k: int| 0 <= k < a.drop_first().len() && a.drop_first()[k] == x;
                assert(a[k + 1] == x);
            }
        } else {
            assert(a.contains(x));
        }
    }
}

/// Index of the first sibling whose panes contain `id`, searching from `i`; -1 when none does.
pub open spec fn first_child_from(s: Seq<(PaneFlex, Tree)>, id: PaneId, i: int) -> int
    decreases s.len() - i,
{
    if i < 0 || i >= s.len() {
        -1
    } else if leaves(s[i].1).contains(id) {
        i
    } else {
        first_child_from(s, id, i + 1)
    }
}

/// Index of the first sibling whose panes contain `id`; -1 when none does.
pub open spec fn first_child(s: Seq<(PaneFlex, Tree)>, id: PaneId) -> int {
    first_child_from(s, id, 0)
}

pub proof fn lemma_first_child_from(s: Seq<(PaneFlex, Tree)>, id: PaneId, i: int)
    requires
        0 <= i <= s.len(),
        !leaves_of(s.take(i)).contains(id),
    ensures
        ({
            let c = first_child_from(s, id, i);
            &&& -1 <= c < s.len()
            &&& (c == -1) == !leaves_of(s).contains(id)
            &&& c >= 0 ==> {
                &&& i <= c
                &&& leaves(s[c].1).contains(id)
                &&& !leaves_of(s.take(c)).contains(id)
                &&& forall|j: int| 0 <= j < c ==> !leaves(#[trigger] s[j].1).contains(id)
            }
        }),
    decreases s.len() - i,
{
    if i == s.len() {
        assert(s.take(i) =~= s);
    } else {
        lemma_leaves_of_split(s, i);
        lemma_contains_concat(leaves_of(s.take(i)), leaves(s[i].1), id);
        lemma_contains_concat(leaves_of(s.take(i)) + leaves(s[i].1), leaves_of(s.skip(i + 1)), id);
        if !leaves(s[i].1).contains(id) {
            lemma_first_child_from(s, id, i + 1);
        }
    }
    let c = first_child_from(s, id, i);
    if c >= 0 {
        assert forall|j: int| 0 <= j < c implies !leaves(#[trigger] s[j].1).contains(id) by {
            lemma_leaves_of_split(s.take(c), j);
            assert(s.take(c)[j] == s[j]);
            lemma_contains_concat(leaves_of(s.take(c).take(j)), leaves(s[j].1), id);
            lemma_contains_concat(
                leaves_of(s.take(c).take(j)) + leaves(s[j].1),
                leaves_of(s.take(c).skip(j + 1)),
                id,
            );
        }
    }
}

pub proof fn lemma_first_child(s: Seq<(PaneFlex, Tree)>, id: PaneId)
    ensures
        ({
            let c = first_child(s, id);
            &&& -1 <= c < s.len()
            &&& (c == -1) == !leaves_of(s).contains(id)
            &&& c >= 0 ==> {
                &&& leaves(s[c].1).contains(id)
                &&& !leaves_of(s.take(c)).contains(id)
                &&& forall|j: int| 0 <= j < c ==> !leaves(#[trigger] s[j].1).contains(id)
                &&& first_index(leaves_of(s), id) == leaves_of(s.take(c)).len() + first_index(
                    leaves(s[c].1),
                    id,
                )
            }
        }),
{
    assert(s.take(0) =~= Seq::<(PaneFlex, Tree)>::empty());
    assert(leaves_of(s.take(0)) =~= Seq::<PaneId>::empty());
    lemma_first_child_from(s, id, 0);
    let c = first_child(s, id);
    if c >= 0 {
        lemma_leaves_of_split(s, c);
        lemma_first_index_concat(
            leaves_of(s.take(c)) + leaves(s[c].1),
            leaves_of(s.skip(c + 1)),
            id,
        );
        lemma_first_index_concat(leaves_of(s.take(c)), leaves(s[c].1), id);
        lemma_contains_concat(leaves_of(s.take(c)), leaves(s[c].1), id);
    }
}


/// The tree after splitting its root to add `new` at the start (left, up) or
/// end (right, down) of the layout: a root branch along the same axis gains a
/// node, anything else becomes one side of a new root branch.
pub open spec fn insert_tree(t: Tree, new: PaneId, direction: Direction, d: Divider) -> Tree {
    match t {
        Tree::Branch(axis, s, ds) if direction.spec_axis() == axis => if direction.is_leading() {
            Tree::Branch(axis, seq![(default_flex(), Tree::Leaf(new))] + s, seq![d] + ds)
        } else {
            Tree::Branch(axis, s.push((default_flex(), Tree::Leaf(new))), ds.push(d))
        },
        _ => pair_tree(t, Tree::Leaf(new), direction, d),
    }
}

/// The node that replaces `t` after removing the first occurrence of pane `id`
/// from it: the branch without that pane, or, when a single node would be
/// left in the branch, that node. `None` when `t` is a leaf (a leaf is only
/// removed by its parent) or does not hold `id`.
pub open spec fn remove_tree(t: Tree, id: PaneId) -> Option<Tree>
    decreases t,
{
    match t {
        Tree::Leaf(_) => None,
        Tree::Branch(axis, s, ds) => {
            let i = first_child(s, id);
            if i < 0 {
                None
            } else {
                proof {
                    lemma_first_child(s, id);
                }
                match s[i].1 {
                    Tree::Branch(..) => match remove_tree(s[i].1, id) {
                        Some(c) => Some(Tree::Branch(axis, s.update(i, (s[i].0, c)), ds)),
                        None => None,
                    },
                    Tree::Leaf(_) => {
                        let s2 = s.remove(i);
                        let ds2 = if ds.len() == 0 {
                            ds
                        } else {
                            ds.remove(if i < ds.len() - 1 {
                                i
                            } else {
                                ds.len() - 1
                            })
                        };
                        if s2.len() == 1 {
                            Some(s2[0].1)
                        } else {
                            Some(Tree::Branch(axis, s2, ds2))
                        }
                    },
                }
            }
        },
    }
}

/// The tree with the first occurrence of pane `old` replaced by `new`.
pub open spec fn replace_tree(t: Tree, old: PaneId, new: PaneId) -> Tree
    decreases t,
{
    match t {
        Tree::Leaf(p) => if p == old {
            Tree::Leaf(new)
        } else {
            t
        },
        Tree::Branch(axis, s, ds) => {
            let i = first_child(s, old);
            if i < 0 {
                t
            } else {
                proof {
                    lemma_first_child(s, old);
                }
                Tree::Branch(axis, s.update(i, (s[i].0, replace_tree(s[i].1, old, new))), ds)
            }
        },
    }
}

/// The pane right next to the first pane `id` in `direction`, when both are
/// direct children of the same branch along `direction`'s axis.
pub open spec fn sibling_tree(t: Tree, id: PaneId, direction: Direction) -> Option<PaneId>
    decreases t, 0int,
{
    match t {
        Tree::Leaf(_) => None,
        Tree::Branch(axis, s, _) => sibling_from(axis, s, id, direction, 0),
    }
}

/// The direct-sibling search of [`sibling_tree`] over the nodes of a branch
/// along `axis`, from index `i` on.
pub open spec fn sibling_from(
    axis: SplitDirection,
    s: Seq<(PaneFlex, Tree)>,
    id: PaneId,
    direction: Direction,
    i: int,
) -> Option<PaneId>
    decreases s, s.len() - i,
{
    if i < 0 || i >= s.len() {
        None
    } else {
        match s[i].1 {
            Tree::Branch(..) => match sibling_tree(s[i].1, id, direction) {
                Some(x) => Some(x),
                None => sibling_from(axis, s, id, direction, i + 1),
            },
            Tree::Leaf(p) => if direction.spec_axis() == axis && p == id {
                if direction.is_leading() {
                    if i == 0 {
                        None
                    } else {
                        match s[i - 1].1 {
                            Tree::Leaf(q) => Some(q),
                            _ => None,
                        }
                    }
                } else {
                    if i == s.len() - 1 {
                        None
                    } else {
                        match s[i + 1].1 {
                            Tree::Leaf(q) => Some(q),
                            _ => None,
                        }
                    }
                }
            } else {
                sibling_from(axis, s, id, direction, i + 1)
            },
        }
    }
}

/// The panes of the structural group bordering pane `id` in `direction`: the
/// adjacent node, in `direction`, of the innermost branch along `direction`'s
/// axis whose containing child has such a neighbor.
pub open spec fn group_tree(t: Tree, id: PaneId, direction: Direction) -> Option<Seq<PaneId>>
    decreases t,
{
    match t {
        Tree::Leaf(_) => None,
        Tree::Branch(axis, s, _) => {
            let i = first_child(s, id);
            if i < 0 {
                None
            } else {
                proof {
                    lemma_first_child(s, id);
                }
                let inner = match s[i].1 {
                    Tree::Branch(..) => group_tree(s[i].1, id, direction),
                    Tree::Leaf(_) => None,
                };
                if inner is Some {
                    inner
                } else if direction.spec_axis() == axis {
                    if direction.is_leading() {
                        if i == 0 {
                            None
                        } else {
                            Some(leaves(s[i - 1].1))
                        }
                    } else {
                        if i + 1 < s.len() {
                            Some(leaves(s[i + 1].1))
                        } else {
                            None
                        }
                    }
                } else {
                    None
                }
            }
        },
    }
}

/// The panes of a tree that are first met when entering it from the side
/// opposite to `direction` (the panes touching that edge).
pub open spec fn first_panes(t: Tree, direction: Direction) -> Set<PaneId>
    decreases t, 0int,
{
    match t {
        Tree::Leaf(id) => set![id],
        Tree::Branch(axis, s, _) => if direction.spec_axis() == axis {
            if s.len() == 0 {
                Set::empty()
            } else if direction.is_leading() {
                first_panes(s[s.len() - 1].1, direction)
            } else {
                first_panes(s[0].1, direction)
            }
        } else {
            first_panes_from(s, direction, 0)
        },
    }
}

/// The union of the first panes of the siblings from index `i` on.
pub open spec fn first_panes_from(s: Seq<(PaneFlex, Tree)>, direction: Direction, i: int) -> Set<
    PaneId,
>
    decreases s, s.len() - i,
{
    if i < 0 || i >= s.len() {
        Set::empty()
    } else {
        first_panes(s[i].1, direction).union(first_panes_from(s, direction, i + 1))
    }
}

/// The outcome of looking for the panes next to a pane in a direction.
pub enum Lookup {
    /// The pane is in the tree but nothing lies beyond it in this sub-tree.
    Located,
    /// The pane is not in the tree.
    NotFound,
    /// The panes touching the pane's edge in the direction.
    Found(Set<PaneId>),
}

/// The panes adjacent to pane `id` in `direction`.
pub open spec fn lookup_tree(t: Tree, id: PaneId, direction: Direction) -> Lookup
    decreases t, 0int,
{
    match t {
        Tree::Leaf(p) => if p == id {
            Lookup::Located
        } else {
            Lookup::NotFound
        },
        Tree::Branch(axis, s, _) => lookup_from(axis, s, id, direction, 0),
    }
}

/// The adjacency lookup of [`lookup_tree`] over the nodes of a branch along
/// `axis`, from index `i` on.
pub open spec fn lookup_from(
    axis: SplitDirection,
    s: Seq<(PaneFlex, Tree)>,
    id: PaneId,
    direction: Direction,
    i: int,
) -> Lookup
    decreases s, s.len() - i,
{
    if i < 0 || i >= s.len() {
        Lookup::NotFound
    } else {
        match lookup_tree(s[i].1, id, direction) {
            Lookup::Found(x) => Lookup::Found(x),
            Lookup::Located => if direction.spec_axis() != axis {
                Lookup::Located
            } else if direction.is_leading() {
                if i == 0 {
                    Lookup::Located
                } else {
                    Lookup::Found(first_panes(s[i - 1].1, direction))
                }
            } else {
                if i == s.len() - 1 {
                    Lookup::Located
                } else {
                    Lookup::Found(first_panes(s[i + 1].1, direction))
                }
            },
            Lookup::NotFound => lookup_from(axis, s, id, direction, i + 1),
        }
    }
}

pub proof fn lemma_trees_of_update(s: Seq<(PaneFlex, PaneNode)>, i: int, x: (PaneFlex, PaneNode))
    requires
        0 <= i < s.len(),
    ensures
        trees_of(s.update(i, x)) == trees_of(s).update(i, (x.0, tree_of(x.1))),
{
    assert(trees_of(s.update(i, x)) =~= trees_of(s).update(i, (x.0, tree_of(x.1))));
}

pub proof fn lemma_trees_of_insert(s: Seq<(PaneFlex, PaneNode)>, i: int, x: (PaneFlex, PaneNode))
    requires
        0 <= i <= s.len(),
    ensures
        trees_of(s.insert(i, x)) == trees_of(s).insert(i, (x.0, tree_of(x.1))),
{
    assert(trees_of(s.insert(i, x)) =~= trees_of(s).insert(i, (x.0, tree_of(x.1))));
}

pub proof fn lemma_trees_of_remove(s: Seq<(PaneFlex, PaneNode)>, i: int)
    requires
        0 <= i < s.len(),
    ensures
        trees_of(s.remove(i)) == trees_of(s).remove(i),
{
    assert(trees_of(s.remove(i)) =~= trees_of(s).remove(i));
}

/// The weight a freshly split pane gets.
pub open spec fn default_flex() -> PaneFlex {
    PaneFlex(DEFAULT_FLEX_BITS)
}

/// Well-formed: every branch holds at least two nodes and one divider between
/// each pair of adjacent nodes.
pub open spec fn wf_tree(t: Tree) -> bool
    decreases t,
{
    match t {
        Tree::Leaf(_) => true,
        Tree::Branch(_, s, ds) => {
            &&& s.len() >= 2
            &&& ds.len() + 1 == s.len()
            &&& forall|i: int| 0 <= i < s.len() ==> wf_tree(#[trigger] s[i].1)
        },
    }
}

/// `old` and `new` side by side along `direction`'s axis, `new` on the side
/// `direction` points to, with equal default weights.
pub open spec fn pair_tree(old: Tree, new: Tree, direction: Direction, d: Divider) -> Tree {
    Tree::Branch(
        direction.spec_axis(),
        if direction.is_leading() {
            seq![(default_flex(), new), (default_flex(), old)]
        } else {
            seq![(default_flex(), old), (default_flex(), new)]
        },
        seq![d],
    )
}

/// The tree after splitting the first occurrence of pane `old` to put `new`
/// next to it in `direction`, using divider `d`. A pane whose parent branch
/// runs along the split's axis gets its new sibling inserted into that branch;
/// otherwise the pane becomes a perpendicular two-pane branch.
pub open spec fn split_tree(t: Tree, old: PaneId, new: PaneId, direction: Direction, d: Divider) -> Tree
    decreases t,
{
    match t {
        Tree::Leaf(p) => if p == old {
            pair_tree(Tree::Leaf(old), Tree::Leaf(new), direction, d)
        } else {
            t
        },
        Tree::Branch(axis, s, ds) => {
            let i = first_child(s, old);
            if i < 0 {
                t
            } else {
                proof {
                    lemma_first_child(s, old);
                }
                match s[i].1 {
                    Tree::Branch(..) => Tree::Branch(
                        axis,
                        s.update(i, (s[i].0, split_tree(s[i].1, old, new, direction, d))),
                        ds,
                    ),
                    Tree::Leaf(p) => if direction.spec_axis() == axis {
                        Tree::Branch(
                            axis,
                            s.insert(
                                if direction.is_leading() {
                                    i
                                } else {
                                    i + 1
                                },
                                (default_flex(), Tree::Leaf(new)),
                            ),
                            ds.insert(i, d),
                        )
                    } else {
                        Tree::Branch(
                            axis,
                            s.update(
                                i,
                                (s[i].0, pair_tree(Tree::Leaf(p), Tree::Leaf(new), direction, d)),
                            ),
                            ds,
                        )
                    },
                }
            }
        },
    }
}

impl PaneNode {
    /// The panes of this node, left to right and top to bottom.
    pub fn pane_ids(&self) -> (r: Vec<PaneId>)
        ensures
            r@ == leaves(self@),
        decreases self,
    {
        match self {
            PaneNode::Leaf(pane) => vec![*pane],
            PaneNode::Branch(branch) => branch.get_children(),
        }
    }

    /// Whether `pane_id` is one of this node's panes.
    pub fn contains_pane(&self, pane_id: PaneId) -> (r: bool)
        ensures
            r == leaves(self@).contains(pane_id),
        decreases self,
    {
        match self {
            PaneNode::Leaf(id) => {
                proof {
                    assert(leaves(self@) == seq![*id]);
                    if *id == pane_id {
                        assert(leaves(self@)[0] == pane_id);
                    }
                }
                *id == pane_id
            },
            PaneNode::Branch(branch) => branch.contains_pane(pane_id),
        }
    }
}

impl PaneBranch {
    /// The panes of this branch, left to right and top to bottom.
    pub fn get_children(&self) -> (r: Vec<PaneId>)
        ensures
            r@ == leaves(self@),
        decreases self,
    {
        let ghost s = trees_of(self.nodes@);
        let mut res: Vec<PaneId> = Vec::new();
        let mut i: usize = 0;
        while i < self.nodes.len()
            invariant
                i <= self.nodes.len(),
                s == trees_of(self.nodes@),
                res@ == leaves_of(s.take(i as int)),
            decreases self.nodes.len() - i,
        {
            proof {
                lemma_trees_of_index(self.nodes@, i as int);
                lemma_leaves_of_split(s, i as int);
            }
            let mut child = self.nodes[i].1.pane_ids();
            res.append(&mut child);
            i += 1;
        }
        proof {
            assert(s.take(self.nodes.len() as int) =~= s);
        }
        res
    }

    /// Position of the first child whose panes contain `pane_id`.
    pub fn child_position(&self, pane_id: PaneId) -> (r: Option<usize>)
        ensures
            r matches Some(i) ==> i == first_child(trees_of(self.nodes@), pane_id),
            r is None ==> first_child(trees_of(self.nodes@), pane_id) == -1,
        decreases self,
    {
        let ghost s = trees_of(self.nodes@);
        let mut i: usize = 0;
        while i < self.nodes.len()
            invariant
                i <= self.nodes.len(),
                s == trees_of(self.nodes@),
                first_child(s, pane_id) == first_child_from(s, pane_id, i as int),
            decreases self.nodes.len() - i,
        {
            proof {
                lemma_trees_of_index(self.nodes@, i as int);
            }
            if self.nodes[i].1.contains_pane(pane_id) {
                return Some(i);
            }
            i += 1;
        }
        None
    }

    /// Whether `pane_id` is one of this branch's panes.
    pub fn contains_pane(&self, pane_id: PaneId) -> (r: bool)
        ensures
            r == leaves(self@).contains(pane_id),
        decreases self,
    {
        let ghost s = trees_of(self.nodes@);
        proof {
            lemma_first_child(s, pane_id);
        }
        let mut i: usize = 0;
        while i < self.nodes.len()
            invariant
                i <= self.nodes.len(),
                s == trees_of(self.nodes@),
                first_child(s, pane_id) == first_child_from(s, pane_id, i as int),
            decreases self.nodes.len() - i,
        {
            proof {
                lemma_trees_of_index(self.nodes@, i as int);
            }
            if self.nodes[i].1.contains_pane(pane_id) {
                proof {
                    lemma_first_child(s, pane_id);
                }
                return true;
            }
            i += 1;
        }
        proof {
            lemma_first_child(s, pane_id);
        }
        false
    }
}


impl PaneBranch {
    /// A branch holding `old_pane` and `new_pane` side by side along
    /// `direction`'s axis, `new_pane` on the side `direction` points to.
    pub fn new(old_pane: PaneNode, new_pane: PaneNode, direction: Direction, divider: Divider) -> (r:
        PaneBranch)
        ensures
            r@ == pair_tree(old_pane@, new_pane@, direction, divider),
    {
        let axis = direction.axis();
        let nodes = match direction {
            Direction::Left | Direction::Up => {
                vec![(PaneFlex(DEFAULT_FLEX_BITS), new_pane), (PaneFlex(DEFAULT_FLEX_BITS), old_pane)]
            },
            Direction::Right | Direction::Down => {
                vec![(PaneFlex(DEFAULT_FLEX_BITS), old_pane), (PaneFlex(DEFAULT_FLEX_BITS), new_pane)]
            },
        };
        let r = PaneBranch { axis, nodes, dividers: vec![divider] };
        proof {
            lemma_trees_of_index(r.nodes@, 0);
            lemma_trees_of_index(r.nodes@, 1);
            assert(r.dividers@ =~= seq![divider]);
            if direction.is_leading() {
                assert(trees_of(r.nodes@) =~= seq![(default_flex(), new_pane@), (default_flex(), old_pane@)]);
            } else {
                assert(trees_of(r.nodes@) =~= seq![(default_flex(), old_pane@), (default_flex(), new_pane@)]);
            }
        }
        r
    }

    /// A branch that contains two leaves.
    pub fn for_leaves(old_leaf: PaneId, new_leaf: PaneId, direction: Direction, divider: Divider) -> (r:
        PaneBranch)
        ensures
            r@ == pair_tree(Tree::Leaf(old_leaf), Tree::Leaf(new_leaf), direction, divider),
    {
        PaneBranch::new(PaneNode::Leaf(old_leaf), PaneNode::Leaf(new_leaf), direction, divider)
    }
}


impl PaneNode {
    /// Splits the first occurrence of pane `old_pane_id`, putting `new_pane_id`
    /// next to it in `direction`. Returns whether the pane was found.
    pub fn split(
        &mut self,
        old_pane_id: PaneId,
        new_pane_id: PaneId,
        direction: Direction,
        divider: Divider,
    ) -> (r: bool)
        requires
            wf_tree(old(self)@),
        ensures
            r == leaves(old(self)@).contains(old_pane_id),
            final(self)@ == split_tree(old(self)@, old_pane_id, new_pane_id, direction, divider),
        decreases *old(self),
    {
        match self {
            PaneNode::Leaf(pane) => {
                let p = *pane;
                proof {
                    assert(leaves(old(self)@) == seq![p]);
                    if p == old_pane_id {
                        assert(leaves(old(self)@)[0] == old_pane_id);
                    }
                }
                if p == old_pane_id {
                    *self = PaneNode::Branch(
                        PaneBranch::for_leaves(old_pane_id, new_pane_id, direction, divider),
                    );
                    true
                } else {
                    false
                }
            },
            PaneNode::Branch(branch) => branch.split(old_pane_id, new_pane_id, direction, divider),
        }
    }
}

impl PaneBranch {
    /// Splits the first occurrence of pane `old_pane` in this branch.
    pub fn split(&mut self, old_pane: PaneId, new_pane: PaneId, direction: Direction, divider: Divider) -> (r:
        bool)
        requires
            wf_tree(old(self)@),
        ensures
            r == leaves(old(self)@).contains(old_pane),
            final(self)@ == split_tree(old(self)@, old_pane, new_pane, direction, divider),
        decreases *old(self),
    {
        let ghost s = trees_of(self.nodes@);
        proof {
            lemma_first_child(s, old_pane);
        }
        match self.child_position(old_pane) {
            None => false,
            Some(idx) => {
                let ghost old_nodes = self.nodes@;
                proof {
                    assert(s.len() == old_nodes.len());
                    lemma_trees_of_index(old_nodes, idx as int);
                }
                let (flex, node) = self.nodes.remove(idx);
                match node {
                    PaneNode::Branch(mut child) => {
                        proof {
                            assert(wf_tree(s[idx as int].1));
                        }
                        child.split(old_pane, new_pane, direction, divider);
                        self.nodes.insert(idx, (flex, PaneNode::Branch(child)));
                        proof {
                            assert(self.nodes@ =~= old_nodes.update(idx as int, (flex, PaneNode::Branch(child))));
                            lemma_trees_of_update(old_nodes, idx as int, (flex, PaneNode::Branch(child)));
                        }
                    },
                    PaneNode::Leaf(pane) => {
                        if direction.axis() == self.axis {
                            self.nodes.insert(idx, (flex, PaneNode::Leaf(pane)));
                            proof {
                                assert(self.nodes@ =~= old_nodes);
                                assert(idx < self.nodes.len());
                            }
                            let pos = match direction {
                                Direction::Left | Direction::Up => idx,
                                Direction::Right | Direction::Down => idx + 1,
                            };
                            self.nodes.insert(pos, (PaneFlex(DEFAULT_FLEX_BITS), PaneNode::Leaf(new_pane)));
                            self.dividers.insert(idx, divider);
                            proof {
                                lemma_trees_of_insert(old_nodes, pos as int, (PaneFlex(DEFAULT_FLEX_BITS), PaneNode::Leaf(new_pane)));
                            }
                        } else {
                            let pair = PaneBranch::for_leaves(pane, new_pane, direction, divider);
                            self.nodes.insert(idx, (flex, PaneNode::Branch(pair)));
                            proof {
                                assert(self.nodes@ =~= old_nodes.update(idx as int, (flex, PaneNode::Branch(pair))));
                                lemma_trees_of_update(old_nodes, idx as int, (flex, PaneNode::Branch(pair)));
                            }
                        }
                    },
                }
                true
            },
        }
    }
}


pub proof fn lemma_pair_tree(old: Tree, new: Tree, direction: Direction, d: Divider)
    ensures
        leaves(pair_tree(old, new, direction, d)) == if direction.is_leading() {
            leaves(new) + leaves(old)
        } else {
            leaves(old) + leaves(new)
        },
        wf_tree(old) && wf_tree(new) ==> wf_tree(pair_tree(old, new, direction, d)),
{
    let s = pair_tree(old, new, direction, d)->Branch_1;
    lemma_leaves_of_concat(seq![s[0]], seq![s[1]]);
    assert(s =~= seq![s[0]] + seq![s[1]]);
    lemma_leaves_of_single(s[0]);
    lemma_leaves_of_single(s[1]);
}

/// Splitting inserts the new pane right before (left, up) or right after
/// (right, down) the first occurrence of the split pane, and keeps the tree
/// well formed; splitting a pane that is not there changes nothing.
#[verifier::rlimit(40)]
pub proof fn lemma_split_tree(t: Tree, old: PaneId, new: PaneId, direction: Direction, d: Divider)
    requires
        wf_tree(t),
    ensures
        wf_tree(split_tree(t, old, new, direction, d)),
        leaves(split_tree(t, old, new, direction, d)) == if leaves(t).contains(old) {
            leaves(t).insert(
                first_index(leaves(t), old) + if direction.is_leading() {
                    0int
                } else {
                    1int
                },
                new,
            )
        } else {
            leaves(t)
        },
    decreases t,
{
    let off: int = if direction.is_leading() {
        0
    } else {
        1
    };
    match t {
        Tree::Leaf(p) => {
            if p == old {
                lemma_pair_tree(Tree::Leaf(old), Tree::Leaf(new), direction, d);
                assert(leaves(t)[0] == old);
                assert(leaves(split_tree(t, old, new, direction, d)) =~= leaves(t).insert(off, new));
            } else {
                assert(!leaves(t).contains(old)) by {
                    if leaves(t).contains(old) {
                        let k = choose|k: int| 0 <= k < leaves(t).len() && leaves(t)[k] == old;
                        assert(leaves(t)[k] == p);
                    }
                }
            }
        },
        Tree::Branch(axis, s, ds) => {
            lemma_first_child(s, old);
            let i = first_child(s, old);
            if i >= 0 {
                let a = leaves_of(s.take(i));
                let b = leaves_of(s.skip(i + 1));
                let c = leaves(s[i].1);
                lemma_leaves_of_split(s, i);
                lemma_first_index(c, old);
                lemma_first_index(leaves(t), old);
                let r = split_tree(t, old, new, direction, d);
                match s[i].1 {
                    Tree::Branch(..) => {
                        let ci = split_tree(s[i].1, old, new, direction, d);
                        lemma_split_tree(s[i].1, old, new, direction, d);
                        lemma_leaves_of_update(s, i, (s[i].0, ci));
                        lemma_insert_in_middle(a, c, b, first_index(c, old) + off, new);
                        let s2 = s.update(i, (s[i].0, ci));
                        assert forall|j: int| 0 <= j < s2.len() implies wf_tree(#[trigger] s2[j].1) by {
                            if j != i {
                                assert(s2[j] == s[j]);
                            }
                        }
                    },
                    Tree::Leaf(p) => {
                        assert(c == seq![p]);
                        assert(p == old) by {
                            let k = choose|k: int| 0 <= k < c.len() && c[k] == old;
                        }
                        assert(first_index(c, old) == 0);
                        if direction.spec_axis() == axis {
                            let pos = i + off;
                            let x = (default_flex(), Tree::Leaf(new));
                            lemma_leaves_of_insert(s, pos, x);
                            lemma_leaves_of_single(x);
                            if off == 1 {
                                assert(s.take(pos) =~= s.take(i) + seq![s[i]]);
                                lemma_leaves_of_concat(s.take(i), seq![s[i]]);
                                lemma_leaves_of_single(s[i]);
                            }
                            assert(leaves_of(s.take(pos)).len() == a.len() + off);
                            let s2 = s.insert(pos, x);
                            assert(leaves(r) =~= leaves(t).insert(first_index(leaves(t), old) + off, new)) by {
                                assert(leaves(r) == leaves_of(s.take(pos)) + seq![new] + leaves_of(s.skip(pos)));
                                assert(leaves(t) == leaves_of(s.take(pos)) + leaves_of(s.skip(pos)));
                            }
                            assert forall|j: int| 0 <= j < s2.len() implies wf_tree(#[trigger] s2[j].1) by {
                                if j < pos {
                                    assert(s2[j] == s[j]);
                                } else if j > pos {
                                    assert(s2[j] == s[j - 1]);
                                }
                            }
                        } else {
                            let pt = pair_tree(Tree::Leaf(p), Tree::Leaf(new), direction, d);
                            lemma_pair_tree(Tree::Leaf(p), Tree::Leaf(new), direction, d);
                            assert(leaves(pt) =~= c.insert(off, new));
                            lemma_leaves_of_update(s, i, (s[i].0, pt));
                            lemma_insert_in_middle(a, c, b, off, new);
                            let s2 = s.update(i, (s[i].0, pt));
                            assert forall|j: int| 0 <= j < s2.len() implies wf_tree(#[trigger] s2[j].1) by {
                                if j != i {
                                    assert(s2[j] == s[j]);
                                }
                            }
                        }
                    },
                }
            }
        },
    }
}

/// Splitting the root adds the new pane first (left, up) or last (right, down) in the pane
/// order; the new root is a branch along the split's axis with the new pane as its first or
/// last node, and a root along the other axis is wrapped whole.
pub proof fn lemma_insert_tree(t: Tree, new: PaneId, direction: Direction, d: Divider)
    requires
        wf_tree(t),
    ensures
        insert_tree(t, new, direction, d) matches Tree::Branch(axis, s, _) && axis
            == direction.spec_axis() && s.len() >= 2 && (if direction.is_leading() {
            s[0].1 == Tree::Leaf(new)
        } else {
            s[s.len() - 1].1 == Tree::Leaf(new)
        }),
        wf_tree(insert_tree(t, new, direction, d)),
        leaves(insert_tree(t, new, direction, d)) == if direction.is_leading() {
            seq![new] + leaves(t)
        } else {
            leaves(t) + seq![new]
        },
{
    lemma_pair_tree(t, Tree::Leaf(new), direction, d);
    match t {
        Tree::Branch(axis, s, ds) => {
            if direction.spec_axis() == axis {
                let x = (default_flex(), Tree::Leaf(new));
                lemma_leaves_of_single(x);
                if direction.is_leading() {
                    lemma_leaves_of_concat(seq![x], s);
                    let s2 = seq![x] + s;
                    assert forall|j: int| 0 <= j < s2.len() implies wf_tree(#[trigger] s2[j].1) by {
                        if j > 0 {
                            assert(s2[j] == s[j - 1]);
                        }
                    }
                } else {
                    lemma_leaves_of_concat(s, seq![x]);
                    assert(s.push(x) =~= s + seq![x]);
                    let s2 = s.push(x);
                    assert forall|j: int| 0 <= j < s2.len() implies wf_tree(#[trigger] s2[j].1) by {
                        if j < s.len() {
                            assert(s2[j] == s[j]);
                        }
                    }
                }
            }
        },
        _ => {},
    }
}

/// Removing a pane from a branch takes out its first occurrence and keeps the
/// tree well formed.
pub proof fn lemma_remove_tree(t: Tree, id: PaneId)
    requires
        wf_tree(t),
    ensures
        remove_tree(t, id) is Some <==> (t is Branch && leaves(t).contains(id)),
        remove_tree(t, id) matches Some(r) ==> {
            &&& wf_tree(r)
            &&& leaves(r) == leaves(t).remove(first_index(leaves(t), id))
        },
    decreases t,
{
    match t {
        Tree::Leaf(_) => {},
        Tree::Branch(axis, s, ds) => {
            lemma_first_child(s, id);
            let i = first_child(s, id);
            if i >= 0 {
                let a = leaves_of(s.take(i));
                let b = leaves_of(s.skip(i + 1));
                let c = leaves(s[i].1);
                lemma_leaves_of_split(s, i);
                lemma_first_index(c, id);
                match s[i].1 {
                    Tree::Branch(..) => {
                        lemma_remove_tree(s[i].1, id);
                        let ci = remove_tree(s[i].1, id)->Some_0;
                        lemma_leaves_of_update(s, i, (s[i].0, ci));
                        lemma_remove_in_middle(a, c, b, first_index(c, id));
                        let s2 = s.update(i, (s[i].0, ci));
                        assert forall|j: int| 0 <= j < s2.len() implies wf_tree(#[trigger] s2[j].1) by {
                            if j != i {
                                assert(s2[j] == s[j]);
                            }
                        }
                    },
                    Tree::Leaf(p) => {
                        assert(c == seq![p]);
                        assert(p == id) by {
                            let k = choose|k: int| 0 <= k < c.len() && c[k] == id;
                        }
                        assert(first_index(c, id) == 0);
                        lemma_leaves_of_remove(s, i);
                        lemma_remove_in_middle(a, c, b, 0);
                        assert(c.remove(0) =~= Seq::<PaneId>::empty());
                        assert(a + c.remove(0) + b =~= a + b);
                        let s2 = s.remove(i);
                        assert forall|j: int| 0 <= j < s2.len() implies wf_tree(#[trigger] s2[j].1) by {
                            if j < i {
                                assert(s2[j] == s[j]);
                            } else {
                                assert(s2[j] == s[j + 1]);
                            }
                        }
                        if s2.len() == 1 {
                            assert(s2 =~= seq![s2[0]]);
                            lemma_leaves_of_single(s2[0]);
                        }
                    },
                }
            }
        },
    }
}

/// Replacing a pane swaps its first occurrence for the new pane, keeping the
/// layout and well-formedness.
pub proof fn lemma_replace_tree(t: Tree, old: PaneId, new: PaneId)
    requires
        wf_tree(t),
    ensures
        wf_tree(replace_tree(t, old, new)),
        leaves(replace_tree(t, old, new)) == if leaves(t).contains(old) {
            leaves(t).update(first_index(leaves(t), old), new)
        } else {
            leaves(t)
        },
    decreases t,
{
    match t {
        Tree::Leaf(p) => {
            if p == old {
                assert(leaves(t)[0] == old);
                assert(leaves(replace_tree(t, old, new)) =~= leaves(t).update(0, new));
            } else {
                assert(!leaves(t).contains(old)) by {
                    if leaves(t).contains(old) {
                        let k = choose|k: int| 0 <= k < leaves(t).len() && leaves(t)[k] == old;
                        assert(leaves(t)[k] == p);
                    }
                }
            }
        },
        Tree::Branch(axis, s, ds) => {
            lemma_first_child(s, old);
            let i = first_child(s, old);
            if i >= 0 {
                let a = leaves_of(s.take(i));
                let b = leaves_of(s.skip(i + 1));
                let c = leaves(s[i].1);
                lemma_leaves_of_split(s, i);
                lemma_first_index(c, old);
                lemma_replace_tree(s[i].1, old, new);
                let ci = replace_tree(s[i].1, old, new);
                lemma_leaves_of_update(s, i, (s[i].0, ci));
                assert(a + c.update(first_index(c, old), new) + b =~= (a + c + b).update(
                    a.len() + first_index(c, old),
                    new,
                ));
                let s2 = s.update(i, (s[i].0, ci));
                assert forall|j: int| 0 <= j < s2.len() implies wf_tree(#[trigger] s2[j].1) by {
                    if j != i {
                        assert(s2[j] == s[j]);
                    }
                }
            }
        },
    }
}


/// The result of attempting to remove a pane from a branch.
pub enum BranchRemoveResult {
    /// The pane was not found in this sub-tree.
    NotFound,
    /// The pane was found and removed, no further action is needed.
    Removed,
    /// The pane was found and removed, leaving only a single node in the
    /// branch, which replaces the branch in its parent.
    Collapse(PaneNode),
}

impl PaneNode {
    /// Removes the first occurrence of `pane_id`. A leaf can only be removed
    /// by its containing branch, so a leaf node reports `false`.
    pub fn remove(&mut self, pane_id: PaneId) -> (r: bool)
        requires
            wf_tree(old(self)@),
        ensures
            r == remove_tree(old(self)@, pane_id) is Some,
            r ==> Some(final(self)@) == remove_tree(old(self)@, pane_id),
            !r ==> final(self)@ == old(self)@,
    {
        match self {
            PaneNode::Leaf(_) => false,
            PaneNode::Branch(branch) => match branch.remove(pane_id) {
                BranchRemoveResult::NotFound => false,
                BranchRemoveResult::Removed => true,
                BranchRemoveResult::Collapse(last_node) => {
                    *self = last_node;
                    true
                },
            },
        }
    }

    /// Splits the root of this node, adding `new_pane_id` at the start or end
    /// of the layout according to `direction`.
    pub fn insert(&mut self, new_pane_id: PaneId, direction: Direction, divider: Divider)
        requires
            wf_tree(old(self)@),
        ensures
            final(self)@ == insert_tree(old(self)@, new_pane_id, direction, divider),
    {
        match self {
            PaneNode::Leaf(old_pane_id) => {
                let old_id = *old_pane_id;
                *self = PaneNode::Branch(
                    PaneBranch::for_leaves(old_id, new_pane_id, direction, divider),
                );
            },
            PaneNode::Branch(branch) => branch.insert(new_pane_id, direction, divider),
        }
    }

    /// Replaces the first occurrence of `old_pane_id` with `new_pane_id`.
    pub fn replace_pane(&mut self, old_pane_id: PaneId, new_pane_id: PaneId) -> (r: bool)
        requires
            wf_tree(old(self)@),
        ensures
            r == leaves(old(self)@).contains(old_pane_id),
            final(self)@ == replace_tree(old(self)@, old_pane_id, new_pane_id),
        decreases *old(self),
    {
        match self {
            PaneNode::Leaf(id) => {
                proof {
                    assert(leaves(old(self)@) == seq![*id]);
                    if *id == old_pane_id {
                        assert(leaves(old(self)@)[0] == old_pane_id);
                    }
                }
                if *id == old_pane_id {
                    *id = new_pane_id;
                    true
                } else {
                    false
                }
            },
            PaneNode::Branch(branch) => branch.replace_pane(old_pane_id, new_pane_id),
        }
    }
}

impl PaneBranch {
    /// Removes the first occurrence of `pane_id_to_remove` from this branch.
    pub fn remove(&mut self, pane_id_to_remove: PaneId) -> (r: BranchRemoveResult)
        requires
            wf_tree(old(self)@),
        ensures
            match r {
                BranchRemoveResult::NotFound => remove_tree(old(self)@, pane_id_to_remove) is None
                    && final(self)@ == old(self)@,
                BranchRemoveResult::Removed => remove_tree(old(self)@, pane_id_to_remove) == Some(
                    final(self)@,
                ),
                BranchRemoveResult::Collapse(n) => remove_tree(old(self)@, pane_id_to_remove)
                    == Some(n@),
            },
        decreases *old(self),
    {
        let ghost s = trees_of(self.nodes@);
        proof {
            lemma_first_child(s, pane_id_to_remove);
        }
        match self.child_position(pane_id_to_remove) {
            None => BranchRemoveResult::NotFound,
            Some(idx) => {
                let ghost old_nodes = self.nodes@;
                proof {
                    assert(s.len() == old_nodes.len());
                    lemma_trees_of_index(old_nodes, idx as int);
                }
                let (flex, node) = self.nodes.remove(idx);
                match node {
                    PaneNode::Branch(mut child) => {
                        proof {
                            assert(wf_tree(s[idx as int].1));
                            lemma_remove_tree(s[idx as int].1, pane_id_to_remove);
                        }
                        match child.remove(pane_id_to_remove) {
                            BranchRemoveResult::NotFound => {
                                self.nodes.insert(idx, (flex, PaneNode::Branch(child)));
                                BranchRemoveResult::NotFound
                            },
                            BranchRemoveResult::Removed => {
                                self.nodes.insert(idx, (flex, PaneNode::Branch(child)));
                                proof {
                                    assert(self.nodes@ =~= old_nodes.update(
                                        idx as int,
                                        (flex, PaneNode::Branch(child)),
                                    ));
                                    lemma_trees_of_update(
                                        old_nodes,
                                        idx as int,
                                        (flex, PaneNode::Branch(child)),
                                    );
                                }
                                BranchRemoveResult::Removed
                            },
                            BranchRemoveResult::Collapse(last_node) => {
                                let ghost ln = last_node;
                                self.nodes.insert(idx, (flex, last_node));
                                proof {
                                    assert(self.nodes@ =~= old_nodes.update(idx as int, (flex, ln)));
                                    lemma_trees_of_update(old_nodes, idx as int, (flex, ln));
                                }
                                BranchRemoveResult::Removed
                            },
                        }
                    },
                    PaneNode::Leaf(_) => {
                        proof {
                            lemma_trees_of_remove(old_nodes, idx as int);
                        }
                        if !self.dividers.is_empty() {
                            let last = self.dividers.len() - 1;
                            let k = if idx < last {
                                idx
                            } else {
                                last
                            };
                            self.dividers.remove(k);
                        }
                        if self.nodes.len() == 1 {
                            proof {
                                lemma_trees_of_index(self.nodes@, 0);
                            }
                            let (_, last_node) = self.nodes.pop().unwrap();
                            BranchRemoveResult::Collapse(last_node)
                        } else {
                            BranchRemoveResult::Removed
                        }
                    },
                }
            },
        }
    }

    /// Adds `new_pane_id` at the start or end of this branch when `direction`
    /// runs along its axis; otherwise turns this branch into one side of a new
    /// branch along `direction`'s axis.
    pub fn insert(&mut self, new_pane_id: PaneId, direction: Direction, divider: Divider)
        requires
            wf_tree(old(self)@),
        ensures
            final(self)@ == insert_tree(old(self)@, new_pane_id, direction, divider),
    {
        let ghost old_nodes = self.nodes@;
        if direction.axis() == self.axis {
            match direction {
                Direction::Left | Direction::Up => {
                    self.nodes.insert(0, (PaneFlex(DEFAULT_FLEX_BITS), PaneNode::Leaf(new_pane_id)));
                    self.dividers.insert(0, divider);
                    proof {
                        lemma_trees_of_insert(
                            old_nodes,
                            0,
                            (PaneFlex(DEFAULT_FLEX_BITS), PaneNode::Leaf(new_pane_id)),
                        );
                        assert(trees_of(old_nodes).insert(0, (default_flex(), Tree::Leaf(new_pane_id)))
                            =~= seq![(default_flex(), Tree::Leaf(new_pane_id))] + trees_of(old_nodes));
                        assert(old(self).dividers@.insert(0, divider) =~= seq![divider] + old(
                            self,
                        ).dividers@);
                    }
                },
                Direction::Right | Direction::Down => {
                    self.nodes.push((PaneFlex(DEFAULT_FLEX_BITS), PaneNode::Leaf(new_pane_id)));
                    self.dividers.push(divider);
                    proof {
                        lemma_trees_of_insert(
                            old_nodes,
                            old_nodes.len() as int,
                            (PaneFlex(DEFAULT_FLEX_BITS), PaneNode::Leaf(new_pane_id)),
                        );
                        assert(old_nodes.insert(
                            old_nodes.len() as int,
                            (PaneFlex(DEFAULT_FLEX_BITS), PaneNode::Leaf(new_pane_id)),
                        ) =~= self.nodes@);
                        assert(trees_of(old_nodes).insert(
                            old_nodes.len() as int,
                            (default_flex(), Tree::Leaf(new_pane_id)),
                        ) =~= trees_of(old_nodes).push((default_flex(), Tree::Leaf(new_pane_id))));
                    }
                },
            }
        } else {
            let mut nodes: Vec<(PaneFlex, PaneNode)> = Vec::new();
            std::mem::swap(&mut nodes, &mut self.nodes);
            let mut dividers: Vec<Divider> = Vec::new();
            std::mem::swap(&mut dividers, &mut self.dividers);
            let axis = self.axis;
            let old_branch = PaneBranch { axis, nodes, dividers };
            proof {
                assert(old_branch@ == old(self)@);
            }
            *self = PaneBranch::new(
                PaneNode::Branch(old_branch),
                PaneNode::Leaf(new_pane_id),
                direction,
                divider,
            );
        }
    }

    /// Replaces the first occurrence of `old_pane_id` in this branch.
    pub fn replace_pane(&mut self, old_pane_id: PaneId, new_pane_id: PaneId) -> (r: bool)
        requires
            wf_tree(old(self)@),
        ensures
            r == leaves(old(self)@).contains(old_pane_id),
            final(self)@ == replace_tree(old(self)@, old_pane_id, new_pane_id),
        decreases *old(self),
    {
        let ghost s = trees_of(self.nodes@);
        proof {
            lemma_first_child(s, old_pane_id);
        }
        match self.child_position(old_pane_id) {
            None => false,
            Some(idx) => {
                let ghost old_nodes = self.nodes@;
                proof {
                    assert(s.len() == old_nodes.len());
                    lemma_trees_of_index(old_nodes, idx as int);
                    assert(wf_tree(s[idx as int].1));
                }
                let (flex, mut node) = self.nodes.remove(idx);
                node.replace_pane(old_pane_id, new_pane_id);
                let ghost nn = node;
                self.nodes.insert(idx, (flex, node));
                proof {
                    assert(self.nodes@ =~= old_nodes.update(idx as int, (flex, nn)));
                    lemma_trees_of_update(old_nodes, idx as int, (flex, nn));
                }
                true
            },
        }
    }
}


pub proof fn lemma_to_set_concat<A>(a: Seq<A>, b: Seq<A>)
    ensures
        (a + b).to_set() == a.to_set().union(b.to_set()),
{
    assert forall|x: A| (a + b).to_set().contains(x) == a.to_set().union(b.to_set()).contains(x) by {
        lemma_contains_concat(a, b, x);
    }
    assert((a + b).to_set() =~= a.to_set().union(b.to_set()));
}

/// The result of looking for the panes next to a pane in a direction.
#[derive(Debug, PartialEq, Eq)]
pub enum FindPaneByDirectionResult {
    /// Located the current pane in the tree.
    Located,
    /// The current pane is not found in the tree.
    NotFound,
    /// The possible target panes that were found.
    Found(Vec<PaneId>),
}

impl FindPaneByDirectionResult {
    /// Whether this result stands for `lookup`, a found list standing for the
    /// set of its elements.
    pub open spec fn denotes(&self, lookup: Lookup) -> bool {
        match (self, lookup) {
            (FindPaneByDirectionResult::Located, Lookup::Located) => true,
            (FindPaneByDirectionResult::NotFound, Lookup::NotFound) => true,
            (FindPaneByDirectionResult::Found(v), Lookup::Found(s)) => v@.to_set() == s,
            _ => false,
        }
    }
}

impl PaneNode {
    /// Finds the first panes in `direction` inside of this node: the panes
    /// that touch its edge facing away from `direction`.
    pub fn first_panes_in_direction(&self, direction: Direction) -> (r: Vec<PaneId>)
        requires
            wf_tree(self@),
        ensures
            r@.to_set() == first_panes(self@, direction),
        decreases self,
    {
        match self {
            PaneNode::Leaf(id) => {
                let r = vec![*id];
                proof {
                    assert(r@.to_set() =~= set![*id]);
                }
                r
            },
            PaneNode::Branch(branch) => branch.first_panes_in_direction(direction),
        }
    }

    /// Looks for the panes adjacent to `pane_id` in `direction`.
    pub fn panes_by_direction(&self, pane_id: PaneId, direction: Direction) -> (r:
        FindPaneByDirectionResult)
        requires
            wf_tree(self@),
        ensures
            r.denotes(lookup_tree(self@, pane_id, direction)),
        decreases self,
    {
        match self {
            PaneNode::Leaf(id) => {
                if *id == pane_id {
                    FindPaneByDirectionResult::Located
                } else {
                    FindPaneByDirectionResult::NotFound
                }
            },
            PaneNode::Branch(branch) => branch.panes_by_direction(pane_id, direction),
        }
    }
}

impl PaneBranch {
    /// See [`PaneNode::first_panes_in_direction`].
    pub fn first_panes_in_direction(&self, direction: Direction) -> (r: Vec<PaneId>)
        requires
            wf_tree(self@),
        ensures
            r@.to_set() == first_panes(self@, direction),
        decreases self,
    {
        let ghost s = trees_of(self.nodes@);
        proof {
            assert(s.len() == self.nodes@.len());
            assert(s.len() >= 2);
        }
        if direction.axis() == self.axis {
            match direction {
                Direction::Left | Direction::Up => {
                    let last = self.nodes.len() - 1;
                    proof {
                        lemma_trees_of_index(self.nodes@, last as int);
                        assert(wf_tree(s[last as int].1));
                    }
                    self.nodes[last].1.first_panes_in_direction(direction)
                },
                Direction::Right | Direction::Down => {
                    proof {
                        lemma_trees_of_index(self.nodes@, 0);
                        assert(wf_tree(s[0].1));
                    }
                    self.nodes[0].1.first_panes_in_direction(direction)
                },
            }
        } else {
            let mut res: Vec<PaneId> = Vec::new();
            let mut i: usize = 0;
            while i < self.nodes.len()
                invariant
                    i <= self.nodes.len(),
                    s == trees_of(self.nodes@),
                    wf_tree(self@),
                    res@.to_set().union(first_panes_from(s, direction, i as int)) == first_panes_from(
                        s,
                        direction,
                        0,
                    ),
                decreases self.nodes.len() - i,
            {
                proof {
                    lemma_trees_of_index(self.nodes@, i as int);
                    assert(wf_tree(s[i as int].1));
                }
                let mut child = self.nodes[i].1.first_panes_in_direction(direction);
                let ghost prev = res@;
                let ghost cs = child@;
                res.append(&mut child);
                proof {
                    lemma_to_set_concat(prev, cs);
                    assert(res@ == prev + cs);
                    assert(res@.to_set().union(first_panes_from(s, direction, i + 1)) =~= prev.to_set().union(
                        first_panes_from(s, direction, i as int),
                    ));
                }
                i += 1;
            }
            proof {
                assert(first_panes_from(s, direction, i as int) =~= Set::empty());
                assert(res@.to_set() =~= res@.to_set().union(Set::empty()));
            }
            res
        }
    }

    /// See [`PaneNode::panes_by_direction`].
    pub fn panes_by_direction(&self, pane_id: PaneId, direction: Direction) -> (r:
        FindPaneByDirectionResult)
        requires
            wf_tree(self@),
        ensures
            r.denotes(lookup_tree(self@, pane_id, direction)),
        decreases self,
    {
        let ghost s = trees_of(self.nodes@);
        let mut idx: usize = 0;
        while idx < self.nodes.len()
            invariant
                idx <= self.nodes.len(),
                s == trees_of(self.nodes@),
                wf_tree(self@),
                lookup_tree(self@, pane_id, direction) == lookup_from(
                    self.axis,
                    s,
                    pane_id,
                    direction,
                    idx as int,
                ),
            decreases self.nodes.len() - idx,
        {
            proof {
                lemma_trees_of_index(self.nodes@, idx as int);
                assert(wf_tree(s[idx as int].1));
            }
            let res = self.nodes[idx].1.panes_by_direction(pane_id, direction);
            match res {
                FindPaneByDirectionResult::Found(_) => {
                    return res;
                },
                FindPaneByDirectionResult::Located => {
                    if direction.axis() != self.axis {
                        return res;
                    }
                    match direction {
                        Direction::Left | Direction::Up => {
                            if idx == 0 {
                                return res;
                            }
                            proof {
                                lemma_trees_of_index(self.nodes@, idx - 1);
                                assert(wf_tree(s[idx - 1].1));
                            }
                            return FindPaneByDirectionResult::Found(
                                self.nodes[idx - 1].1.first_panes_in_direction(direction),
                            );
                        },
                        Direction::Right | Direction::Down => {
                            if idx == self.nodes.len() - 1 {
                                return res;
                            }
                            proof {
                                lemma_trees_of_index(self.nodes@, idx + 1);
                                assert(wf_tree(s[idx + 1].1));
                            }
                            return FindPaneByDirectionResult::Found(
                                self.nodes[idx + 1].1.first_panes_in_direction(direction),
                            );
                        },
                    }
                },
                FindPaneByDirectionResult::NotFound => {},
            }
            idx += 1;
        }
        FindPaneByDirectionResult::NotFound
    }

    /// Finds the pane next to `pane_id` in `direction`, but only if both are
    /// direct children of the same branch along `direction`'s axis.
    pub fn sibling_by_direction(&self, pane_id: PaneId, direction: Direction) -> (r: Option<PaneId>)
        ensures
            r == sibling_tree(self@, pane_id, direction),
        decreases self,
    {
        let ghost s = trees_of(self.nodes@);
        let mut idx: usize = 0;
        while idx < self.nodes.len()
            invariant
                idx <= self.nodes.len(),
                s == trees_of(self.nodes@),
                sibling_tree(self@, pane_id, direction) == sibling_from(
                    self.axis,
                    s,
                    pane_id,
                    direction,
                    idx as int,
                ),
            decreases self.nodes.len() - idx,
        {
            proof {
                lemma_trees_of_index(self.nodes@, idx as int);
            }
            match &self.nodes[idx].1 {
                PaneNode::Branch(branch) => {
                    if let Some(id) = branch.sibling_by_direction(pane_id, direction) {
                        return Some(id);
                    }
                },
                PaneNode::Leaf(id) => {
                    if direction.axis() == self.axis && *id == pane_id {
                        return match direction {
                            Direction::Left | Direction::Up => {
                                if idx == 0 {
                                    None
                                } else {
                                    proof {
                                        lemma_trees_of_index(self.nodes@, idx - 1);
                                    }
                                    match &self.nodes[idx - 1].1 {
                                        PaneNode::Leaf(id) => Some(*id),
                                        _ => None,
                                    }
                                }
                            },
                            Direction::Right | Direction::Down => {
                                if idx == self.nodes.len() - 1 {
                                    None
                                } else {
                                    proof {
                                        lemma_trees_of_index(self.nodes@, idx + 1);
                                    }
                                    match &self.nodes[idx + 1].1 {
                                        PaneNode::Leaf(id) => Some(*id),
                                        _ => None,
                                    }
                                }
                            },
                        };
                    }
                },
            }
            idx += 1;
        }
        None
    }

    /// The panes of the structural group bordering `pane_id` in `direction`
    /// (see [`group_tree`]).
    pub fn pane_group_by_direction(&self, pane_id: PaneId, direction: Direction) -> (r: Option<
        Vec<PaneId>,
    >)
        ensures
            r matches Some(v) ==> group_tree(self@, pane_id, direction) == Some(v@),
            r is None ==> group_tree(self@, pane_id, direction) is None,
        decreases self,
    {
        let ghost s = trees_of(self.nodes@);
        proof {
            lemma_first_child(s, pane_id);
        }
        let idx = match self.child_position(pane_id) {
            Some(i) => i,
            None => {
                return None;
            },
        };
        proof {
            assert(s.len() == self.nodes@.len());
            lemma_trees_of_index(self.nodes@, idx as int);
        }
        if let PaneNode::Branch(child) = &self.nodes[idx].1 {
            if let Some(group) = child.pane_group_by_direction(pane_id, direction) {
                return Some(group);
            }
        }
        if direction.axis() == self.axis {
            let adjacent = match direction {
                Direction::Left | Direction::Up => {
                    if idx == 0 {
                        return None;
                    }
                    idx - 1
                },
                Direction::Right | Direction::Down => {
                    if idx >= self.nodes.len() - 1 {
                        return None;
                    }
                    idx + 1
                },
            };
            proof {
                lemma_trees_of_index(self.nodes@, adjacent as int);
            }
            return Some(self.nodes[adjacent].1.pane_ids());
        }
        None
    }
}

/// The panes that are direct leaf children in a sequence of sibling trees, in order.
pub open spec fn direct_leaf_ids(s: Seq<(PaneFlex, Tree)>) -> Seq<PaneId>
    decreases s.len(),
{
    if s.len() == 0 {
        Seq::empty()
    } else {
        match s.last().1 {
            Tree::Leaf(id) => direct_leaf_ids(s.drop_last()).push(id),
            Tree::Branch(..) => direct_leaf_ids(s.drop_last()),
        }
    }
}

impl PaneNode {
    /// The branch this node is, if it is one.
    pub fn as_branch(&self) -> (r: Option<&PaneBranch>)
        ensures
            match self {
                PaneNode::Branch(b) => r == Some(b),
                PaneNode::Leaf(_) => r is None,
            },
    {
        match self {
            PaneNode::Branch(branch) => Some(branch),
            PaneNode::Leaf(_) => None,
        }
    }

    /// The pane this node is, if it is a leaf.
    pub fn as_leaf(&self) -> (r: Option<PaneId>)
        ensures
            match self {
                PaneNode::Leaf(id) => r == Some(*id),
                PaneNode::Branch(_) => r is None,
            },
    {
        match self {
            PaneNode::Leaf(id) => Some(*id),
            PaneNode::Branch(_) => None,
        }
    }
}

impl PaneBranch {
    /// The axis along which this branch lays out its children.
    pub fn axis(&self) -> (r: SplitDirection)
        ensures
            r == self.axis,
    {
        self.axis
    }

    /// The child node at `index`.
    pub fn node(&self, index: usize) -> (r: &PaneNode)
        requires
            index < self.nodes@.len(),
        ensures
            *r == self.nodes@[index as int].1,
    {
        &self.nodes[index].1
    }

    /// The panes that are direct leaf children of this branch, in order.
    pub fn direct_children(&self) -> (r: Vec<PaneId>)
        ensures
            r@ == direct_leaf_ids(trees_of(self.nodes@)),
    {
        let ghost s = trees_of(self.nodes@);
        let mut res: Vec<PaneId> = Vec::new();
        let mut i: usize = 0;
        while i < self.nodes.len()
            invariant
                i <= self.nodes.len(),
                s == trees_of(self.nodes@),
                res@ == direct_leaf_ids(s.take(i as int)),
            decreases self.nodes.len() - i,
        {
            proof {
                lemma_trees_of_index(self.nodes@, i as int);
                assert(s.take(i + 1).drop_last() =~= s.take(i as int));
            }
            match &self.nodes[i].1 {
                PaneNode::Leaf(id) => res.push(*id),
                PaneNode::Branch(_) => {},
            }
            i += 1;
        }
        proof {
            assert(s.take(self.nodes.len() as int) =~= s);
        }
        res
    }
}

impl PaneNode {
    /// Whether the node is well formed: every branch has at least two children and one
    /// divider between each pair of neighbors.
    pub fn is_well_formed(&self) -> (r: bool)
        ensures
            r == wf_tree(self@),
        decreases self,
    {
        match self {
            PaneNode::Leaf(_) => true,
            PaneNode::Branch(b) => b.is_well_formed(),
        }
    }
}

impl PaneBranch {
    /// Whether the branch is well formed (see [`PaneNode::is_well_formed`]).
    pub fn is_well_formed(&self) -> (r: bool)
        ensures
            r == wf_tree(self@),
        decreases self,
    {
        let ghost s = trees_of(self.nodes@);
        if self.nodes.len() < 2 || self.dividers.len() != self.nodes.len() - 1 {
            return false;
        }
        let mut i: usize = 0;
        while i < self.nodes.len()
            invariant
                i <= self.nodes.len(),
                s == trees_of(self.nodes@),
                forall|k: int| 0 <= k < i ==> wf_tree(#[trigger] s[k].1),
            decreases self.nodes.len() - i,
        {
            proof {
                lemma_trees_of_index(self.nodes@, i as int);
            }
            if !self.nodes[i].1.is_well_formed() {
                proof {
                    assert(!wf_tree(s[i as int].1));
                }
                return false;
            }
            i += 1;
        }
        true
    }
}

/// The larger of two bounds.
pub open spec fn max_nat(a: nat, b: nat) -> nat {
    if a >= b {
        a
    } else {
        b
    }
}

/// One more than the largest divider id in the tree; 0 when it has no divider.
pub open spec fn divider_bound(t: Tree) -> nat
    decreases t, 0int,
{
    match t {
        Tree::Leaf(_) => 0,
        Tree::Branch(_, s, ds) => max_nat(dividers_bound(ds, 0), children_bound(s, 0)),
    }
}

/// One more than the largest id of `ds[i..]`; 0 when there is none.
pub open spec fn dividers_bound(ds: Seq<Divider>, i: int) -> nat
    decreases ds.len() - i,
{
    if i < 0 || i >= ds.len() {
        0
    } else {
        max_nat((ds[i].id + 1) as nat, dividers_bound(ds, i + 1))
    }
}

/// The largest [`divider_bound`] of the siblings `s[i..]`; 0 when there is none.
pub open spec fn children_bound(s: Seq<(PaneFlex, Tree)>, i: int) -> nat
    decreases s, s.len() - i,
{
    if i < 0 || i >= s.len() {
        0
    } else {
        max_nat(divider_bound(s[i].1), children_bound(s, i + 1))
    }
}

impl PaneNode {
    /// One more than the largest divider id in this node; 0 when it has none.
    pub fn divider_id_bound(&self) -> (r: u128)
        ensures
            r == divider_bound(self@),
            r <= u64::MAX + 1,
        decreases self,
    {
        match self {
            PaneNode::Leaf(_) => 0,
            PaneNode::Branch(b) => b.divider_id_bound(),
        }
    }
}

impl PaneBranch {
    /// One more than the largest divider id in this branch; 0 when it has none.
    pub fn divider_id_bound(&self) -> (r: u128)
        ensures
            r == divider_bound(self@),
            r <= u64::MAX + 1,
        decreases self,
    {
        let mut own: u128 = 0;
        let mut k: usize = self.dividers.len();
        while k > 0
            invariant
                k <= self.dividers.len(),
                own == dividers_bound(self.dividers@, k as int),
                own <= u64::MAX + 1,
            decreases k,
        {
            k -= 1;
            let b = self.dividers[k].id as u128 + 1;
            if b >= own {
                own = b;
            }
        }
        let ghost s = trees_of(self.nodes@);
        let mut below: u128 = 0;
        let mut i: usize = self.nodes.len();
        while i > 0
            invariant
                i <= self.nodes.len(),
                s == trees_of(self.nodes@),
                below == children_bound(s, i as int),
                below <= u64::MAX + 1,
            decreases i,
        {
            i -= 1;
            proof {
                lemma_trees_of_index(self.nodes@, i as int);
            }
            let b = self.nodes[i].1.divider_id_bound();
            if b >= below {
                below = b;
            }
        }
        if own >= below {
            own
        } else {
            below
        }
    }
}

} // verus!
