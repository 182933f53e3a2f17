use vstd::prelude::*;

use crate::direction::Direction;
use crate::tree::{
    children_bound, divider_bound, dividers_bound, max_nat, default_flex, first_child, insert_tree, leaves, leaves_of, lemma_first_child,
    lemma_insert_in_middle, lemma_remove_in_middle, pair_tree, remove_tree, replace_tree,
    split_tree, wf_tree, Divider, PaneFlex, PaneId, Tree,
};

verus! {

/// The ids of the dividers of a tree: a branch's own, then those of its nodes in order.
pub open spec fn divider_ids(t: Tree) -> Seq<u64>
    decreases t,
{
    match t {
        Tree::Leaf(_) => Seq::empty(),
        Tree::Branch(_, s, ds) => ds.map_values(|d: Divider| d.id) + divider_ids_of(s),
    }
}

/// The divider ids of a sequence of sibling trees, in order.
pub open spec fn divider_ids_of(s: Seq<(PaneFlex, Tree)>) -> Seq<u64>
    decreases s,
{
    if s.len() == 0 {
        Seq::empty()
    } else {
        divider_ids_of(s.drop_last()) + divider_ids(s.last().1)
    }
}

/// No two dividers of the tree share an id, and every id is below `n`, the next id to be
/// handed out.
pub open spec fn dividers_fresh(t: Tree, n: int) -> bool {
    &&& divider_ids(t).no_duplicates()
    &&& forall|k: int| 0 <= k < divider_ids(t).len() ==> #[trigger] divider_ids(t)[k] < n
}

proof fn lemma_ids_of_single(x: (PaneFlex, Tree))
    ensures
        divider_ids_of(seq![x]) == divider_ids(x.1),
{
    assert(seq![x].drop_last() =~= Seq::<(PaneFlex, Tree)>::empty());
    assert(divider_ids_of(Seq::<(PaneFlex, Tree)>::empty()) == Seq::<u64>::empty());
    assert(Seq::<u64>::empty() + divider_ids(x.1) =~= divider_ids(x.1));
}

proof fn lemma_ids_of_concat(a: Seq<(PaneFlex, Tree)>, b: Seq<(PaneFlex, Tree)>)
    ensures
        divider_ids_of(a + b) == divider_ids_of(a) + divider_ids_of(b),
    decreases b.len(),
{
    if b.len() == 0 {
        assert(a + b =~= a);
        assert(divider_ids_of(a) + divider_ids_of(b) =~= divider_ids_of(a));
    } else {
        lemma_ids_of_concat(a, b.drop_last());
        assert((a + b).drop_last() =~= a + b.drop_last());
        assert((a + b).last() == b.last());
        assert(divider_ids_of(a) + divider_ids_of(b.drop_last()) + divider_ids(b.last().1) =~= divider_ids_of(
            a,
        ) + (divider_ids_of(b.drop_last()) + divider_ids(b.last().1)));
    }
}

/// The divider ids of siblings around index `i`.
proof fn lemma_ids_of_split(s: Seq<(PaneFlex, Tree)>, i: int)
    requires
        0 <= i < s.len(),
    ensures
        divider_ids_of(s) == divider_ids_of(s.take(i)) + divider_ids(s[i].1) + divider_ids_of(
            s.skip(i + 1),
        ),
{
    assert(s =~= s.take(i) + seq![s[i]] + s.skip(i + 1));
    lemma_ids_of_concat(s.take(i) + seq![s[i]], s.skip(i + 1));
    lemma_ids_of_concat(s.take(i), seq![s[i]]);
    lemma_ids_of_single(s[i]);
}

proof fn lemma_ids_of_update(s: Seq<(PaneFlex, Tree)>, i: int, x: (PaneFlex, Tree))
    requires
        0 <= i < s.len(),
    ensures
        divider_ids_of(s.update(i, x)) == divider_ids_of(s.take(i)) + divider_ids(x.1)
            + divider_ids_of(s.skip(i + 1)),
{
    let u = s.update(i, x);
    lemma_ids_of_split(u, i);
    assert(u.take(i) =~= s.take(i));
    assert(u.skip(i + 1) =~= s.skip(i + 1));
}

/// Adding or taking out a leaf node changes no divider id of the siblings.
proof fn lemma_ids_of_leaf_insert(s: Seq<(PaneFlex, Tree)>, i: int, x: (PaneFlex, Tree))
    requires
        0 <= i <= s.len(),
        x.1 is Leaf,
    ensures
        divider_ids_of(s.insert(i, x)) == divider_ids_of(s),
{
    let u = s.insert(i, x);
    assert(u =~= s.take(i) + seq![x] + s.skip(i));
    assert(s =~= s.take(i) + s.skip(i));
    lemma_ids_of_concat(s.take(i) + seq![x], s.skip(i));
    lemma_ids_of_concat(s.take(i), seq![x]);
    lemma_ids_of_concat(s.take(i), s.skip(i));
    lemma_ids_of_single(x);
    assert(divider_ids_of(s.take(i)) + Seq::<u64>::empty() =~= divider_ids_of(s.take(i)));
}

proof fn lemma_ids_of_leaf_remove(s: Seq<(PaneFlex, Tree)>, i: int)
    requires
        0 <= i < s.len(),
        s[i].1 is Leaf,
    ensures
        divider_ids_of(s.remove(i)) == divider_ids_of(s),
{
    let r = s.remove(i);
    assert(r.insert(i, s[i]) =~= s);
    lemma_ids_of_leaf_insert(r, i, s[i]);
}

/// A two-pane branch made by a split holds just the new divider.
proof fn lemma_pair_ids(p: PaneId, new: PaneId, direction: Direction, d: Divider)
    ensures
        divider_ids(pair_tree(Tree::Leaf(p), Tree::Leaf(new), direction, d)) == seq![d.id],
{
    let pt = pair_tree(Tree::Leaf(p), Tree::Leaf(new), direction, d);
    let ps = pt->Branch_1;
    assert(ps =~= seq![ps[0]] + seq![ps[1]]);
    lemma_ids_of_concat(seq![ps[0]], seq![ps[1]]);
    lemma_ids_of_single(ps[0]);
    lemma_ids_of_single(ps[1]);
    assert(seq![d].map_values(|x: Divider| x.id) =~= seq![d.id]);
    assert(divider_ids(pt) =~= seq![d.id]);
}

/// Replacing node `i` by one whose ids are those of node `i` with `n` inserted at `k`.
proof fn lemma_ids_nested(
    axis: crate::direction::SplitDirection,
    s: Seq<(PaneFlex, Tree)>,
    ds: Seq<Divider>,
    i: int,
    c: Tree,
    k: int,
    n: u64,
)
    requires
        0 <= i < s.len(),
        0 <= k <= divider_ids(s[i].1).len(),
        divider_ids(s[i].1).insert(k, n) == divider_ids(c),
    ensures
        ({
            let pos = ds.len() + divider_ids_of(s.take(i)).len() + k;
            &&& 0 <= pos <= divider_ids(Tree::Branch(axis, s, ds)).len()
            &&& divider_ids(Tree::Branch(axis, s, ds)).insert(pos, n) == divider_ids(
                Tree::Branch(axis, s.update(i, (s[i].0, c)), ds),
            )
        }),
{
    let dd = ds.map_values(|x: Divider| x.id);
    let a = divider_ids_of(s.take(i));
    let b = divider_ids_of(s.skip(i + 1));
    lemma_ids_of_split(s, i);
    lemma_ids_of_update(s, i, (s[i].0, c));
    lemma_insert_in_middle(dd + a, divider_ids(s[i].1), b, k, n);
    assert(dd + a + divider_ids(c) + b =~= dd + (a + divider_ids(c) + b));
    assert(dd + a + divider_ids(s[i].1) + b =~= dd + (a + divider_ids(s[i].1) + b));
}

/// Inserting a leaf node and the divider `d` at index `i` of the branch's own dividers.
proof fn lemma_ids_same_axis(
    axis: crate::direction::SplitDirection,
    s: Seq<(PaneFlex, Tree)>,
    ds: Seq<Divider>,
    i: int,
    pos: int,
    x: (PaneFlex, Tree),
    d: Divider,
)
    requires
        0 <= i <= ds.len(),
        0 <= pos <= s.len(),
        x.1 is Leaf,
    ensures
        divider_ids(Tree::Branch(axis, s, ds)).insert(i, d.id) == divider_ids(
            Tree::Branch(axis, s.insert(pos, x), ds.insert(i, d)),
        ),
{
    let dd = ds.map_values(|y: Divider| y.id);
    lemma_ids_of_leaf_insert(s, pos, x);
    assert(ds.insert(i, d).map_values(|y: Divider| y.id) =~= dd.insert(i, d.id));
    lemma_insert_in_middle(Seq::<u64>::empty(), dd, divider_ids_of(s), i, d.id);
    assert(Seq::<u64>::empty() + dd.insert(i, d.id) + divider_ids_of(s) =~= dd.insert(i, d.id)
        + divider_ids_of(s));
    assert(Seq::<u64>::empty() + dd + divider_ids_of(s) =~= dd + divider_ids_of(s));
}

/// Splitting a pane adds the new divider's id once to the divider ids and keeps the others
/// in order; splitting a pane that is not there changes nothing.
pub proof fn lemma_split_divider_ids(t: Tree, old: PaneId, new: PaneId, direction: Direction, d: Divider)
    requires
        wf_tree(t),
    ensures
        leaves(t).contains(old) ==> exists|k: int|
            0 <= k <= divider_ids(t).len() && #[trigger] divider_ids(t).insert(k, d.id) == divider_ids(
                split_tree(t, old, new, direction, d),
            ),
        !leaves(t).contains(old) ==> split_tree(t, old, new, direction, d) == t,
    decreases t,
{
    let n = d.id;
    match t {
        Tree::Leaf(p) => {
            if p == old {
                lemma_pair_ids(old, new, direction, d);
                assert(divider_ids(t).insert(0, n) =~= seq![n]);
                assert(leaves(t)[0] == old);
            } else {
                assert(leaves(t)[0] == p);
                assert(!leaves(t).contains(old)) by {
                    if leaves(t).contains(old) {
                        let k = choose|k: int| 0 <= k < leaves(t).len() && leaves(t)[k] == old;
                    }
                }
                assert(split_tree(t, old, new, direction, d) == t);
            }
        },
        Tree::Branch(axis, s, ds) => {
            assert(leaves(t) == leaves_of(s));
            lemma_first_child(s, old);
            let i = first_child(s, old);
            if i >= 0 {
                match s[i].1 {
                    Tree::Branch(..) => {
                        let ci = split_tree(s[i].1, old, new, direction, d);
                        lemma_split_divider_ids(s[i].1, old, new, direction, d);
                        let k = choose|k: int|
                            0 <= k <= divider_ids(s[i].1).len() && #[trigger] divider_ids(s[i].1).insert(
                                k,
                                n,
                            ) == divider_ids(ci);
                        lemma_ids_nested(axis, s, ds, i, ci, k, n);
                        let pos = ds.len() + divider_ids_of(s.take(i)).len() + k;
                        assert(divider_ids(t).insert(pos, n) == divider_ids(split_tree(t, old, new, direction, d)));
                    },
                    Tree::Leaf(p) => {
                        assert(leaves(s[i].1) == seq![p]);
                        assert(p == old) by {
                            let k = choose|k: int| 0 <= k < leaves(s[i].1).len() && leaves(s[i].1)[k] == old;
                        }
                        if direction.spec_axis() == axis {
                            let pos = if direction.is_leading() {
                                i
                            } else {
                                i + 1
                            };
                            lemma_ids_same_axis(axis, s, ds, i, pos, (default_flex(), Tree::Leaf(new)), d);
                            assert(divider_ids(t).insert(i, n) == divider_ids(split_tree(t, old, new, direction, d)));
                        } else {
                            let pt = pair_tree(Tree::Leaf(p), Tree::Leaf(new), direction, d);
                            lemma_pair_ids(p, new, direction, d);
                            assert(divider_ids(s[i].1).insert(0, n) =~= divider_ids(pt));
                            lemma_ids_nested(axis, s, ds, i, pt, 0, n);
                            let pos = (ds.len() + divider_ids_of(s.take(i)).len()) as int;
                            assert(divider_ids(t).insert(pos, n) == divider_ids(split_tree(t, old, new, direction, d)));
                        }
                    },
                }
            } else {
                assert(split_tree(t, old, new, direction, d) == t);
            }
        },
    }
}

/// Replacing node `i` by one whose ids are those of node `i` with entry `k` taken out.
proof fn lemma_ids_nested_remove(
    axis: crate::direction::SplitDirection,
    s: Seq<(PaneFlex, Tree)>,
    ds: Seq<Divider>,
    i: int,
    c: Tree,
    k: int,
)
    requires
        0 <= i < s.len(),
        0 <= k < divider_ids(s[i].1).len(),
        divider_ids(s[i].1).remove(k) == divider_ids(c),
    ensures
        ({
            let pos = ds.len() + divider_ids_of(s.take(i)).len() + k;
            &&& 0 <= pos < divider_ids(Tree::Branch(axis, s, ds)).len()
            &&& divider_ids(Tree::Branch(axis, s, ds)).remove(pos) == divider_ids(
                Tree::Branch(axis, s.update(i, (s[i].0, c)), ds),
            )
        }),
{
    let dd = ds.map_values(|x: Divider| x.id);
    let a = divider_ids_of(s.take(i));
    let b = divider_ids_of(s.skip(i + 1));
    lemma_ids_of_split(s, i);
    lemma_ids_of_update(s, i, (s[i].0, c));
    lemma_remove_in_middle(dd + a, divider_ids(s[i].1), b, k);
    assert(dd + a + divider_ids(c) + b =~= dd + (a + divider_ids(c) + b));
    assert(dd + a + divider_ids(s[i].1) + b =~= dd + (a + divider_ids(s[i].1) + b));
}

/// Removing a pane takes exactly one divider id out of the divider ids and keeps the
/// others in order.
pub proof fn lemma_remove_divider_ids(t: Tree, id: PaneId)
    requires
        wf_tree(t),
        remove_tree(t, id) is Some,
    ensures
        exists|k: int|
            0 <= k < divider_ids(t).len() && #[trigger] divider_ids(t).remove(k) == divider_ids(
                remove_tree(t, id)->Some_0,
            ),
    decreases t,
{
    if let Tree::Branch(axis, s, ds) = t {
        lemma_first_child(s, id);
        let i = first_child(s, id);
        let dd = ds.map_values(|x: Divider| x.id);
        match s[i].1 {
            Tree::Branch(..) => {
                let c = remove_tree(s[i].1, id)->Some_0;
                lemma_remove_divider_ids(s[i].1, id);
                let k = choose|k: int|
                    0 <= k < divider_ids(s[i].1).len() && #[trigger] divider_ids(s[i].1).remove(k)
                        == divider_ids(c);
                lemma_ids_nested_remove(axis, s, ds, i, c, k);
                let pos = ds.len() + divider_ids_of(s.take(i)).len() + k;
                assert(divider_ids(t).remove(pos) == divider_ids(remove_tree(t, id)->Some_0));
            },
            Tree::Leaf(_) => {
                let s2 = s.remove(i);
                let j = if i < ds.len() - 1 {
                    i
                } else {
                    ds.len() - 1
                };
                lemma_ids_of_leaf_remove(s, i);
                assert(ds.remove(j).map_values(|x: Divider| x.id) =~= dd.remove(j));
                assert(dd.remove(j) + divider_ids_of(s) =~= (dd + divider_ids_of(s)).remove(j));
                if s2.len() == 1 {
                    lemma_ids_of_single(s2[0]);
                    assert(s2 =~= seq![s2[0]]);
                    assert(dd.remove(j) =~= Seq::<u64>::empty());
                    assert(Seq::<u64>::empty() + divider_ids_of(s) =~= divider_ids_of(s));
                }
                assert(divider_ids(t).remove(j) == divider_ids(remove_tree(t, id)->Some_0));
            },
        }
    }
}

/// Replacing a pane leaves the divider ids as they are.
pub proof fn lemma_replace_divider_ids(t: Tree, old: PaneId, new: PaneId)
    ensures
        divider_ids(replace_tree(t, old, new)) == divider_ids(t),
    decreases t,
{
    if let Tree::Branch(axis, s, ds) = t {
        lemma_first_child(s, old);
        let i = first_child(s, old);
        if i >= 0 {
            lemma_replace_divider_ids(s[i].1, old, new);
            lemma_ids_of_split(s, i);
            lemma_ids_of_update(s, i, (s[i].0, replace_tree(s[i].1, old, new)));
        }
    }
}

/// Splitting the root adds the new divider's id once to the divider ids.
pub proof fn lemma_insert_divider_ids(t: Tree, new: PaneId, direction: Direction, d: Divider)
    requires
        wf_tree(t),
    ensures
        exists|k: int|
            0 <= k <= divider_ids(t).len() && #[trigger] divider_ids(t).insert(k, d.id) == divider_ids(
                insert_tree(t, new, direction, d),
            ),
{
    let n = d.id;
    let x = (default_flex(), Tree::Leaf(new));
    match t {
        Tree::Branch(axis, s, ds) => {
            if direction.spec_axis() == axis {
                if direction.is_leading() {
                    lemma_ids_same_axis(axis, s, ds, 0, 0, x, d);
                    assert(s.insert(0, x) =~= seq![x] + s);
                    assert(ds.insert(0, d) =~= seq![d] + ds);
                    assert(divider_ids(t).insert(0, n) == divider_ids(insert_tree(t, new, direction, d)));
                } else {
                    lemma_ids_same_axis(axis, s, ds, ds.len() as int, s.len() as int, x, d);
                    assert(s.insert(s.len() as int, x) =~= s.push(x));
                    assert(ds.insert(ds.len() as int, d) =~= ds.push(d));
                    assert(divider_ids(t).insert(ds.len() as int, n) == divider_ids(
                        insert_tree(t, new, direction, d),
                    ));
                }
            } else {
                lemma_pair_insert_ids(t, new, direction, d);
            }
        },
        Tree::Leaf(_) => {
            lemma_pair_insert_ids(t, new, direction, d);
        },
    }
}

/// A root wrapped whole with the new pane beside it gains the new divider first.
proof fn lemma_pair_insert_ids(t: Tree, new: PaneId, direction: Direction, d: Divider)
    ensures
        divider_ids(t).insert(0, d.id) == divider_ids(pair_tree(t, Tree::Leaf(new), direction, d)),
{
    let pt = pair_tree(t, Tree::Leaf(new), direction, d);
    let ps = pt->Branch_1;
    assert(ps =~= seq![ps[0]] + seq![ps[1]]);
    lemma_ids_of_concat(seq![ps[0]], seq![ps[1]]);
    lemma_ids_of_single(ps[0]);
    lemma_ids_of_single(ps[1]);
    assert(seq![d].map_values(|x: Divider| x.id) =~= seq![d.id]);
    assert(divider_ids(Tree::Leaf(new)) =~= Seq::<u64>::empty());
    if direction.is_leading() {
        assert(divider_ids_of(ps) =~= divider_ids(t));
    } else {
        assert(divider_ids_of(ps) =~= divider_ids(t));
    }
    assert(divider_ids(t).insert(0, d.id) =~= seq![d.id] + divider_ids(t));
}

/// Adding the next id keeps the ids fresh, one higher.
proof fn lemma_fresh_insert(ids: Seq<u64>, k: int, n: u64)
    requires
        0 <= k <= ids.len(),
        ids.no_duplicates(),
        forall|j: int| 0 <= j < ids.len() ==> #[trigger] ids[j] < n,
    ensures
        ids.insert(k, n).no_duplicates(),
        forall|j: int| 0 <= j < ids.insert(k, n).len() ==> #[trigger] ids.insert(k, n)[j] < n + 1,
{
    let r = ids.insert(k, n);
    assert forall|a: int, b: int| 0 <= a < r.len() && 0 <= b < r.len() && a != b implies r[a] != r[b] by {
        let ia = if a < k { a } else if a == k { -1 } else { a - 1 };
        let ib = if b < k { b } else if b == k { -1 } else { b - 1 };
        if ia >= 0 {
            assert(r[a] == ids[ia]);
        }
        if ib >= 0 {
            assert(r[b] == ids[ib]);
        }
    }
    assert forall|j: int| 0 <= j < r.len() implies #[trigger] r[j] < n + 1 by {
        if j < k {
            assert(r[j] == ids[j]);
        } else if j > k {
            assert(r[j] == ids[j - 1]);
        }
    }
}

/// Taking an id out keeps the ids fresh.
proof fn lemma_fresh_remove(ids: Seq<u64>, k: int, n: int)
    requires
        0 <= k < ids.len(),
        ids.no_duplicates(),
        forall|j: int| 0 <= j < ids.len() ==> #[trigger] ids[j] < n,
    ensures
        ids.remove(k).no_duplicates(),
        forall|j: int| 0 <= j < ids.remove(k).len() ==> #[trigger] ids.remove(k)[j] < n,
{
    let r = ids.remove(k);
    assert forall|a: int, b: int| 0 <= a < r.len() && 0 <= b < r.len() && a != b implies r[a] != r[b] by {
        let ia = if a < k { a } else { a + 1 };
        let ib = if b < k { b } else { b + 1 };
        assert(r[a] == ids[ia]);
        assert(r[b] == ids[ib]);
    }
    assert forall|j: int| 0 <= j < r.len() implies #[trigger] r[j] < n by {
        if j < k {
            assert(r[j] == ids[j]);
        } else {
            assert(r[j] == ids[j + 1]);
        }
    }
}

/// Splitting a pane with the next divider id keeps every divider id distinct and below the
/// next one, which moves up by one.
pub proof fn law_split_keeps_dividers_fresh(
    t: Tree,
    old: PaneId,
    new: PaneId,
    direction: Direction,
    n: u64,
)
    requires
        wf_tree(t),
        dividers_fresh(t, n as int),
    ensures
        dividers_fresh(
            split_tree(t, old, new, direction, Divider { id: n }),
            if leaves(t).contains(old) {
                n + 1
            } else {
                n as int
            },
        ),
{
    let d = Divider { id: n };
    lemma_split_divider_ids(t, old, new, direction, d);
    if leaves(t).contains(old) {
        let k = choose|k: int|
            0 <= k <= divider_ids(t).len() && #[trigger] divider_ids(t).insert(k, d.id) == divider_ids(
                split_tree(t, old, new, direction, d),
            );
        lemma_fresh_insert(divider_ids(t), k, n);
    }
}

/// Splitting the root with the next divider id keeps every divider id distinct and below
/// the next one, which moves up by one.
pub proof fn law_split_root_keeps_dividers_fresh(t: Tree, new: PaneId, direction: Direction, n: u64)
    requires
        wf_tree(t),
        dividers_fresh(t, n as int),
    ensures
        dividers_fresh(insert_tree(t, new, direction, Divider { id: n }), n + 1),
{
    let d = Divider { id: n };
    lemma_insert_divider_ids(t, new, direction, d);
    let k = choose|k: int|
        0 <= k <= divider_ids(t).len() && #[trigger] divider_ids(t).insert(k, d.id) == divider_ids(
            insert_tree(t, new, direction, d),
        );
    lemma_fresh_insert(divider_ids(t), k, n);
}

/// Removing a pane keeps every divider id distinct and below the next one.
pub proof fn law_remove_keeps_dividers_fresh(t: Tree, id: PaneId, n: int)
    requires
        wf_tree(t),
        dividers_fresh(t, n),
        remove_tree(t, id) is Some,
    ensures
        dividers_fresh(remove_tree(t, id)->Some_0, n),
{
    lemma_remove_divider_ids(t, id);
    let k = choose|k: int|
        0 <= k < divider_ids(t).len() && #[trigger] divider_ids(t).remove(k) == divider_ids(
            remove_tree(t, id)->Some_0,
        );
    lemma_fresh_remove(divider_ids(t), k, n);
}

/// Moving a pane (taking it out, then splitting the target with the next divider id) keeps
/// every divider id distinct and below the next one.
pub proof fn law_move_keeps_dividers_fresh(
    t: Tree,
    id: PaneId,
    target: PaneId,
    direction: Direction,
    n: u64,
)
    requires
        wf_tree(t),
        dividers_fresh(t, n as int),
        remove_tree(t, id) is Some,
    ensures
        dividers_fresh(
            split_tree(remove_tree(t, id)->Some_0, target, id, direction, Divider { id: n }),
            n + 1,
        ),
{
    crate::tree::lemma_remove_tree(t, id);
    law_remove_keeps_dividers_fresh(t, id, n as int);
    let r = remove_tree(t, id)->Some_0;
    law_split_keeps_dividers_fresh(r, target, id, direction, n);
    if !leaves(r).contains(target) {
        assert forall|k: int| 0 <= k < divider_ids(r).len() implies #[trigger] divider_ids(r)[k] < n + 1 by {}
    }
}

/// Replacing a pane keeps the divider ids as they are.
pub proof fn law_replace_keeps_dividers_fresh(t: Tree, old: PaneId, new: PaneId, n: int)
    requires
        dividers_fresh(t, n),
    ensures
        dividers_fresh(replace_tree(t, old, new), n),
{
    lemma_replace_divider_ids(t, old, new);
}

proof fn lemma_dividers_bound(ds: Seq<Divider>, i: int, j: int)
    requires
        0 <= i <= j < ds.len(),
    ensures
        ds[j].id < dividers_bound(ds, i),
    decreases j - i,
{
    if i < j {
        lemma_dividers_bound(ds, i + 1, j);
    }
}

proof fn lemma_children_bound(s: Seq<(PaneFlex, Tree)>, i: int, j: int)
    requires
        0 <= i <= j < s.len(),
    ensures
        divider_bound(s[j].1) <= children_bound(s, i),
    decreases j - i,
{
    if i < j {
        lemma_children_bound(s, i + 1, j);
    }
}

proof fn lemma_ids_of_all_below(s: Seq<(PaneFlex, Tree)>, b: int)
    requires
        forall|j: int, k: int|
            0 <= j < s.len() && 0 <= k < divider_ids(s[j].1).len() ==> #[trigger] divider_ids(
                s[j].1,
            )[k] < b,
    ensures
        forall|k: int| 0 <= k < divider_ids_of(s).len() ==> #[trigger] divider_ids_of(s)[k] < b,
    decreases s.len(),
{
    if s.len() > 0 {
        let p = s.drop_last();
        assert forall|j: int, k: int|
            0 <= j < p.len() && 0 <= k < divider_ids(p[j].1).len() implies #[trigger] divider_ids(
            p[j].1,
        )[k] < b by {
            assert(p[j] == s[j]);
        }
        lemma_ids_of_all_below(p, b);
        let a = divider_ids_of(p);
        let c = divider_ids(s.last().1);
        assert forall|k: int| 0 <= k < divider_ids_of(s).len() implies #[trigger] divider_ids_of(s)[k] < b by {
            if k >= a.len() {
                assert(divider_ids_of(s)[k] == c[k - a.len()]);
                assert(s.last() == s[s.len() - 1]);
            } else {
                assert(divider_ids_of(s)[k] == a[k]);
            }
        }
    }
}

/// Every divider id of a tree is below its divider bound.
pub proof fn lemma_ids_below_bound(t: Tree)
    ensures
        forall|k: int| 0 <= k < divider_ids(t).len() ==> #[trigger] divider_ids(t)[k] < divider_bound(t),
    decreases t,
{
    if let Tree::Branch(_, s, ds) = t {
        let dd = ds.map_values(|x: Divider| x.id);
        let b = children_bound(s, 0) as int;
        assert forall|j: int, k: int|
            0 <= j < s.len() && 0 <= k < divider_ids(s[j].1).len() implies #[trigger] divider_ids(
            s[j].1,
        )[k] < b by {
            lemma_ids_below_bound(s[j].1);
            lemma_children_bound(s, 0, j);
        }
        lemma_ids_of_all_below(s, b);
        assert forall|k: int| 0 <= k < divider_ids(t).len() implies #[trigger] divider_ids(t)[k] < divider_bound(t) by {
            if k < dd.len() {
                lemma_dividers_bound(ds, 0, k);
                assert(divider_ids(t)[k] == ds[k].id);
            } else {
                assert(divider_ids(t)[k] == divider_ids_of(s)[k - dd.len()]);
            }
        }
    }
}

/// A branch made of nodes whose divider ids are all distinct, with its own dividers
/// numbered from the nodes' divider bound on, has every divider id distinct and below the
/// next id after them.
pub proof fn law_new_branch_dividers_fresh(
    axis: crate::direction::SplitDirection,
    s: Seq<(PaneFlex, Tree)>,
)
    requires
        s.len() >= 1,
        children_bound(s, 0) + s.len() - 1 <= u64::MAX,
        divider_ids_of(s).no_duplicates(),
    ensures
        ({
            let base = children_bound(s, 0) as int;
            let m = s.len() - 1;
            &&& dividers_fresh(
                Tree::Branch(axis, s, Seq::new(m as nat, |k: int| Divider { id: (base + k) as u64 })),
                base + m,
            )
            &&& s.len() == 1 ==> dividers_fresh(s[0].1, base)
        }),
{
    let base = children_bound(s, 0) as int;
    let m = s.len() - 1;
    let b = base;
    assert forall|j: int, k: int|
        0 <= j < s.len() && 0 <= k < divider_ids(s[j].1).len() implies #[trigger] divider_ids(
        s[j].1,
    )[k] < b by {
        lemma_ids_below_bound(s[j].1);
        lemma_children_bound(s, 0, j);
    }
    lemma_ids_of_all_below(s, b);
    if s.len() == 1 {
        lemma_ids_of_single(s[0]);
        assert(s =~= seq![s[0]]);
    }
    {
        let ds = Seq::new(m as nat, |k: int| Divider { id: (base + k) as u64 });
        let dd = ds.map_values(|x: Divider| x.id);
        let ids = divider_ids(Tree::Branch(axis, s, ds));
        let o = divider_ids_of(s);
        assert(ids == dd + o);
        assert forall|k: int| 0 <= k < dd.len() implies #[trigger] dd[k] == base + k by {}
        assert forall|x: int, y: int| 0 <= x < ids.len() && 0 <= y < ids.len() && x != y implies ids[x]
            != ids[y] by {
            if x < dd.len() && y < dd.len() {
                assert(ids[x] == dd[x] && ids[y] == dd[y]);
            } else if x < dd.len() {
                assert(ids[x] == dd[x] && ids[y] == o[y - dd.len()]);
            } else if y < dd.len() {
                assert(ids[y] == dd[y] && ids[x] == o[x - dd.len()]);
            } else {
                assert(ids[x] == o[x - dd.len()] && ids[y] == o[y - dd.len()]);
            }
        }
        assert forall|k: int| 0 <= k < ids.len() implies #[trigger] ids[k] < base + m by {
            if k < dd.len() {
                assert(ids[k] == dd[k]);
            } else {
                assert(ids[k] == o[k - dd.len()]);
            }
        }
    }
}

proof fn lemma_ids_of_same(s: Seq<(PaneFlex, Tree)>, s1: Seq<(PaneFlex, Tree)>)
    requires
        s.len() == s1.len(),
        forall|j: int| 0 <= j < s.len() ==> divider_ids(#[trigger] s1[j].1) == divider_ids(s[j].1),
    ensures
        divider_ids_of(s1) == divider_ids_of(s),
    decreases s.len(),
{
    if s.len() > 0 {
        let p = s.drop_last();
        let p1 = s1.drop_last();
        assert forall|j: int| 0 <= j < p.len() implies divider_ids(#[trigger] p1[j].1) == divider_ids(p[j].1) by {
            assert(p1[j] == s1[j] && p[j] == s[j]);
        }
        lemma_ids_of_same(p, p1);
        assert(s1.last() == s1[s.len() - 1]);
        assert(s.last() == s[s.len() - 1]);
    }
}

/// Evening out the pane sizes leaves the divider ids as they are.
pub proof fn law_distribute_keeps_dividers(
    t: Tree,
    axis: crate::direction::SplitDirection,
    hidden: Seq<crate::hidden::HiddenPane>,
)
    ensures
        divider_ids(crate::layout::distribute_tree(t, axis, hidden)) == divider_ids(t),
    decreases t,
{
    if let Tree::Branch(a, s, ds) = t {
        let s1 = crate::layout::distribute_tree(t, axis, hidden)->Branch_1;
        assert forall|j: int| 0 <= j < s.len() implies divider_ids(#[trigger] s1[j].1) == divider_ids(s[j].1) by {
            law_distribute_keeps_dividers(s[j].1, axis, hidden);
        }
        lemma_ids_of_same(s, s1);
    }
}

} // verus!
