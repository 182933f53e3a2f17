use std::collections::HashSet;

use warp::direction::{Direction, SplitDirection};
use warp::pane_data::PaneData;
use warp::tree::{FindPaneByDirectionResult, PaneFlex, PaneId, PaneNode, DEFAULT_FLEX_BITS};

/// Distinct pane ids `1..=n`.
fn pane_ids<const N: usize>() -> [PaneId; N] {
    let mut ids = [PaneId(0); N];
    for (i, id) in ids.iter_mut().enumerate() {
        *id = PaneId(i as u64 + 1);
    }
    ids
}

/// The panes a lookup found, as a set; `None` for the other outcomes.
fn found_set(r: &FindPaneByDirectionResult) -> Option<HashSet<PaneId>> {
    match r {
        FindPaneByDirectionResult::Found(ids) => Some(ids.iter().copied().collect()),
        _ => None,
    }
}

fn set_of(ids: &[PaneId]) -> Option<HashSet<PaneId>> {
    Some(ids.iter().copied().collect())
}

fn flex(x: f32) -> PaneFlex {
    PaneFlex(x.to_bits())
}

#[test]
fn test_split_pane_layout() {
    let panes: [PaneId; 3] = pane_ids();
    let mut root_pane = PaneData::new(panes[0]);

    // Add a pane to the right.
    root_pane.split(panes[0], panes[1], Direction::Right);
    assert_eq!(root_pane.pane_ids(), vec![panes[0], panes[1]]);

    // Insert a vertical (below) pane after the first pane.
    root_pane.split(panes[0], panes[2], Direction::Down);
    assert_eq!(root_pane.pane_ids(), vec![panes[0], panes[2], panes[1]]);

    // Remove the last pane.
    root_pane.remove(panes[1]);
    assert_eq!(root_pane.pane_ids(), vec![panes[0], panes[2]]);

    let panes = [PaneId(7); 3];
    let mut root_pane = PaneData::new(panes[0]);

    // Add a pane to the left.
    root_pane.split(panes[0], panes[1], Direction::Left);
    assert_eq!(root_pane.pane_ids(), vec![panes[1], panes[0]]);

    // Add a pane above the first pane.
    root_pane.split(panes[0], panes[2], Direction::Up);
    assert_eq!(root_pane.pane_ids(), vec![panes[2], panes[0], panes[1]]);
}

#[test]
fn test_collapse_pane_parks_in_tree_but_hides_from_navigation() {
    let panes: [PaneId; 2] = pane_ids();
    let mut tree = PaneData::new(panes[0]);
    tree.split(panes[0], panes[1], Direction::Right);

    assert!(tree.collapse_pane(panes[1]));
    assert!(tree.pane_ids().contains(&panes[1]), "still in the tree");
    assert!(
        !tree.visible_pane_ids().contains(&panes[1]),
        "excluded from navigation"
    );
    assert_eq!(tree.collapsed_pane_ids(), vec![panes[1]]);
}

#[test]
fn test_collapsed_pane_is_hidden_for_navigation_but_not_snapshot_omitted() {
    let panes: [PaneId; 2] = pane_ids();
    let mut tree = PaneData::new(panes[0]);
    tree.split(panes[0], panes[1], Direction::Right);

    assert!(tree.collapse_pane(panes[1]));
    assert!(tree.is_pane_hidden(&panes[1]));
    assert!(!tree.is_hidden_closed_pane(&panes[1]));
    assert!(!tree.should_omit_pane_from_snapshot(&panes[1]));

    tree.hide_closed_pane(panes[0]);
    assert!(tree.is_hidden_closed_pane(&panes[0]));
    assert!(tree.should_omit_pane_from_snapshot(&panes[0]));
}

#[test]
fn test_restore_collapsed_pane_returns_it_to_its_original_position() {
    let panes: [PaneId; 2] = pane_ids();
    let mut tree = PaneData::new(panes[0]);
    tree.split(panes[0], panes[1], Direction::Right);

    tree.collapse_pane(panes[1]);
    assert!(tree.restore_collapsed_pane(panes[1]));
    assert!(tree.visible_pane_ids().contains(&panes[1]));
    assert_eq!(
        tree.pane_ids(),
        vec![panes[0], panes[1]],
        "restored to original position"
    );
    assert!(tree.collapsed_pane_ids().is_empty());
}

#[test]
fn test_pane_group_by_direction_returns_whole_bordering_subtree() {
    let [a, b, c, d]: [PaneId; 4] = pane_ids();
    let mut tree = PaneData::new(a);
    tree.split(a, c, Direction::Right);
    tree.split(a, b, Direction::Down);
    tree.split(c, d, Direction::Down);
    assert_eq!(tree.pane_ids(), vec![a, b, c, d]);

    assert_eq!(
        tree.pane_group_by_direction(a, Direction::Right),
        vec![c, d]
    );
    assert_eq!(tree.pane_group_by_direction(a, Direction::Down), vec![b]);
    assert!(tree.pane_group_by_direction(a, Direction::Left).is_empty());
    assert!(tree.pane_group_by_direction(a, Direction::Up).is_empty());
    assert_eq!(tree.pane_group_by_direction(c, Direction::Left), vec![a, b]);
}

#[test]
fn test_collapsing_the_last_visible_pane_is_a_noop() {
    let panes: [PaneId; 2] = pane_ids();
    let mut tree = PaneData::new(panes[0]);
    tree.split(panes[0], panes[1], Direction::Right);

    assert!(tree.collapse_pane(panes[0]));
    assert!(!tree.collapse_pane(panes[1]));
    assert!(tree.visible_pane_ids().contains(&panes[1]));
}

#[test]
fn test_double_collapse_and_restore_non_collapsed_are_noops() {
    let panes: [PaneId; 3] = pane_ids();
    let mut tree = PaneData::new(panes[0]);
    tree.split(panes[0], panes[1], Direction::Right);
    tree.split(panes[1], panes[2], Direction::Right);

    assert!(tree.collapse_pane(panes[1]));
    assert!(!tree.collapse_pane(panes[1]));
    assert_eq!(tree.collapsed_pane_ids(), vec![panes[1]]);
    assert!(!tree.restore_collapsed_pane(panes[0]));
}

#[test]
fn test_collapsed_pane_ids_preserve_collapse_order() {
    let panes: [PaneId; 3] = pane_ids();
    let mut tree = PaneData::new(panes[0]);
    tree.split(panes[0], panes[1], Direction::Right);
    tree.split(panes[1], panes[2], Direction::Right);

    assert!(tree.collapse_pane(panes[2]));
    assert!(tree.collapse_pane(panes[0]));
    assert_eq!(tree.collapsed_pane_ids(), vec![panes[2], panes[0]]);
}

#[test]
fn test_left_pane_split() {
    let panes: [PaneId; 4] = pane_ids();
    let mut root_pane = PaneData::new(panes[0]);

    root_pane.split(panes[0], panes[1], Direction::Left);
    assert_eq!(root_pane.pane_ids(), vec![panes[1], panes[0]]);

    root_pane.split(panes[0], panes[2], Direction::Left);
    assert_eq!(root_pane.pane_ids(), vec![panes[1], panes[2], panes[0]]);

    root_pane.split(panes[0], panes[3], Direction::Left);
    assert_eq!(
        root_pane.pane_ids(),
        vec![panes[1], panes[2], panes[3], panes[0]]
    );
}

#[test]
fn test_root_split_leaf() {
    let panes: [PaneId; 2] = pane_ids();

    let mut tree = PaneData::new(panes[0]);
    tree.split_root(panes[1], Direction::Down);
    assert_eq!(tree.pane_ids(), vec![panes[0], panes[1]]);
    assert_eq!(
        tree.root.as_branch().expect("Should be a branch").axis(),
        SplitDirection::Vertical
    );
}

#[test]
fn test_root_split_same_axis() {
    let panes: [PaneId; 4] = pane_ids();

    let mut tree = PaneData::new(panes[0]);
    tree.split(panes[0], panes[1], Direction::Right);
    tree.split_root(panes[2], Direction::Left);
    tree.split_root(panes[3], Direction::Right);

    let root = tree.root.as_branch().expect("Should be a branch");
    assert_eq!(root.axis(), SplitDirection::Horizontal);
    assert_eq!(
        root.direct_children(),
        vec![panes[2], panes[0], panes[1], panes[3]]
    );
}

#[test]
fn test_root_split_different_axis() {
    let panes: [PaneId; 4] = pane_ids();

    let mut tree = PaneData::new(panes[0]);
    tree.split(panes[0], panes[1], Direction::Right);

    tree.split_root(panes[2], Direction::Up);
    let root = tree.root.as_branch().expect("Should be a branch");
    assert_eq!(root.axis(), SplitDirection::Vertical);
    assert_eq!(root.node(0).as_leaf(), Some(panes[2]));
    assert_eq!(
        root.node(1)
            .as_branch()
            .expect("Should be a branch")
            .direct_children(),
        vec![panes[0], panes[1]]
    );

    tree.split_root(panes[3], Direction::Right);
    let root = tree.root.as_branch().expect("Should be a branch");
    assert_eq!(
        root.node(0)
            .as_branch()
            .expect("Should be a branch")
            .get_children(),
        vec![panes[2], panes[0], panes[1]]
    );
    assert_eq!(root.node(1).as_leaf(), Some(panes[3]));
}

#[test]
fn test_move_pane_basic() {
    let panes: [PaneId; 2] = pane_ids();

    let mut tree = PaneData::new(panes[0]);
    tree.split(panes[0], panes[1], Direction::Right);

    tree.move_pane(panes[0], panes[1], Direction::Right);

    let root = tree.root.as_branch().expect("Should be a branch");
    assert_eq!(root.axis(), SplitDirection::Horizontal);
    assert_eq!(root.direct_children(), vec![panes[1], panes[0]]);

    tree.move_pane(panes[0], panes[1], Direction::Up);

    let root = tree.root.as_branch().expect("Should be a branch");
    assert_eq!(root.axis(), SplitDirection::Vertical);
    assert_eq!(root.direct_children(), vec![panes[0], panes[1]]);
}

#[test]
fn test_move_pane_multiple_splits() {
    let panes: [PaneId; 4] = pane_ids();

    let mut tree = PaneData::new(panes[0]);
    tree.split(panes[0], panes[1], Direction::Right);

    tree.split_root(panes[2], Direction::Up);
    let root = tree.root.as_branch().expect("Should be a branch");
    assert_eq!(root.axis(), SplitDirection::Vertical);
    assert_eq!(root.node(0).as_leaf(), Some(panes[2]));
    assert_eq!(
        root.node(1)
            .as_branch()
            .expect("Should be a branch")
            .direct_children(),
        vec![panes[0], panes[1]]
    );

    tree.split_root(panes[3], Direction::Right);
    let root = tree.root.as_branch().expect("Should be a branch");
    assert_eq!(
        root.node(0)
            .as_branch()
            .expect("Should be a branch")
            .get_children(),
        vec![panes[2], panes[0], panes[1]]
    );
    assert_eq!(root.node(1).as_leaf(), Some(panes[3]));

    tree.move_pane(panes[2], panes[3], Direction::Left);
    let root = tree.root.as_branch().expect("Should be a branch");
    assert_eq!(root.axis(), SplitDirection::Horizontal);
    assert_eq!(
        root.node(0).as_branch().expect("should be branch").axis(),
        SplitDirection::Horizontal
    );
    assert_eq!(
        root.node(0)
            .as_branch()
            .expect("Should be a branch")
            .get_children(),
        vec![panes[0], panes[1]]
    );
    assert_eq!(root.node(1).as_leaf(), Some(panes[2]));
    assert_eq!(root.node(2).as_leaf(), Some(panes[3]));
}

#[test]
fn test_move_pane_no_short_circuit() {
    let panes: [PaneId; 3] = pane_ids();

    let mut tree = PaneData::new(panes[0]);
    tree.split(panes[0], panes[1], Direction::Down);
    tree.split(panes[1], panes[2], Direction::Right);

    tree.move_pane(panes[1], panes[0], Direction::Down);
    let root = tree.root.as_branch().expect("Should be a branch");
    assert_eq!(root.axis(), SplitDirection::Vertical);
    assert_eq!(root.direct_children(), panes.to_vec());
}

#[test]
fn test_move_pane_no_short_circuit_2() {
    let panes: [PaneId; 3] = pane_ids();

    let mut tree = PaneData::new(panes[0]);
    tree.split(panes[0], panes[1], Direction::Down);
    tree.split(panes[1], panes[2], Direction::Down);

    tree.move_pane(panes[1], panes[2], Direction::Left);
    let root = tree.root.as_branch().expect("Should be a branch");
    assert_eq!(root.axis(), SplitDirection::Vertical);
    assert_eq!(root.node(0).as_leaf().expect("Should be a leaf"), panes[0]);
    assert_eq!(
        root.node(1)
            .as_branch()
            .expect("Should be a branch")
            .direct_children(),
        vec![panes[1], panes[2]]
    );
}

#[test]
fn test_sibling_by_direction() {
    let panes: [PaneId; 5] = pane_ids();

    let mut tree = PaneData::new(panes[0]);
    tree.split(panes[0], panes[1], Direction::Down);
    tree.split(panes[1], panes[2], Direction::Right);
    tree.split(panes[2], panes[3], Direction::Right);
    tree.split(panes[3], panes[4], Direction::Down);

    assert_eq!(
        tree.sibling_by_direction(panes[1], Direction::Right),
        Some(panes[2])
    );
    assert_eq!(
        tree.sibling_by_direction(panes[2], Direction::Left),
        Some(panes[1])
    );
    assert_eq!(tree.sibling_by_direction(panes[0], Direction::Right), None);
    assert_eq!(tree.sibling_by_direction(panes[0], Direction::Left), None);
    assert_eq!(tree.sibling_by_direction(panes[2], Direction::Right), None);
    assert_eq!(tree.sibling_by_direction(panes[1], Direction::Left), None);
    assert_eq!(tree.sibling_by_direction(panes[1], Direction::Up), None);
    assert_eq!(tree.sibling_by_direction(panes[1], Direction::Down), None);
    assert_eq!(tree.sibling_by_direction(panes[0], Direction::Up), None);
    assert_eq!(tree.sibling_by_direction(panes[0], Direction::Down), None);

    assert_eq!(tree.sibling_by_direction(panes[3], Direction::Up), None);
    assert_eq!(
        tree.sibling_by_direction(panes[3], Direction::Down),
        Some(panes[4])
    );
    assert_eq!(
        tree.sibling_by_direction(panes[4], Direction::Up),
        Some(panes[3])
    );
    assert_eq!(tree.sibling_by_direction(panes[4], Direction::Down), None);
}

#[test]
fn test_pane_by_direction_simple() {
    let panes: [PaneId; 3] = pane_ids();

    let mut tree = PaneData::new(panes[0]);
    tree.split(panes[0], panes[1], Direction::Right);

    assert_eq!(
        found_set(&tree.root.panes_by_direction(panes[0], Direction::Right)),
        set_of(&[panes[1]])
    );
    assert_eq!(
        tree.root.panes_by_direction(panes[0], Direction::Left),
        FindPaneByDirectionResult::Located
    );
    assert_eq!(
        tree.root.panes_by_direction(panes[1], Direction::Right),
        FindPaneByDirectionResult::Located
    );
    assert_eq!(
        found_set(&tree.root.panes_by_direction(panes[1], Direction::Left)),
        set_of(&[panes[0]])
    );

    assert_eq!(
        tree.root.panes_by_direction(panes[0], Direction::Up),
        FindPaneByDirectionResult::Located
    );
    assert_eq!(
        tree.root.panes_by_direction(panes[0], Direction::Down),
        FindPaneByDirectionResult::Located
    );
    assert_eq!(
        tree.root.panes_by_direction(panes[1], Direction::Up),
        FindPaneByDirectionResult::Located
    );
    assert_eq!(
        tree.root.panes_by_direction(panes[1], Direction::Down),
        FindPaneByDirectionResult::Located
    );

    assert_eq!(
        tree.root.panes_by_direction(panes[2], Direction::Right),
        FindPaneByDirectionResult::NotFound
    );
    assert_eq!(
        tree.root.panes_by_direction(panes[2], Direction::Left),
        FindPaneByDirectionResult::NotFound
    );
    assert_eq!(
        tree.root.panes_by_direction(panes[2], Direction::Up),
        FindPaneByDirectionResult::NotFound
    );
    assert_eq!(
        tree.root.panes_by_direction(panes[2], Direction::Down),
        FindPaneByDirectionResult::NotFound
    );
}

#[test]
fn test_pane_by_direction_multi_split() {
    let panes: [PaneId; 4] = pane_ids();

    let mut tree = PaneData::new(panes[0]);
    tree.split(panes[0], panes[1], Direction::Right);
    tree.split(panes[0], panes[2], Direction::Down);
    tree.split(panes[1], panes[3], Direction::Down);

    let dir = |p: PaneId, d: Direction| tree.root.panes_by_direction(p, d);

    assert_eq!(found_set(&dir(panes[0], Direction::Right)), set_of(&[panes[1], panes[3]]));
    assert_eq!(dir(panes[0], Direction::Left), FindPaneByDirectionResult::Located);
    assert_eq!(dir(panes[0], Direction::Up), FindPaneByDirectionResult::Located);
    assert_eq!(found_set(&dir(panes[0], Direction::Down)), set_of(&[panes[2]]));

    assert_eq!(dir(panes[1], Direction::Right), FindPaneByDirectionResult::Located);
    assert_eq!(found_set(&dir(panes[1], Direction::Left)), set_of(&[panes[0], panes[2]]));
    assert_eq!(dir(panes[1], Direction::Up), FindPaneByDirectionResult::Located);
    assert_eq!(found_set(&dir(panes[1], Direction::Down)), set_of(&[panes[3]]));

    assert_eq!(found_set(&dir(panes[2], Direction::Right)), set_of(&[panes[1], panes[3]]));
    assert_eq!(dir(panes[2], Direction::Left), FindPaneByDirectionResult::Located);
    assert_eq!(found_set(&dir(panes[2], Direction::Up)), set_of(&[panes[0]]));
    assert_eq!(dir(panes[2], Direction::Down), FindPaneByDirectionResult::Located);

    assert_eq!(dir(panes[3], Direction::Right), FindPaneByDirectionResult::Located);
    assert_eq!(found_set(&dir(panes[3], Direction::Left)), set_of(&[panes[0], panes[2]]));
    assert_eq!(found_set(&dir(panes[3], Direction::Up)), set_of(&[panes[1]]));
    assert_eq!(dir(panes[3], Direction::Down), FindPaneByDirectionResult::Located);
}

#[test]
fn test_pane_by_direction_multi_level_split() {
    let panes: [PaneId; 7] = pane_ids();

    let mut tree = PaneData::new(panes[0]);
    tree.split(panes[0], panes[3], Direction::Right);
    tree.split(panes[0], panes[2], Direction::Down);
    tree.split(panes[0], panes[1], Direction::Right);
    tree.split(panes[3], panes[6], Direction::Down);
    tree.split(panes[3], panes[5], Direction::Right);
    tree.split(panes[3], panes[4], Direction::Down);

    let dir = |p: PaneId, d: Direction| found_set(&tree.root.panes_by_direction(p, d));

    assert_eq!(dir(panes[0], Direction::Right), set_of(&[panes[1]]));
    assert_eq!(dir(panes[1], Direction::Right), set_of(&[panes[3], panes[4], panes[6]]));
    assert_eq!(dir(panes[5], Direction::Left), set_of(&[panes[3], panes[4]]));
    assert_eq!(dir(panes[6], Direction::Up), set_of(&[panes[4], panes[5]]));
    assert_eq!(dir(panes[4], Direction::Down), set_of(&[panes[6]]));
}

#[test]
fn test_reset_pane_sizes_resets_containing_branch() {
    let panes: [PaneId; 3] = pane_ids();
    let mut tree = PaneData::new(panes[0]);

    tree.split(panes[0], panes[1], Direction::Right);
    tree.split(panes[1], panes[2], Direction::Right);

    let root = tree.root.as_branch().expect("Should be a branch");
    let border_id = root.dividers[0].id;

    let root = match &mut tree.root {
        PaneNode::Branch(root) => root,
        PaneNode::Leaf(_) => panic!("Should be a branch"),
    };
    root.nodes[0].0 = flex(0.2);
    root.nodes[1].0 = flex(0.5);
    root.nodes[2].0 = flex(0.3);

    assert!(tree.reset_pane_sizes(border_id));

    let root = tree.root.as_branch().expect("Should be a branch");
    assert_eq!(
        root.nodes.iter().map(|(flex, _)| flex.0).collect::<Vec<_>>(),
        vec![DEFAULT_FLEX_BITS, DEFAULT_FLEX_BITS, DEFAULT_FLEX_BITS]
    );
}

#[test]
fn test_reset_pane_sizes_only_resets_containing_branch() {
    let panes: [PaneId; 3] = pane_ids();
    let mut tree = PaneData::new(panes[0]);

    tree.split(panes[0], panes[1], Direction::Down);
    tree.split(panes[1], panes[2], Direction::Right);

    let root = match &mut tree.root {
        PaneNode::Branch(root) => root,
        PaneNode::Leaf(_) => panic!("Should be a branch"),
    };
    root.nodes[0].0 = flex(0.25);
    root.nodes[1].0 = flex(0.75);

    let nested = match &mut root.nodes[1].1 {
        PaneNode::Branch(nested) => nested,
        PaneNode::Leaf(_) => panic!("Should be a branch"),
    };
    nested.nodes[0].0 = flex(0.8);
    nested.nodes[1].0 = flex(0.2);
    let nested_border_id = nested.dividers[0].id;

    assert!(tree.reset_pane_sizes(nested_border_id));

    let root = tree.root.as_branch().expect("Should be a branch");
    assert_eq!(
        root.nodes.iter().map(|(flex, _)| f32::from_bits(flex.0)).collect::<Vec<_>>(),
        vec![0.25, 0.75]
    );
    let nested = root.node(1).as_branch().expect("Should be a branch");
    assert_eq!(
        nested.nodes.iter().map(|(flex, _)| flex.0).collect::<Vec<_>>(),
        vec![DEFAULT_FLEX_BITS, DEFAULT_FLEX_BITS]
    );
}

#[test]
fn test_resize_skips_collapsed_middle_rail_to_the_real_panes() {
    let panes: [PaneId; 3] = pane_ids();
    let mut tree = PaneData::new(panes[0]);
    tree.split(panes[0], panes[1], Direction::Right);
    tree.split(panes[1], panes[2], Direction::Right);
    assert!(tree.collapse_pane(panes[1]));

    let hidden = tree.hidden_panes.clone();
    let root = tree.root.as_branch().expect("root is a branch");

    assert_eq!(root.next_resizable_index(0, &hidden), Some(2));
    assert_eq!(root.resize_pair_across_rails(0, &hidden), Some((0, 2)));
}

#[test]
fn test_keyboard_resize_divider_skips_rail_from_either_side() {
    let panes: [PaneId; 3] = pane_ids();
    let mut tree = PaneData::new(panes[0]);
    tree.split(panes[0], panes[1], Direction::Right);
    tree.split(panes[1], panes[2], Direction::Right);
    assert!(tree.collapse_pane(panes[1]));

    let hidden = tree.hidden_panes.clone();
    let root = tree.root.as_branch().expect("root is a branch");

    assert_eq!(root.keyboard_resize_divider_idx(0, &hidden), Some(0));
    assert_eq!(root.keyboard_resize_divider_idx(2, &hidden), Some(0));
}

#[test]
fn test_resize_pair_is_plain_adjacent_without_collapse() {
    let panes: [PaneId; 3] = pane_ids();
    let mut tree = PaneData::new(panes[0]);
    tree.split(panes[0], panes[1], Direction::Right);
    tree.split(panes[1], panes[2], Direction::Right);

    let hidden = tree.hidden_panes.clone();
    let root = tree.root.as_branch().expect("root is a branch");

    assert_eq!(root.next_resizable_index(0, &hidden), Some(1));
    assert_eq!(root.resize_pair_across_rails(0, &hidden), Some((0, 1)));
    assert_eq!(root.resize_pair_across_rails(1, &hidden), Some((1, 2)));
}

#[test]
fn test_no_resize_target_past_a_trailing_rail() {
    let panes: [PaneId; 2] = pane_ids();
    let mut tree = PaneData::new(panes[0]);
    tree.split(panes[0], panes[1], Direction::Right);
    assert!(tree.collapse_pane(panes[1]));

    let hidden = tree.hidden_panes.clone();
    let root = tree.root.as_branch().expect("root is a branch");

    assert_eq!(root.next_resizable_index(0, &hidden), None);
    assert_eq!(root.resize_pair_across_rails(0, &hidden), None);
}

#[test]
fn test_hide_and_show_child_agent_pane() {
    let panes: [PaneId; 2] = pane_ids();
    let mut tree = PaneData::new(panes[0]);
    tree.split(panes[0], panes[1], Direction::Right);

    assert_eq!(tree.visible_pane_ids(), vec![panes[0], panes[1]]);
    assert!(!tree.is_pane_hidden(&panes[1]));

    tree.hide_pane_for_child_agent(panes[1]);
    assert!(tree.is_pane_hidden(&panes[1]));
    assert_eq!(tree.visible_pane_ids(), vec![panes[0]]);
    assert_eq!(tree.pane_ids(), vec![panes[0], panes[1]]);

    tree.show_pane_for_child_agent(panes[1]);
    assert!(!tree.is_pane_hidden(&panes[1]));
    assert_eq!(tree.visible_pane_ids(), vec![panes[0], panes[1]]);
}

#[test]
fn test_hide_child_agent_pane_is_idempotent() {
    let panes: [PaneId; 2] = pane_ids();
    let mut tree = PaneData::new(panes[0]);
    tree.split(panes[0], panes[1], Direction::Right);

    tree.hide_pane_for_child_agent(panes[1]);
    tree.hide_pane_for_child_agent(panes[1]);
    assert_eq!(tree.num_hidden_panes(), 1);

    tree.show_pane_for_child_agent(panes[1]);
    assert!(!tree.is_pane_hidden(&panes[1]));
    assert_eq!(tree.num_hidden_panes(), 0);
}

#[test]
fn test_original_pane_for_replacement() {
    let [original, replacement, unrelated]: [PaneId; 3] = pane_ids();
    let mut tree = PaneData::new(original);
    tree.split(original, unrelated, Direction::Right);

    assert_eq!(tree.original_pane_for_replacement(original), None);
    assert_eq!(tree.original_pane_for_replacement(replacement), None);

    assert!(tree.replace_pane(original, replacement, true));
    assert_eq!(
        tree.original_pane_for_replacement(replacement),
        Some(original)
    );
    assert_eq!(tree.original_pane_for_replacement(original), None);
    assert_eq!(tree.original_pane_for_replacement(unrelated), None);

    assert_eq!(
        tree.revert_temporary_replacement(replacement),
        Some(original)
    );
    assert_eq!(tree.original_pane_for_replacement(replacement), None);
}

#[test]
fn test_hide_multiple_child_agent_panes() {
    let panes: [PaneId; 3] = pane_ids();
    let mut tree = PaneData::new(panes[0]);
    tree.split(panes[0], panes[1], Direction::Right);
    tree.split(panes[1], panes[2], Direction::Right);

    tree.hide_pane_for_child_agent(panes[1]);
    tree.hide_pane_for_child_agent(panes[2]);
    assert_eq!(tree.visible_pane_ids(), vec![panes[0]]);

    tree.show_pane_for_child_agent(panes[1]);
    assert_eq!(tree.visible_pane_ids(), vec![panes[0], panes[1]]);
    assert!(tree.is_pane_hidden(&panes[2]));
}
