use warp::direction::{Direction, SplitDirection};
use warp::hidden::HiddenPane;
use warp::pane_data::PaneData;
use warp::tree::{Divider, PaneFlex, PaneId, PaneNode, DEFAULT_FLEX_BITS};

#[test]
fn opposite_direction_twice_is_the_same_direction() {
    for d in [Direction::Left, Direction::Right, Direction::Up, Direction::Down] {
        assert_eq!(d.opposite().opposite(), d);
        assert_eq!(d.opposite().axis(), d.axis());
    }
    assert_eq!(Direction::Up.axis(), SplitDirection::Vertical);
}

#[test]
fn closing_a_freshly_split_pane_restores_the_panes() {
    let mut tree = PaneData::new(PaneId(1));
    tree.split(PaneId(1), PaneId(2), Direction::Down);
    tree.split(PaneId(2), PaneId(3), Direction::Right);
    let before = tree.pane_ids();
    assert!(tree.split(PaneId(2), PaneId(4), Direction::Left));
    assert_eq!(tree.pane_ids(), vec![PaneId(1), PaneId(4), PaneId(2), PaneId(3)]);
    assert!(tree.remove(PaneId(4)));
    assert_eq!(tree.pane_ids(), before);
}

#[test]
fn the_last_pane_cannot_be_removed() {
    let mut tree = PaneData::new(PaneId(1));
    assert!(!tree.remove(PaneId(1)));
    assert_eq!(tree.pane_ids(), vec![PaneId(1)]);
    assert!(!tree.split(PaneId(9), PaneId(2), Direction::Right));
    assert_eq!(tree.len(), 1);
}

#[test]
fn toggling_job_visibility_twice_restores_the_hidden_list() {
    let mut tree = PaneData::new(PaneId(1));
    tree.split(PaneId(1), PaneId(2), Direction::Right);
    tree.hide_closed_pane(PaneId(1));
    let before: Vec<HiddenPane> = tree.hidden_panes.clone();
    assert!(!tree.toggle_pane_visibility_for_job(PaneId(2)));
    assert!(tree.is_pane_hidden(&PaneId(2)));
    assert!(tree.toggle_pane_visibility_for_job(PaneId(2)));
    assert_eq!(tree.hidden_panes, before);
}

#[test]
fn reverting_a_temporary_replacement_restores_the_layout() {
    let mut tree = PaneData::new(PaneId(1));
    tree.split(PaneId(1), PaneId(2), Direction::Down);
    let before = tree.pane_ids();
    assert!(tree.replace_pane(PaneId(2), PaneId(5), true));
    assert_eq!(tree.pane_ids(), vec![PaneId(1), PaneId(5)]);
    assert!(tree.is_temporary_replacement(PaneId(5)));
    assert_eq!(tree.replacement_pane_for_original(PaneId(2)), Some(PaneId(5)));
    assert_eq!(tree.revert_temporary_replacement(PaneId(5)), Some(PaneId(2)));
    assert_eq!(tree.pane_ids(), before);
    assert_eq!(tree.num_hidden_panes(), 0);
    // Nothing to revert any more.
    assert_eq!(tree.revert_temporary_replacement(PaneId(5)), None);
}

#[test]
fn a_permanent_replacement_hides_nothing() {
    let mut tree = PaneData::new(PaneId(1));
    assert!(tree.replace_pane(PaneId(1), PaneId(3), false));
    assert_eq!(tree.pane_ids(), vec![PaneId(3)]);
    assert_eq!(tree.num_hidden_panes(), 0);
    assert!(!tree.replace_pane(PaneId(1), PaneId(4), true));
}

#[test]
fn collapse_keeps_a_visible_pane_with_three_panes() {
    let mut tree = PaneData::new(PaneId(1));
    tree.split(PaneId(1), PaneId(2), Direction::Right);
    tree.split(PaneId(2), PaneId(3), Direction::Right);
    assert!(tree.collapse_pane(PaneId(1)));
    assert!(tree.collapse_pane(PaneId(3)));
    assert!(!tree.collapse_pane(PaneId(2)));
    assert_eq!(tree.visible_pane_ids(), vec![PaneId(2)]);
    assert_eq!(tree.visible_pane_count(), 1);
    assert!(tree.is_pane_collapsed(&PaneId(3)));
    assert!(tree.restore_collapsed_pane(PaneId(3)));
    assert_eq!(tree.visible_pane_ids(), vec![PaneId(2), PaneId(3)]);
}

#[test]
fn closed_panes_are_listed_and_cleared() {
    let mut tree = PaneData::new(PaneId(1));
    tree.split(PaneId(1), PaneId(2), Direction::Right);
    tree.split(PaneId(2), PaneId(3), Direction::Right);
    tree.hide_closed_pane(PaneId(3));
    tree.hide_closed_pane(PaneId(1));
    assert_eq!(tree.get_closed_pane_ids(), vec![PaneId(3), PaneId(1)]);
    assert!(tree.unhide_closed_pane(PaneId(3)));
    assert!(!tree.unhide_closed_pane(PaneId(3)));
    tree.clear_hidden_closed_panes();
    assert!(tree.get_closed_pane_ids().is_empty());
    tree.hide_pane_for_move(PaneId(2));
    assert!(tree.is_pane_hidden(&PaneId(2)));
    tree.clear_hidden_panes_from_move();
    assert!(!tree.is_pane_hidden(&PaneId(2)));
}

#[test]
fn evening_out_pane_sizes_twice_changes_nothing_the_second_time() {
    let mut tree = PaneData::new(PaneId(1));
    tree.split(PaneId(1), PaneId(2), Direction::Right);
    tree.split(PaneId(2), PaneId(3), Direction::Right);
    assert!(tree.collapse_pane(PaneId(3)));
    if let PaneNode::Branch(root) = &mut tree.root {
        root.nodes[0].0 = PaneFlex(0.5f32.to_bits());
        root.nodes[1].0 = PaneFlex(1.5f32.to_bits());
        root.nodes[2].0 = PaneFlex(0.25f32.to_bits());
    }
    assert!(tree.distribute_pane_sizes(SplitDirection::Horizontal));
    let flexes = |t: &PaneData| -> Vec<u32> {
        t.root.as_branch().unwrap().nodes.iter().map(|(f, _)| f.0).collect()
    };
    // The rail keeps its weight.
    assert_eq!(
        flexes(&tree),
        vec![DEFAULT_FLEX_BITS, DEFAULT_FLEX_BITS, 0.25f32.to_bits()]
    );
    assert!(!tree.distribute_pane_sizes(SplitDirection::Horizontal));
    assert_eq!(
        flexes(&tree),
        vec![DEFAULT_FLEX_BITS, DEFAULT_FLEX_BITS, 0.25f32.to_bits()]
    );
    // Across the split nothing changes.
    assert!(!tree.distribute_pane_sizes(SplitDirection::Vertical));
}

#[test]
fn a_new_branch_numbers_its_dividers_above_the_nested_ones() {
    let mut nested = PaneData::new(PaneId(1));
    assert!(nested.split(PaneId(1), PaneId(2), Direction::Right));
    let nested_dividers = nested.root.as_branch().unwrap().dividers.clone();
    assert_eq!(nested_dividers, vec![Divider { id: 0 }]);
    let tree = PaneData::new_branch(
        SplitDirection::Vertical,
        vec![
            (PaneFlex(DEFAULT_FLEX_BITS), nested.root),
            (PaneFlex(DEFAULT_FLEX_BITS), PaneNode::Leaf(PaneId(3))),
        ],
        3,
    );
    assert_eq!(tree.root.as_branch().unwrap().dividers, vec![Divider { id: 1 }]);
    assert_eq!(tree.next_divider_id, 2);
    assert_eq!(tree.pane_ids(), vec![PaneId(1), PaneId(2), PaneId(3)]);
}

#[test]
fn a_single_node_branch_keeps_counting_after_its_dividers() {
    let mut nested = PaneData::new(PaneId(1));
    assert!(nested.split(PaneId(1), PaneId(2), Direction::Down));
    assert!(nested.split(PaneId(2), PaneId(3), Direction::Down));
    let tree = PaneData::new_branch(
        SplitDirection::Horizontal,
        vec![(PaneFlex(DEFAULT_FLEX_BITS), nested.root)],
        3,
    );
    assert_eq!(tree.next_divider_id, 2);
}

#[test]
fn a_sibling_is_the_neighbor_in_pane_order() {
    let mut tree = PaneData::new(PaneId(1));
    tree.split(PaneId(1), PaneId(2), Direction::Right);
    tree.split(PaneId(2), PaneId(3), Direction::Right);
    let order = tree.pane_ids();
    assert_eq!(tree.sibling_by_direction(PaneId(2), Direction::Left), Some(PaneId(1)));
    assert_eq!(tree.sibling_by_direction(PaneId(2), Direction::Right), Some(PaneId(3)));
    assert_eq!(order, vec![PaneId(1), PaneId(2), PaneId(3)]);
    assert_eq!(tree.sibling_by_direction(PaneId(1), Direction::Left), None);
}

#[test]
fn a_pane_group_is_a_run_of_the_pane_order() {
    let mut tree = PaneData::new(PaneId(1));
    tree.split(PaneId(1), PaneId(2), Direction::Right);
    tree.split(PaneId(2), PaneId(3), Direction::Down);
    tree.split(PaneId(3), PaneId(4), Direction::Right);
    let order = tree.pane_ids();
    assert_eq!(order, vec![PaneId(1), PaneId(2), PaneId(3), PaneId(4)]);
    let group = tree.pane_group_by_direction(PaneId(1), Direction::Right);
    assert_eq!(group, vec![PaneId(2), PaneId(3), PaneId(4)]);
    assert!(order.windows(group.len()).any(|w| w == group.as_slice()));
    assert!(tree.pane_group_by_direction(PaneId(1), Direction::Left).is_empty());
}

#[test]
fn moving_a_pane_places_it_beside_the_target() {
    let mut tree = PaneData::new(PaneId(1));
    tree.split(PaneId(1), PaneId(2), Direction::Right);
    tree.split(PaneId(2), PaneId(3), Direction::Right);
    assert!(tree.move_pane(PaneId(3), PaneId(1), Direction::Left));
    assert_eq!(tree.pane_ids(), vec![PaneId(3), PaneId(1), PaneId(2)]);
    assert_eq!(tree.len, 3);
}

#[test]
fn collapsing_records_the_pane_and_a_second_collapse_is_refused() {
    let mut tree = PaneData::new(PaneId(1));
    tree.split(PaneId(1), PaneId(2), Direction::Right);
    tree.split(PaneId(2), PaneId(3), Direction::Right);
    let ids = tree.pane_ids();
    let visible = tree.visible_pane_ids();
    let hidden_before: Vec<HiddenPane> = tree.hidden_panes.clone();
    assert!(tree.collapse_pane(PaneId(2)));
    assert_eq!(tree.collapsed_pane_ids(), vec![PaneId(2)]);
    assert!(!tree.collapse_pane(PaneId(2)));
    assert_eq!(tree.pane_ids(), ids);
    assert_eq!(tree.visible_pane_ids(), vec![PaneId(1), PaneId(3)]);
    assert!(tree.restore_collapsed_pane(PaneId(2)));
    assert_eq!(tree.visible_pane_ids(), visible);
    assert!(tree.collapsed_pane_ids().is_empty());
    assert_eq!(tree.hidden_panes, hidden_before);
}

#[test]
fn replacement_lookups_are_inverse() {
    let mut tree = PaneData::new(PaneId(1));
    tree.split(PaneId(1), PaneId(2), Direction::Right);
    assert!(tree.replace_pane(PaneId(1), PaneId(7), true));
    assert_eq!(tree.replacement_pane_for_original(PaneId(1)), Some(PaneId(7)));
    assert_eq!(tree.original_pane_for_replacement(PaneId(7)), Some(PaneId(1)));
    assert_eq!(tree.replacement_pane_for_original(PaneId(7)), None);
    assert_eq!(tree.original_pane_for_replacement(PaneId(1)), None);
}

/// Every divider id of a node, in order.
fn collect_divider_ids(node: &PaneNode, out: &mut Vec<u64>) {
    if let PaneNode::Branch(b) = node {
        out.extend(b.dividers.iter().map(|d| d.id));
        for (_, child) in &b.nodes {
            collect_divider_ids(child, out);
        }
    }
}

#[test]
fn divider_ids_stay_distinct_and_below_the_next_one() {
    let mut tree = PaneData::new(PaneId(1));
    tree.split(PaneId(1), PaneId(2), Direction::Right);
    tree.split(PaneId(2), PaneId(3), Direction::Down);
    tree.split_root(PaneId(4), Direction::Left);
    assert!(tree.move_pane(PaneId(1), PaneId(3), Direction::Right));
    assert!(tree.remove(PaneId(2)));
    tree.split(PaneId(4), PaneId(5), Direction::Up);
    let mut ids = Vec::new();
    collect_divider_ids(&tree.root, &mut ids);
    let mut sorted = ids.clone();
    sorted.sort();
    sorted.dedup();
    assert_eq!(sorted.len(), ids.len());
    assert!(ids.iter().all(|&id| id < tree.next_divider_id));
}

#[test]
fn a_sibling_needs_a_branch_along_the_direction() {
    let mut tree = PaneData::new(PaneId(1));
    tree.split(PaneId(1), PaneId(2), Direction::Down);
    assert_eq!(tree.sibling_by_direction(PaneId(2), Direction::Up), Some(PaneId(1)));
    assert_eq!(tree.sibling_by_direction(PaneId(2), Direction::Left), None);
    // The slot next to pane 1 holds a branch, not a pane.
    let mut tree = PaneData::new(PaneId(1));
    tree.split(PaneId(1), PaneId(2), Direction::Right);
    tree.split(PaneId(2), PaneId(3), Direction::Down);
    assert_eq!(tree.sibling_by_direction(PaneId(1), Direction::Right), None);
    assert_eq!(tree.sibling_by_direction(PaneId(9), Direction::Right), None);
}

#[test]
fn the_innermost_branch_along_the_direction_decides_the_group() {
    let mut tree = PaneData::new(PaneId(1));
    tree.split(PaneId(1), PaneId(2), Direction::Right);
    tree.split(PaneId(2), PaneId(3), Direction::Down);
    assert_eq!(tree.pane_group_by_direction(PaneId(3), Direction::Left), vec![PaneId(1)]);
    assert_eq!(tree.pane_group_by_direction(PaneId(3), Direction::Up), vec![PaneId(2)]);
    assert!(tree.pane_group_by_direction(PaneId(2), Direction::Up).is_empty());
    assert!(tree.pane_group_by_direction(PaneId(1), Direction::Left).is_empty());
}

#[test]
fn keyboard_resize_skips_rails_and_needs_a_second_real_pane() {
    let mut tree = PaneData::new(PaneId(1));
    tree.split(PaneId(1), PaneId(2), Direction::Right);
    tree.split(PaneId(2), PaneId(3), Direction::Right);
    assert!(tree.collapse_pane(PaneId(2)));
    {
        let root = tree.root.as_branch().unwrap();
        assert_eq!(root.keyboard_resize_divider_idx(0, &tree.hidden_panes), Some(0));
        assert_eq!(root.keyboard_resize_divider_idx(2, &tree.hidden_panes), Some(0));
        assert_eq!(root.resize_pair_across_rails(0, &tree.hidden_panes), Some((0, 2)));
    }
    assert!(tree.collapse_pane(PaneId(3)));
    let root = tree.root.as_branch().unwrap();
    assert_eq!(root.keyboard_resize_divider_idx(0, &tree.hidden_panes), None);
}

#[test]
fn a_split_shows_only_with_two_counted_panes_side_by_side() {
    let mut tree = PaneData::new(PaneId(1));
    tree.split(PaneId(1), PaneId(2), Direction::Right);
    assert!(tree.has_horizontal_split());
    tree.hide_pane_for_job(PaneId(2));
    assert!(!tree.has_horizontal_split());
    let mut tree = PaneData::new(PaneId(1));
    tree.split(PaneId(1), PaneId(2), Direction::Down);
    assert!(!tree.has_horizontal_split());
    // A collapsed pane still counts.
    let mut tree = PaneData::new(PaneId(1));
    tree.split(PaneId(1), PaneId(2), Direction::Right);
    assert!(tree.collapse_pane(PaneId(2)));
    assert!(tree.has_horizontal_split());
}

#[test]
fn evening_out_reports_a_change_only_the_first_time() {
    let mut tree = PaneData::new(PaneId(1));
    tree.split(PaneId(1), PaneId(2), Direction::Right);
    if let PaneNode::Branch(root) = &mut tree.root {
        root.nodes[0].0 = PaneFlex(0.5f32.to_bits());
    }
    assert!(tree.distribute_pane_sizes(SplitDirection::Horizontal));
    assert!(!tree.distribute_pane_sizes(SplitDirection::Horizontal));
    assert!(!tree.distribute_pane_sizes(SplitDirection::Vertical));
}
