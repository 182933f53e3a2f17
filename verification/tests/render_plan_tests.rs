use warp::direction::{Direction, SplitDirection};
use warp::pane_data::PaneData;
use warp::render_plan::{
    divider_mouse_down_action, rail_chevron, BranchItem, Chevron, DividerPress,
};
use warp::tree::{PaneFlex, PaneId, DEFAULT_FLEX_BITS};

fn three_in_a_row() -> PaneData {
    let mut tree = PaneData::new(PaneId(1));
    tree.split(PaneId(1), PaneId(2), Direction::Right);
    tree.split(PaneId(2), PaneId(3), Direction::Right);
    tree
}

#[test]
fn a_plain_row_shows_every_pane_with_dividers_between() {
    let tree = three_in_a_row();
    let root = tree.root.as_branch().unwrap();
    assert_eq!(
        root.render_plan(&tree.hidden_panes),
        vec![
            BranchItem::Node { index: 0, flex: PaneFlex(DEFAULT_FLEX_BITS) },
            BranchItem::Divider { id: root.dividers[0].id },
            BranchItem::Node { index: 1, flex: PaneFlex(DEFAULT_FLEX_BITS) },
            BranchItem::Divider { id: root.dividers[1].id },
            BranchItem::Node { index: 2, flex: PaneFlex(DEFAULT_FLEX_BITS) },
        ]
    );
}

#[test]
fn a_collapsed_middle_pane_is_a_rail_and_the_flanking_divider_stays() {
    let mut tree = three_in_a_row();
    assert!(tree.collapse_pane(PaneId(2)));
    let root = tree.root.as_branch().unwrap();
    assert_eq!(
        root.render_plan(&tree.hidden_panes),
        vec![
            BranchItem::Node { index: 0, flex: PaneFlex(DEFAULT_FLEX_BITS) },
            BranchItem::Divider { id: root.dividers[0].id },
            BranchItem::Rail { index: 1, pane_ids: vec![PaneId(2)], chevron: Chevron::Left },
            BranchItem::Node { index: 2, flex: PaneFlex(DEFAULT_FLEX_BITS) },
        ]
    );
}

#[test]
fn a_trailing_rail_suppresses_the_divider_before_it() {
    let mut tree = three_in_a_row();
    assert!(tree.collapse_pane(PaneId(3)));
    let root = tree.root.as_branch().unwrap();
    assert_eq!(
        root.render_plan(&tree.hidden_panes),
        vec![
            BranchItem::Node { index: 0, flex: PaneFlex(DEFAULT_FLEX_BITS) },
            BranchItem::Divider { id: root.dividers[0].id },
            BranchItem::Node { index: 1, flex: PaneFlex(DEFAULT_FLEX_BITS) },
            BranchItem::Rail { index: 2, pane_ids: vec![PaneId(3)], chevron: Chevron::Left },
        ]
    );
}

#[test]
fn a_leading_rail_in_a_column_points_down() {
    let mut tree = PaneData::new(PaneId(1));
    tree.split(PaneId(1), PaneId(2), Direction::Down);
    assert!(tree.collapse_pane(PaneId(1)));
    let root = tree.root.as_branch().unwrap();
    assert_eq!(
        root.render_plan(&tree.hidden_panes),
        vec![
            BranchItem::Rail { index: 0, pane_ids: vec![PaneId(1)], chevron: Chevron::Down },
            BranchItem::Node { index: 1, flex: PaneFlex(DEFAULT_FLEX_BITS) },
        ]
    );
}

#[test]
fn panes_hidden_for_a_job_are_left_out_and_moving_panes_keep_an_empty_slot() {
    let mut tree = three_in_a_row();
    tree.hide_pane_for_job(PaneId(1));
    tree.hide_pane_for_move(PaneId(2));
    let root = tree.root.as_branch().unwrap();
    assert_eq!(
        root.render_plan(&tree.hidden_panes),
        vec![
            BranchItem::Node { index: 1, flex: PaneFlex(0) },
            BranchItem::Node { index: 2, flex: PaneFlex(DEFAULT_FLEX_BITS) },
        ]
    );
}

#[test]
fn rail_chevrons_point_the_way_the_panes_grow_back() {
    assert_eq!(rail_chevron(SplitDirection::Vertical, true), Chevron::Down);
    assert_eq!(rail_chevron(SplitDirection::Vertical, false), Chevron::Up);
    assert_eq!(rail_chevron(SplitDirection::Horizontal, true), Chevron::Right);
    assert_eq!(rail_chevron(SplitDirection::Horizontal, false), Chevron::Left);
}

#[test]
fn a_double_click_on_a_divider_resets_and_any_other_press_drags() {
    assert_eq!(
        divider_mouse_down_action(Some(2), 7, SplitDirection::Horizontal),
        DividerPress::ResetPaneSizes(7)
    );
    assert_eq!(
        divider_mouse_down_action(Some(1), 7, SplitDirection::Vertical),
        DividerPress::StartResizing(7, SplitDirection::Vertical)
    );
    assert_eq!(
        divider_mouse_down_action(None, 3, SplitDirection::Horizontal),
        DividerPress::StartResizing(3, SplitDirection::Horizontal)
    );
}

#[test]
fn the_plan_lists_each_shown_node_once_in_order() {
    let mut tree = three_in_a_row();
    tree.hide_closed_pane(PaneId(2));
    assert!(tree.collapse_pane(PaneId(3)));
    let root = tree.root.as_branch().unwrap();
    let indices: Vec<usize> = root
        .render_plan(&tree.hidden_panes)
        .iter()
        .filter_map(|item| match item {
            BranchItem::Rail { index, .. } | BranchItem::Node { index, .. } => Some(*index),
            BranchItem::Divider { .. } => None,
        })
        .collect();
    // The closed pane shows nothing and takes no place; the rail keeps its place.
    assert_eq!(indices, vec![0, 2]);
}
