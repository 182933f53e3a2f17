use warp::color_labels::{TabColorSlotLabelError, TabColorSlotLabels};
use warp::directory_colors::{DirectoryTabColor, DirectoryTabColors};
use warp::settings_group::{RespectUserSyncSetting, SyncToCloud, TabSetting};
use warp::tab_settings::{
    tab_color_options, AnsiColorIdentifier, HeaderToolbarChipSelection, HeaderToolbarItemKind,
    TabColorSlot, WorkspaceDecorationVisibility,
};

#[test]
fn color_slot_labels_use_global_settings_sync_path() {
    assert_eq!(
        TabSetting::ColorSlotLabels.toml_path(),
        Some("appearance.tabs.color_slot_labels")
    );
    assert_eq!(
        TabSetting::ColorSlotLabels.sync_to_cloud(),
        SyncToCloud::Globally(RespectUserSyncSetting::Yes)
    );
    assert_eq!(TabSetting::DirectoryTabColors.sync_to_cloud(), SyncToCloud::Never);
}

#[test]
fn color_slot_labels_fall_back_to_raw_color_name() {
    let labels = TabColorSlotLabels::default();
    assert_eq!(labels.label_for_slot(TabColorSlot::Default), "Default");
    assert_eq!(
        labels.display_label_for_slot(TabColorSlot::Default),
        "Default"
    );
    assert_eq!(labels.label_for(AnsiColorIdentifier::Blue), "Blue");
    assert_eq!(labels.display_label_for(AnsiColorIdentifier::Blue), "Blue");
}

#[test]
fn color_slot_labels_store_trimmed_unique_color_labels() {
    let labels = TabColorSlotLabels::default()
        .with_label(
            AnsiColorIdentifier::Blue.into(),
            "  GOAL: primary  ",
            &tab_color_options(),
        )
        .expect("blue label should save");

    assert_eq!(labels.label_for(AnsiColorIdentifier::Blue), "GOAL: primary");
    assert_eq!(
        labels.display_label_for(AnsiColorIdentifier::Blue),
        "GOAL: primary (Blue)"
    );
    assert_eq!(
        labels.resolve_label("goal: PRIMARY", &tab_color_options()),
        Some(AnsiColorIdentifier::Blue)
    );
    assert_eq!(labels.resolve_label("goal", &tab_color_options()), None);
}

#[test]
fn color_slot_labels_store_trimmed_default_label() {
    let labels = TabColorSlotLabels::default()
        .with_label(TabColorSlot::Default, "  Inactive  ", &tab_color_options())
        .expect("default label should save");

    assert_eq!(labels.label_for_slot(TabColorSlot::Default), "Inactive");
    assert_eq!(
        labels.display_label_for_slot(TabColorSlot::Default),
        "Inactive (Default)"
    );
    assert_eq!(
        labels.resolve_slot_label("inactive", &tab_color_options()),
        Some(TabColorSlot::Default)
    );
    assert_eq!(
        labels.resolve_slot_label("default", &tab_color_options()),
        Some(TabColorSlot::Default)
    );
    assert_eq!(
        labels.resolve_slot_label("none", &tab_color_options()),
        Some(TabColorSlot::Default)
    );
}

#[test]
fn color_slot_labels_reject_duplicate_labels() {
    let labels = TabColorSlotLabels::default()
        .with_label(TabColorSlot::Default, "Inactive", &tab_color_options())
        .expect("default label should save");

    assert_eq!(
        labels.with_label(
            AnsiColorIdentifier::Blue.into(),
            "inactive",
            &tab_color_options(),
        ),
        Err(TabColorSlotLabelError::DuplicateLabel)
    );
}

#[test]
fn color_slot_labels_reject_reserved_labels() {
    let labels = TabColorSlotLabels::default();

    for label in ["default", "none", "blue", "RED", "black", "WHITE"] {
        assert_eq!(
            labels.with_label(TabColorSlot::Default, label, &tab_color_options()),
            Err(TabColorSlotLabelError::ReservedLabel),
            "{label} should be reserved"
        );
    }
}

#[test]
fn color_slot_labels_normalize_persisted_values() {
    let mut stored = TabColorSlotLabels::default();
    stored.set_stored_label(TabColorSlot::Default, "  Inactive  ".to_string());
    stored.set_stored_label(TabColorSlot::Black, "Dark".to_string());
    stored.set_stored_label(TabColorSlot::Red, "black".to_string());
    stored.set_stored_label(TabColorSlot::Green, "".to_string());
    stored.set_stored_label(TabColorSlot::Blue, "GOAL: primary".to_string());
    stored.set_stored_label(TabColorSlot::Magenta, "goal: PRIMARY".to_string());
    stored.set_stored_label(TabColorSlot::White, "Light".to_string());

    let labels = stored.normalized();
    assert_eq!(
        labels.custom_label_for_slot(TabColorSlot::Default),
        Some("Inactive")
    );
    assert_eq!(
        labels.custom_label_for_slot(TabColorSlot::Blue),
        Some("GOAL: primary")
    );
    assert_eq!(labels.custom_label_for_slot(TabColorSlot::Black), None);
    assert_eq!(labels.custom_label_for_slot(TabColorSlot::Red), None);
    assert_eq!(labels.custom_label_for_slot(TabColorSlot::Green), None);
    assert_eq!(labels.custom_label_for_slot(TabColorSlot::Magenta), None);
    assert_eq!(labels.custom_label_for_slot(TabColorSlot::White), None);
    assert_eq!(labels.resolve_label("black", &tab_color_options()), None);

    // Normalizing what was normalized changes nothing.
    assert_eq!(labels.normalized(), labels);
}

#[test]
fn color_slot_labels_clear_back_to_default_name() {
    let labels = TabColorSlotLabels::default()
        .with_label(
            AnsiColorIdentifier::Blue.into(),
            "GOAL: primary",
            &tab_color_options(),
        )
        .expect("blue label should save")
        .without_label(AnsiColorIdentifier::Blue.into());

    assert_eq!(labels.label_for(AnsiColorIdentifier::Blue), "Blue");
}

#[test]
fn use_latest_user_prompt_as_conversation_title_in_tab_names_defaults_to_false() {
    assert_eq!(
        TabSetting::UseLatestUserPromptAsConversationTitleInTabNames.default_flag(),
        Some(false)
    );
}

#[test]
fn use_latest_user_prompt_as_conversation_title_in_tab_names_uses_vertical_tabs_path() {
    let setting = TabSetting::UseLatestUserPromptAsConversationTitleInTabNames;
    assert_eq!(
        setting.toml_path(),
        Some("appearance.vertical_tabs.use_latest_prompt_as_title")
    );
    assert_eq!(setting.hierarchy(), Some("appearance.vertical_tabs"));
    assert_eq!(setting.toml_key(), "use_latest_prompt_as_title");
}

#[test]
fn show_vertical_tab_panel_in_restored_windows_defaults_to_false() {
    assert_eq!(
        TabSetting::ShowVerticalTabPanelInRestoredWindows.default_flag(),
        Some(false)
    );
}

#[test]
fn show_vertical_tab_panel_in_restored_windows_uses_vertical_tabs_path() {
    let setting = TabSetting::ShowVerticalTabPanelInRestoredWindows;
    assert_eq!(
        setting.toml_path(),
        Some("appearance.vertical_tabs.show_panel_in_restored_windows")
    );
    assert_eq!(setting.hierarchy(), Some("appearance.vertical_tabs"));
    assert_eq!(setting.toml_key(), "show_panel_in_restored_windows");
}

#[test]
fn hide_title_bar_search_bar_in_vertical_tabs_defaults_to_false() {
    assert_eq!(
        TabSetting::HideTitleBarSearchBarInVerticalTabs.default_flag(),
        Some(false)
    );
}

#[test]
fn hide_title_bar_search_bar_in_vertical_tabs_uses_vertical_tabs_path() {
    let setting = TabSetting::HideTitleBarSearchBarInVerticalTabs;
    assert_eq!(
        setting.toml_path(),
        Some("appearance.vertical_tabs.hide_title_bar_search_bar")
    );
    assert_eq!(setting.hierarchy(), Some("appearance.vertical_tabs"));
    assert_eq!(setting.toml_key(), "hide_title_bar_search_bar");
}

#[test]
fn header_toolbar_chip_selection_default_contains_code_review() {
    let config = HeaderToolbarChipSelection::Default;
    assert!(config.contains_item(&HeaderToolbarItemKind::CodeReview));
}

#[test]
fn header_toolbar_chip_selection_custom_without_code_review_reports_absent() {
    let config = HeaderToolbarChipSelection::Custom {
        left: vec![
            HeaderToolbarItemKind::TabsPanel,
            HeaderToolbarItemKind::ToolsPanel,
        ],
        right: vec![HeaderToolbarItemKind::NotificationsMailbox],
    };
    assert!(!config.contains_item(&HeaderToolbarItemKind::CodeReview));
    assert!(config.contains_item(&HeaderToolbarItemKind::TabsPanel));
    assert!(config.contains_item(&HeaderToolbarItemKind::ToolsPanel));
    assert!(config.contains_item(&HeaderToolbarItemKind::NotificationsMailbox));
    assert!(!config.contains_item(&HeaderToolbarItemKind::AgentManagement));
}

#[test]
fn header_toolbar_chip_selection_custom_with_code_review_on_left_reports_present() {
    let config = HeaderToolbarChipSelection::Custom {
        left: vec![HeaderToolbarItemKind::CodeReview],
        right: vec![],
    };
    assert!(config.contains_item(&HeaderToolbarItemKind::CodeReview));
}

#[test]
fn header_toolbar_chip_selection_custom_empty_reports_all_absent() {
    let config = HeaderToolbarChipSelection::Custom {
        left: vec![],
        right: vec![],
    };
    for item in HeaderToolbarItemKind::all_items() {
        assert!(!config.contains_item(&item));
    }
}

// ---- further cases ----

#[test]
fn header_toolbar_chip_selection_custom_lists_are_returned_as_given() {
    let config = HeaderToolbarChipSelection::Custom {
        left: vec![HeaderToolbarItemKind::AgentManagement],
        right: vec![HeaderToolbarItemKind::TabsPanel, HeaderToolbarItemKind::CodeReview],
    };
    assert_eq!(config.left_items(), vec![HeaderToolbarItemKind::AgentManagement]);
    assert_eq!(
        config.right_items(),
        vec![HeaderToolbarItemKind::TabsPanel, HeaderToolbarItemKind::CodeReview]
    );
    let default = HeaderToolbarChipSelection::Default;
    assert_eq!(default.left_items(), HeaderToolbarItemKind::default_left());
    assert_eq!(default.right_items(), HeaderToolbarItemKind::default_right());
}

#[test]
fn workspace_decoration_visibility_toggles() {
    let (always_show, hide_fullscreen, on_hover) = (
        WorkspaceDecorationVisibility::AlwaysShow,
        WorkspaceDecorationVisibility::HideFullscreen,
        WorkspaceDecorationVisibility::OnHover,
    );
    assert_eq!(always_show.toggled(), on_hover);
    assert_eq!(on_hover.toggled(), hide_fullscreen);
    assert_eq!(hide_fullscreen.toggled(), on_hover);
    assert_eq!(on_hover.toggled().toggled(), on_hover);
    assert!(on_hover.hides_decorations_by_default());
    assert!(!always_show.hides_decorations_by_default());
    assert!(!hide_fullscreen.hides_decorations_by_default());
    assert!(!on_hover.show_window_decorations());
    assert!(always_show.show_window_decorations());
    assert!(hide_fullscreen.show_window_decorations());
}

#[test]
fn tab_color_slot_names_colors_and_parsing() {
    assert_eq!(TabColorSlot::Magenta.raw_label(), "Magenta");
    assert_eq!(TabColorSlot::Default.color(), None);
    assert_eq!(TabColorSlot::White.color(), Some(AnsiColorIdentifier::White));
    let options = tab_color_options();
    assert_eq!(TabColorSlot::parse("  NONE ", &options), Some(TabColorSlot::Default));
    assert_eq!(TabColorSlot::parse("Cyan", &options), Some(TabColorSlot::Cyan));
    assert_eq!(TabColorSlot::parse("white", &options), None);
    assert_eq!(
        TabColorSlot::parse("white", &[AnsiColorIdentifier::White]),
        Some(TabColorSlot::White)
    );
    assert_eq!(TabColorSlot::parse("purple", &options), None);
    assert_eq!(AnsiColorIdentifier::from_name("YeLLoW"), Some(AnsiColorIdentifier::Yellow));
    assert_eq!(AnsiColorIdentifier::from_name(" red"), None);
}

#[test]
fn color_slot_labels_reject_unknown_color_and_empty_label() {
    let labels = TabColorSlotLabels::new();
    assert_eq!(
        labels.with_label(TabColorSlot::Black, "Dark", &tab_color_options()),
        Err(TabColorSlotLabelError::UnknownColor)
    );
    assert_eq!(
        labels.with_label(TabColorSlot::Red, " \t ", &tab_color_options()),
        Err(TabColorSlotLabelError::EmptyLabel)
    );
    // A slot may take the label it already has, in another case.
    let labels = labels
        .with_label(TabColorSlot::Red, "Urgent", &tab_color_options())
        .expect("red label should save");
    let relabeled = labels
        .with_label(TabColorSlot::Red, "URGENT", &tab_color_options())
        .expect("same slot may keep its label");
    assert_eq!(relabeled.custom_label(AnsiColorIdentifier::Red), Some("URGENT"));
}

#[test]
fn color_slot_labels_blank_custom_label_shows_raw_name() {
    let mut labels = TabColorSlotLabels::new();
    labels.set_stored_label(TabColorSlot::Green, "   ".to_string());
    assert_eq!(labels.custom_label_for_slot(TabColorSlot::Green), Some("   "));
    assert_eq!(labels.label_for_slot(TabColorSlot::Green), "Green");
    assert_eq!(labels.display_label_for_slot(TabColorSlot::Green), "Green");
    // A custom label is shown as stored, but displayed trimmed.
    labels.set_stored_label(TabColorSlot::Cyan, " Review ".to_string());
    assert_eq!(labels.label_for_slot(TabColorSlot::Cyan), " Review ");
    assert_eq!(labels.display_label_for_slot(TabColorSlot::Cyan), "Review (Cyan)");
}

#[test]
fn color_slot_labels_resolve_prefers_color_names() {
    let labels = TabColorSlotLabels::new()
        .with_label(TabColorSlot::Yellow, "Blocked", &tab_color_options())
        .expect("yellow label should save");
    assert_eq!(
        labels.resolve_slot_label("  blocked ", &tab_color_options()),
        Some(TabColorSlot::Yellow)
    );
    assert_eq!(
        labels.resolve_slot_label("green", &tab_color_options()),
        Some(TabColorSlot::Green)
    );
    assert_eq!(labels.resolve_slot_label("   ", &tab_color_options()), None);
    assert_eq!(labels.resolve_label("default", &tab_color_options()), None);
    // Only the offered colors are considered.
    assert_eq!(
        labels.resolve_slot_label("blocked", &[AnsiColorIdentifier::Red]),
        None
    );
}

#[test]
fn directory_tab_colors_pick_the_longest_configured_prefix() {
    let colors = DirectoryTabColors::new()
        .with_color("/home/me", DirectoryTabColor::Color(AnsiColorIdentifier::Red))
        .with_color(
            "/home/me/project",
            DirectoryTabColor::Color(AnsiColorIdentifier::Blue),
        )
        .with_color("/home/me/project/vendor", DirectoryTabColor::Suppressed);

    assert_eq!(
        colors.color_for_directory("/home/me/project/src"),
        Some(DirectoryTabColor::Color(AnsiColorIdentifier::Blue))
    );
    assert_eq!(
        colors.color_for_directory("/home/me/notes"),
        Some(DirectoryTabColor::Color(AnsiColorIdentifier::Red))
    );
    // A suppressed directory shadows the broader prefixes above it.
    assert_eq!(colors.color_for_directory("/home/me/project/vendor/lib"), None);
    assert_eq!(colors.color_for_directory("/home/me/project/vendor"), None);
    // Whole path components only.
    assert_eq!(colors.color_for_directory("/home/meadow"), None);
    assert_eq!(colors.color_for_directory("/tmp"), None);
}

#[test]
fn directory_tab_colors_suppressed_entry_shadows_broader_prefix() {
    let colors = DirectoryTabColors::new()
        .with_color("/a", DirectoryTabColor::Color(AnsiColorIdentifier::Red))
        .with_color("/a/b", DirectoryTabColor::Suppressed);
    assert_eq!(colors.color_for_directory("/a/b/c"), None);
    assert_eq!(
        colors.color_for_directory("/a/x"),
        Some(DirectoryTabColor::Color(AnsiColorIdentifier::Red))
    );
    assert_eq!(colors.longest_configured_prefix(&[true, false]), Some(DirectoryTabColor::Color(AnsiColorIdentifier::Red)));
    assert_eq!(colors.longest_configured_prefix(&[true, true]), None);
    assert_eq!(colors.longest_configured_prefix(&[false, false]), None);
}

#[test]
fn directory_tab_colors_with_color_replaces_an_entry() {
    let colors = DirectoryTabColors::new()
        .with_color("/work", DirectoryTabColor::Unassigned)
        .with_color("/work", DirectoryTabColor::Color(AnsiColorIdentifier::Green));
    assert_eq!(colors.len(), 1);
    assert_eq!(
        colors.entry(0),
        ("/work", DirectoryTabColor::Color(AnsiColorIdentifier::Green))
    );
    assert_eq!(
        colors.color_for_directory("/work"),
        Some(DirectoryTabColor::Color(AnsiColorIdentifier::Green))
    );
    assert_eq!(DirectoryTabColor::Unassigned.ansi_color(), None);
    assert_eq!(
        DirectoryTabColor::Color(AnsiColorIdentifier::Cyan).ansi_color(),
        Some(AnsiColorIdentifier::Cyan)
    );
}

#[test]
fn settings_paths_split_into_table_and_key() {
    assert_eq!(TabSetting::NewTabPlacement.hierarchy(), Some("general"));
    assert_eq!(TabSetting::NewTabPlacement.toml_key(), "new_tab_placement");
    assert_eq!(TabSetting::NewTabPlacement.sync_to_cloud(), SyncToCloud::Never);
    assert_eq!(TabSetting::ShowIndicatorsButton.default_flag(), Some(true));
    assert_eq!(TabSetting::VerticalTabsViewMode.default_flag(), None);
    assert_eq!(warp::settings_group::toml_table("plain"), None);
    assert_eq!(warp::settings_group::toml_key("plain"), "plain");
}

#[test]
fn a_slot_name_parses_back_to_its_slot_when_offered() {
    let slots = [
        TabColorSlot::Default,
        TabColorSlot::Black,
        TabColorSlot::Red,
        TabColorSlot::Green,
        TabColorSlot::Yellow,
        TabColorSlot::Blue,
        TabColorSlot::Magenta,
        TabColorSlot::Cyan,
        TabColorSlot::White,
    ];
    for slot in slots {
        let expected = match slot {
            TabColorSlot::Black | TabColorSlot::White => None,
            _ => Some(slot),
        };
        assert_eq!(TabColorSlot::parse(slot.raw_label(), &tab_color_options()), expected);
    }
}

#[test]
fn normalizing_keeps_the_first_of_equal_labels_trimmed() {
    let mut stored = TabColorSlotLabels::default();
    stored.set_stored_label(TabColorSlot::Default, "Work".to_string());
    stored.set_stored_label(TabColorSlot::Red, "  work ".to_string());
    stored.set_stored_label(TabColorSlot::Green, "  Home ".to_string());
    stored.set_stored_label(TabColorSlot::Yellow, " home".to_string());
    let labels = stored.normalized();
    assert_eq!(labels.custom_label_for_slot(TabColorSlot::Default), Some("Work"));
    assert_eq!(labels.custom_label_for_slot(TabColorSlot::Red), None);
    assert_eq!(labels.custom_label_for_slot(TabColorSlot::Green), Some("Home"));
    assert_eq!(labels.custom_label_for_slot(TabColorSlot::Yellow), None);
}
