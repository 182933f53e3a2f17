use warp::color_labels::{TabColorSlotLabelError, TabColorSlotLabels};
use warp::slash_commands::{
    parse_name_window_argument, parse_rename_tab_color_argument, parse_set_tab_color_argument,
    NameWindowCommandArgument, RenameTabColorCommandArgument, SelectedTabColor,
    SlashCommandArgumentError,
};
use warp::tab_settings::{tab_color_options, AnsiColorIdentifier, TabColorSlot};

#[test]
fn name_window_argument_sets_trimmed_name() {
    assert_eq!(
        parse_name_window_argument(Some("  Production Logs  ")),
        Ok(NameWindowCommandArgument::SetName("Production Logs".to_string()))
    );
}

#[test]
fn name_window_argument_clears_only_on_exact_clear_flag() {
    assert_eq!(
        parse_name_window_argument(Some("--clear")),
        Ok(NameWindowCommandArgument::Clear)
    );
    assert_eq!(
        parse_name_window_argument(Some("--clear later")),
        Ok(NameWindowCommandArgument::SetName("--clear later".to_string()))
    );
}

#[test]
fn name_window_argument_rejects_missing_or_blank_name() {
    assert!(parse_name_window_argument(None).is_err());
    assert!(parse_name_window_argument(Some("   ")).is_err());
}

#[test]
fn rename_tab_color_argument_sets_trimmed_label() {
    assert_eq!(
        parse_rename_tab_color_argument(Some(" blue   GOAL: primary  "), &tab_color_options()),
        Ok(RenameTabColorCommandArgument::SetLabel {
            slot: TabColorSlot::Blue,
            label: "GOAL: primary".to_owned(),
        })
    );
}

#[test]
fn rename_tab_color_argument_sets_quoted_default_label() {
    assert_eq!(
        parse_rename_tab_color_argument(Some(" default   \"Inactive\"  "), &tab_color_options()),
        Ok(RenameTabColorCommandArgument::SetLabel {
            slot: TabColorSlot::Default,
            label: "Inactive".to_owned(),
        })
    );
}

#[test]
fn rename_tab_color_argument_clears_only_on_exact_clear_flag_after_color() {
    assert_eq!(
        parse_rename_tab_color_argument(Some("blue --clear"), &tab_color_options()),
        Ok(RenameTabColorCommandArgument::Clear {
            slot: TabColorSlot::Blue,
        })
    );
    assert_eq!(
        parse_rename_tab_color_argument(Some("default --clear"), &tab_color_options()),
        Ok(RenameTabColorCommandArgument::Clear {
            slot: TabColorSlot::Default,
        })
    );
    assert_eq!(
        parse_rename_tab_color_argument(Some("blue --clear later"), &tab_color_options()),
        Ok(RenameTabColorCommandArgument::SetLabel {
            slot: TabColorSlot::Blue,
            label: "--clear later".to_owned(),
        })
    );
}

#[test]
fn rename_tab_color_argument_rejects_missing_unknown_or_blank_label() {
    assert!(parse_rename_tab_color_argument(None, &tab_color_options()).is_err());
    assert!(parse_rename_tab_color_argument(Some("   "), &tab_color_options()).is_err());
    assert!(parse_rename_tab_color_argument(Some("black Work"), &tab_color_options()).is_err());
    assert!(parse_rename_tab_color_argument(Some("blue   "), &tab_color_options()).is_err());
}

#[test]
fn set_tab_color_argument_resolves_raw_color_custom_label_and_none() {
    let labels = TabColorSlotLabels::default()
        .with_label(
            AnsiColorIdentifier::Blue.into(),
            "GOAL: primary",
            &tab_color_options(),
        )
        .expect("blue label should save")
        .with_label(TabColorSlot::Default, "Inactive", &tab_color_options())
        .expect("default label should save");

    assert_eq!(
        parse_set_tab_color_argument(Some("blue"), &labels),
        Ok(SelectedTabColor::Color(AnsiColorIdentifier::Blue))
    );
    assert_eq!(
        parse_set_tab_color_argument(Some("  goal: PRIMARY  "), &labels),
        Ok(SelectedTabColor::Color(AnsiColorIdentifier::Blue))
    );
    assert_eq!(
        parse_set_tab_color_argument(Some("none"), &labels),
        Ok(SelectedTabColor::Cleared)
    );
    assert_eq!(
        parse_set_tab_color_argument(Some("default"), &labels),
        Ok(SelectedTabColor::Cleared)
    );
    assert_eq!(
        parse_set_tab_color_argument(Some("inactive"), &labels),
        Ok(SelectedTabColor::Cleared)
    );
    assert!(parse_set_tab_color_argument(Some("goal"), &labels).is_err());
}

#[test]
fn rename_tab_color_rejects_reserved_default_and_color_labels() {
    let labels = TabColorSlotLabels::default();

    for label in ["default", "none", "red", "black", "WHITE"] {
        assert_eq!(
            labels.with_label(TabColorSlot::Blue, label, &tab_color_options()),
            Err(TabColorSlotLabelError::ReservedLabel),
            "{label} should be reserved"
        );
    }
}

// ---- further cases ----

#[test]
fn slash_command_arguments_report_which_part_is_wrong() {
    assert_eq!(
        parse_name_window_argument(None),
        Err(SlashCommandArgumentError::MissingArgument)
    );
    assert_eq!(
        parse_rename_tab_color_argument(Some("  "), &tab_color_options()),
        Err(SlashCommandArgumentError::MissingArgument)
    );
    assert_eq!(
        parse_rename_tab_color_argument(Some("black Work"), &tab_color_options()),
        Err(SlashCommandArgumentError::UnknownColor)
    );
    assert_eq!(
        parse_rename_tab_color_argument(Some("blue \"  \""), &tab_color_options()),
        Err(SlashCommandArgumentError::MissingLabel)
    );
    assert_eq!(
        parse_set_tab_color_argument(Some("teal"), &TabColorSlotLabels::new()),
        Err(SlashCommandArgumentError::UnknownColor)
    );
    assert_eq!(
        parse_set_tab_color_argument(Some("\t"), &TabColorSlotLabels::new()),
        Err(SlashCommandArgumentError::MissingArgument)
    );
}

#[test]
fn rename_tab_color_keeps_inner_spaces_and_quotes_in_the_middle() {
    assert_eq!(
        parse_rename_tab_color_argument(Some("Green  ship \"it\" now "), &tab_color_options()),
        Ok(RenameTabColorCommandArgument::SetLabel {
            slot: TabColorSlot::Green,
            label: "ship \"it\" now".to_owned(),
        })
    );
    assert_eq!(
        parse_name_window_argument(Some("\u{3000}Build  Bots\n")),
        Ok(NameWindowCommandArgument::SetName("Build  Bots".to_string()))
    );
}
