use vstd::prelude::*;

verus! {

/// Whether a synced setting follows the user's own sync preference.
#[derive(PartialEq, Eq, Clone, Copy, Debug, Structural)]
pub enum RespectUserSyncSetting {
    Yes,
    No,
}

/// How a setting is synced to the cloud.
#[derive(PartialEq, Eq, Clone, Copy, Debug, Structural)]
pub enum SyncToCloud {
    Never,
    Globally(RespectUserSyncSetting),
}

/// The settings of the tab settings group.
#[derive(PartialEq, Eq, Clone, Copy, Debug, Structural)]
pub enum TabSetting {
    ShowIndicatorsButton,
    ShowCodeReviewButton,
    ShowCodeReviewDiffStats,
    PreserveActiveTabColor,
    UseVerticalTabs,
    ShowVerticalTabPanelInRestoredWindows,
    HideTitleBarSearchBarInVerticalTabs,
    UseLatestUserPromptAsConversationTitleInTabNames,
    VerticalTabsDisplayGranularity,
    VerticalTabsTabItemMode,
    VerticalTabsViewMode,
    VerticalTabsPrimaryInfo,
    VerticalTabsCompactSubtitle,
    VerticalTabsShowPrLink,
    VerticalTabsShowDiffStats,
    VerticalTabsShowDetailsOnHover,
    HeaderToolbarChipSelection,
    NewTabPlacement,
    WorkspaceDecorationVisibility,
    CloseButtonPosition,
    DirectoryTabColors,
    ColorSlotLabels,
}

/// Index of the last `.` in `s[..j]`, or -1.
pub open spec fn last_dot_before(s: Seq<char>, j: int) -> int
    decreases j,
{
    if j <= 0 {
        -1
    } else if s[j - 1] == '.' {
        j - 1
    } else {
        last_dot_before(s, j - 1)
    }
}

pub proof fn lemma_last_dot_bounds(s: Seq<char>, j: int)
    requires
        0 <= j <= s.len(),
    ensures
        -1 <= last_dot_before(s, j) < j,
        last_dot_before(s, j) >= 0 ==> s[last_dot_before(s, j)] == '.',
        forall|k: int| last_dot_before(s, j) < k < j ==> s[k] != '.',
    decreases j,
{
    if j > 0 && s[j - 1] != '.' {
        lemma_last_dot_bounds(s, j - 1);
    }
}

/// The table that holds a TOML path's key: everything before its last dot, if any.
pub open spec fn toml_table_of(path: Seq<char>) -> Option<Seq<char>> {
    let d = last_dot_before(path, path.len() as int);
    if d < 0 {
        None
    } else {
        Some(path.subrange(0, d))
    }
}

/// The key of a TOML path: everything after its last dot.
pub open spec fn toml_key_of(path: Seq<char>) -> Seq<char> {
    path.subrange(last_dot_before(path, path.len() as int) + 1, path.len() as int)
}

fn last_dot(s: &str) -> (r: Option<usize>)
    ensures
        match r {
            Some(d) => d == last_dot_before(s@, s@.len() as int),
            None => last_dot_before(s@, s@.len() as int) < 0,
        },
{
    let n = s.unicode_len();
    let mut j: usize = n;
    while j > 0 && s.get_char(j - 1) != '.'
        invariant
            n == s@.len(),
            j <= n,
            last_dot_before(s@, j as int) == last_dot_before(s@, n as int),
        decreases j,
    {
        j = j - 1;
    }
    if j == 0 {
        None
    } else {
        Some(j - 1)
    }
}

/// The table part of a dotted TOML path.
pub fn toml_table(path: &str) -> (r: Option<&str>)
    ensures
        match r {
            Some(t) => toml_table_of(path@) == Some(t@),
            None => toml_table_of(path@) is None,
        },
{
    proof {
        lemma_last_dot_bounds(path@, path@.len() as int);
    }
    match last_dot(path) {
        Some(d) => Some(path.substring_char(0, d)),
        None => None,
    }
}

/// The key part of a dotted TOML path.
pub fn toml_key(path: &str) -> (r: &str)
    ensures
        r@ == toml_key_of(path@),
{
    proof {
        lemma_last_dot_bounds(path@, path@.len() as int);
    }
    let n = path.unicode_len();
    match last_dot(path) {
        Some(d) => path.substring_char(d + 1, n),
        None => path.substring_char(0, n),
    }
}

pub open spec fn setting_toml_path(s: TabSetting) -> Seq<char> {
    match s {
        TabSetting::ShowIndicatorsButton => "appearance.tabs.show_indicators_button"@,
        TabSetting::ShowCodeReviewButton => "code.editor.show_code_review_button"@,
        TabSetting::ShowCodeReviewDiffStats => "code.editor.show_code_review_diff_stats"@,
        TabSetting::PreserveActiveTabColor => "appearance.tabs.preserve_active_tab_color"@,
        TabSetting::UseVerticalTabs => "appearance.vertical_tabs.enabled"@,
        TabSetting::ShowVerticalTabPanelInRestoredWindows =>
            "appearance.vertical_tabs.show_panel_in_restored_windows"@,
        TabSetting::HideTitleBarSearchBarInVerticalTabs =>
            "appearance.vertical_tabs.hide_title_bar_search_bar"@,
        TabSetting::UseLatestUserPromptAsConversationTitleInTabNames =>
            "appearance.vertical_tabs.use_latest_prompt_as_title"@,
        TabSetting::VerticalTabsDisplayGranularity =>
            "appearance.vertical_tabs.display_granularity"@,
        TabSetting::VerticalTabsTabItemMode => "appearance.vertical_tabs.tab_item_mode"@,
        TabSetting::VerticalTabsViewMode => "appearance.vertical_tabs.view_mode"@,
        TabSetting::VerticalTabsPrimaryInfo => "appearance.vertical_tabs.primary_info"@,
        TabSetting::VerticalTabsCompactSubtitle => "appearance.vertical_tabs.compact_subtitle"@,
        TabSetting::VerticalTabsShowPrLink => "appearance.vertical_tabs.show_pr_link"@,
        TabSetting::VerticalTabsShowDiffStats => "appearance.vertical_tabs.show_diff_stats"@,
        TabSetting::VerticalTabsShowDetailsOnHover =>
            "appearance.vertical_tabs.show_details_on_hover"@,
        TabSetting::HeaderToolbarChipSelection =>
            "appearance.tabs.header_toolbar_chip_selection"@,
        TabSetting::NewTabPlacement => "general.new_tab_placement"@,
        TabSetting::WorkspaceDecorationVisibility =>
            "appearance.tabs.workspace_decoration_visibility"@,
        TabSetting::CloseButtonPosition => "appearance.tabs.tab_close_button_position"@,
        TabSetting::DirectoryTabColors => "appearance.tabs.directory_tab_colors"@,
        TabSetting::ColorSlotLabels => "appearance.tabs.color_slot_labels"@,
    }
}

pub open spec fn setting_sync(s: TabSetting) -> SyncToCloud {
    match s {
        TabSetting::NewTabPlacement | TabSetting::DirectoryTabColors => SyncToCloud::Never,
        _ => SyncToCloud::Globally(RespectUserSyncSetting::Yes),
    }
}

pub open spec fn setting_default_flag(s: TabSetting) -> Option<bool> {
    match s {
        TabSetting::ShowIndicatorsButton
        | TabSetting::ShowCodeReviewButton
        | TabSetting::ShowCodeReviewDiffStats
        | TabSetting::VerticalTabsShowPrLink
        | TabSetting::VerticalTabsShowDiffStats
        | TabSetting::VerticalTabsShowDetailsOnHover => Some(true),
        TabSetting::PreserveActiveTabColor
        | TabSetting::UseVerticalTabs
        | TabSetting::ShowVerticalTabPanelInRestoredWindows
        | TabSetting::HideTitleBarSearchBarInVerticalTabs
        | TabSetting::UseLatestUserPromptAsConversationTitleInTabNames => Some(false),
        _ => None,
    }
}

impl TabSetting {
    /// Where the setting is stored in the settings file.
    pub fn toml_path(self) -> (r: Option<&'static str>)
        ensures
            r matches Some(p) && p@ == setting_toml_path(self),
    {
        let p = match self {
            TabSetting::ShowIndicatorsButton => "appearance.tabs.show_indicators_button",
            TabSetting::ShowCodeReviewButton => "code.editor.show_code_review_button",
            TabSetting::ShowCodeReviewDiffStats => "code.editor.show_code_review_diff_stats",
            TabSetting::PreserveActiveTabColor => "appearance.tabs.preserve_active_tab_color",
            TabSetting::UseVerticalTabs => "appearance.vertical_tabs.enabled",
            TabSetting::ShowVerticalTabPanelInRestoredWindows =>
                "appearance.vertical_tabs.show_panel_in_restored_windows",
            TabSetting::HideTitleBarSearchBarInVerticalTabs =>
                "appearance.vertical_tabs.hide_title_bar_search_bar",
            TabSetting::UseLatestUserPromptAsConversationTitleInTabNames =>
                "appearance.vertical_tabs.use_latest_prompt_as_title",
            TabSetting::VerticalTabsDisplayGranularity =>
                "appearance.vertical_tabs.display_granularity",
            TabSetting::VerticalTabsTabItemMode => "appearance.vertical_tabs.tab_item_mode",
            TabSetting::VerticalTabsViewMode => "appearance.vertical_tabs.view_mode",
            TabSetting::VerticalTabsPrimaryInfo => "appearance.vertical_tabs.primary_info",
            TabSetting::VerticalTabsCompactSubtitle => "appearance.vertical_tabs.compact_subtitle",
            TabSetting::VerticalTabsShowPrLink => "appearance.vertical_tabs.show_pr_link",
            TabSetting::VerticalTabsShowDiffStats => "appearance.vertical_tabs.show_diff_stats",
            TabSetting::VerticalTabsShowDetailsOnHover =>
                "appearance.vertical_tabs.show_details_on_hover",
            TabSetting::HeaderToolbarChipSelection =>
                "appearance.tabs.header_toolbar_chip_selection",
            TabSetting::NewTabPlacement => "general.new_tab_placement",
            TabSetting::WorkspaceDecorationVisibility =>
                "appearance.tabs.workspace_decoration_visibility",
            TabSetting::CloseButtonPosition => "appearance.tabs.tab_close_button_position",
            TabSetting::DirectoryTabColors => "appearance.tabs.directory_tab_colors",
            TabSetting::ColorSlotLabels => "appearance.tabs.color_slot_labels",
        };
        Some(p)
    }

    /// The TOML table that holds the setting.
    pub fn hierarchy(self) -> (r: Option<&'static str>)
        ensures
            match r {
                Some(t) => toml_table_of(setting_toml_path(self)) == Some(t@),
                None => toml_table_of(setting_toml_path(self)) is None,
            },
    {
        match self.toml_path() {
            Some(p) => toml_table(p),
            None => None,
        }
    }

    /// The setting's key inside its table.
    pub fn toml_key(self) -> (r: &'static str)
        ensures
            r@ == toml_key_of(setting_toml_path(self)),
    {
        match self.toml_path() {
            Some(p) => toml_key(p),
            None => "",
        }
    }

    /// How the setting is synced to the cloud.
    pub fn sync_to_cloud(self) -> (r: SyncToCloud)
        ensures
            r == setting_sync(self),
    {
        match self {
            TabSetting::NewTabPlacement | TabSetting::DirectoryTabColors => SyncToCloud::Never,
            _ => SyncToCloud::Globally(RespectUserSyncSetting::Yes),
        }
    }

    /// The default of an on/off setting; `None` for the others.
    pub fn default_flag(self) -> (r: Option<bool>)
        ensures
            r == setting_default_flag(self),
    {
        match self {
            TabSetting::ShowIndicatorsButton
            | TabSetting::ShowCodeReviewButton
            | TabSetting::ShowCodeReviewDiffStats
            | TabSetting::VerticalTabsShowPrLink
            | TabSetting::VerticalTabsShowDiffStats
            | TabSetting::VerticalTabsShowDetailsOnHover => Some(true),
            TabSetting::PreserveActiveTabColor
            | TabSetting::UseVerticalTabs
            | TabSetting::ShowVerticalTabPanelInRestoredWindows
            | TabSetting::HideTitleBarSearchBarInVerticalTabs
            | TabSetting::UseLatestUserPromptAsConversationTitleInTabNames => Some(false),
            _ => None,
        }
    }
}

/// A path is its table, a dot and its key.
pub proof fn lemma_toml_path_split(path: Seq<char>)
    ensures
        toml_table_of(path) matches Some(t) ==> path == t + "."@ + toml_key_of(path),
        toml_table_of(path) is None ==> path == toml_key_of(path),
{
    lemma_last_dot_bounds(path, path.len() as int);
    reveal_strlit(".");
    let d = last_dot_before(path, path.len() as int);
    if d >= 0 {
        assert(path =~= path.subrange(0, d) + "."@ + path.subrange(d + 1, path.len() as int));
    } else {
        assert(path =~= path.subrange(0, path.len() as int));
    }
}

} // verus!
