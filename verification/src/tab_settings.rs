use vstd::prelude::*;
use crate::text::{eq_ignore_ascii_case, eq_ignore_case, trim, trimmed};

verus! {

/// Where new tabs are placed in the tab bar.
#[derive(PartialEq, Eq, Clone, Copy, Debug, Structural)]
pub enum NewTabPlacement {
    AfterCurrentTab,
    AfterAllTabs,
}

/// Position of the close button on tabs.
#[derive(PartialEq, Eq, Clone, Copy, Debug, Structural)]
pub enum TabCloseButtonPosition {
    Right,
    Left,
}

/// Display mode for the vertical tab bar.
#[derive(PartialEq, Eq, Clone, Copy, Debug, Structural)]
pub enum VerticalTabsViewMode {
    Compact,
    Expanded,
}

/// Granularity of rows displayed in the vertical tabs panel.
#[derive(PartialEq, Eq, Clone, Copy, Debug, Structural)]
pub enum VerticalTabsDisplayGranularity {
    Panes,
    Tabs,
}

/// Tab item display mode in vertical tabs.
#[derive(PartialEq, Eq, Clone, Copy, Debug, Structural)]
pub enum VerticalTabsTabItemMode {
    FocusedSession,
    Summary,
}

/// Primary information displayed on vertical tabs.
#[derive(PartialEq, Eq, Clone, Copy, Debug, Structural)]
pub enum VerticalTabsPrimaryInfo {
    Command,
    WorkingDirectory,
    Branch,
}

/// Subtitle shown on compact vertical tabs.
#[derive(PartialEq, Eq, Clone, Copy, Debug, Structural)]
pub enum VerticalTabsCompactSubtitle {
    Branch,
    WorkingDirectory,
    Command,
}

/// Visibility options for workspace decorations like the tab bar.
#[derive(PartialEq, Eq, Clone, Copy, Debug, Structural)]
pub enum WorkspaceDecorationVisibility {
    /// Always show workspace decorations.
    AlwaysShow,
    /// Hide workspace decorations if fullscreen.
    HideFullscreen,
    /// Only show workspace decorations on hover.
    OnHover,
}

impl WorkspaceDecorationVisibility {
    pub open spec fn spec_toggled(self) -> Self {
        match self {
            WorkspaceDecorationVisibility::AlwaysShow => WorkspaceDecorationVisibility::OnHover,
            WorkspaceDecorationVisibility::OnHover => WorkspaceDecorationVisibility::HideFullscreen,
            WorkspaceDecorationVisibility::HideFullscreen => WorkspaceDecorationVisibility::OnHover,
        }
    }

    /// Choose a visibility setting that's logically opposite from this one:
    /// any hidden form re-enables the decorations, a shown form hides them.
    pub fn toggled(self) -> (r: Self)
        ensures
            r == self.spec_toggled(),
    {
        match self {
            WorkspaceDecorationVisibility::AlwaysShow => WorkspaceDecorationVisibility::OnHover,
            WorkspaceDecorationVisibility::OnHover => WorkspaceDecorationVisibility::HideFullscreen,
            WorkspaceDecorationVisibility::HideFullscreen => WorkspaceDecorationVisibility::OnHover,
        }
    }

    /// True if this is a setting where workspace decorations are hidden by default.
    pub fn hides_decorations_by_default(self) -> (r: bool)
        ensures
            r == (self is OnHover),
    {
        match self {
            WorkspaceDecorationVisibility::OnHover => true,
            _ => false,
        }
    }

    /// True if *window* decorations should be shown.
    pub fn show_window_decorations(self) -> (r: bool)
        ensures
            r == !(self is OnHover),
    {
        match self {
            WorkspaceDecorationVisibility::OnHover => false,
            _ => true,
        }
    }
}

/// Toggling flips whether decorations are hidden by default.
pub proof fn lemma_toggled_flips_hiding(v: WorkspaceDecorationVisibility)
    ensures
        (v.spec_toggled() is OnHover) == !(v is OnHover),
{
}

/// Toggling twice from a hidden-by-default setting comes back to it.
pub proof fn lemma_toggled_twice_from_hidden(v: WorkspaceDecorationVisibility)
    requires
        v is OnHover,
    ensures
        v.spec_toggled().spec_toggled() == v,
{
}

/// The eight ANSI terminal colors.
#[derive(PartialEq, Eq, Clone, Copy, Debug, Hash, Structural)]
pub enum AnsiColorIdentifier {
    Black,
    Red,
    Green,
    Yellow,
    Blue,
    Magenta,
    Cyan,
    White,
}

/// The color named by `s`, ignoring ASCII case.
pub open spec fn color_named(s: Seq<char>) -> Option<AnsiColorIdentifier> {
    if eq_ignore_case(s, "black"@) {
        Some(AnsiColorIdentifier::Black)
    } else if eq_ignore_case(s, "red"@) {
        Some(AnsiColorIdentifier::Red)
    } else if eq_ignore_case(s, "green"@) {
        Some(AnsiColorIdentifier::Green)
    } else if eq_ignore_case(s, "yellow"@) {
        Some(AnsiColorIdentifier::Yellow)
    } else if eq_ignore_case(s, "blue"@) {
        Some(AnsiColorIdentifier::Blue)
    } else if eq_ignore_case(s, "magenta"@) {
        Some(AnsiColorIdentifier::Magenta)
    } else if eq_ignore_case(s, "cyan"@) {
        Some(AnsiColorIdentifier::Cyan)
    } else if eq_ignore_case(s, "white"@) {
        Some(AnsiColorIdentifier::White)
    } else {
        None
    }
}

impl AnsiColorIdentifier {
    /// Parses a color name such as `blue` or `WHITE`.
    pub fn from_name(s: &str) -> (r: Option<AnsiColorIdentifier>)
        ensures
            r == color_named(s@),
    {
        if eq_ignore_ascii_case(s, "black") {
            Some(AnsiColorIdentifier::Black)
        } else if eq_ignore_ascii_case(s, "red") {
            Some(AnsiColorIdentifier::Red)
        } else if eq_ignore_ascii_case(s, "green") {
            Some(AnsiColorIdentifier::Green)
        } else if eq_ignore_ascii_case(s, "yellow") {
            Some(AnsiColorIdentifier::Yellow)
        } else if eq_ignore_ascii_case(s, "blue") {
            Some(AnsiColorIdentifier::Blue)
        } else if eq_ignore_ascii_case(s, "magenta") {
            Some(AnsiColorIdentifier::Magenta)
        } else if eq_ignore_ascii_case(s, "cyan") {
            Some(AnsiColorIdentifier::Cyan)
        } else if eq_ignore_ascii_case(s, "white") {
            Some(AnsiColorIdentifier::White)
        } else {
            None
        }
    }
}

/// The colors offered for tabs, in menu order.
pub open spec fn tab_color_option_seq() -> Seq<AnsiColorIdentifier> {
    seq![
        AnsiColorIdentifier::Red,
        AnsiColorIdentifier::Green,
        AnsiColorIdentifier::Yellow,
        AnsiColorIdentifier::Blue,
        AnsiColorIdentifier::Magenta,
        AnsiColorIdentifier::Cyan,
    ]
}

pub fn tab_color_options() -> (r: Vec<AnsiColorIdentifier>)
    ensures
        r@ == tab_color_option_seq(),
{
    let r = vec![
        AnsiColorIdentifier::Red,
        AnsiColorIdentifier::Green,
        AnsiColorIdentifier::Yellow,
        AnsiColorIdentifier::Blue,
        AnsiColorIdentifier::Magenta,
        AnsiColorIdentifier::Cyan,
    ];
    assert(r@ =~= tab_color_option_seq());
    r
}

/// Whether `c` occurs in `colors`.
pub fn contains_color(colors: &[AnsiColorIdentifier], c: AnsiColorIdentifier) -> (r: bool)
    ensures
        r == colors@.contains(c),
{
    let mut i: usize = 0;
    while i < colors.len()
        invariant
            i <= colors@.len(),
            forall|k: int| 0 <= k < i ==> colors@[k] != c,
        decreases colors@.len() - i,
    {
        if colors[i] == c {
            return true;
        }
        i = i + 1;
    }
    false
}

/// A fixed tab color slot that can be assigned a user-facing label.
#[derive(PartialEq, Eq, Clone, Copy, Debug, Hash, Structural)]
pub enum TabColorSlot {
    Default,
    Black,
    Red,
    Green,
    Yellow,
    Blue,
    Magenta,
    Cyan,
    White,
}

pub open spec fn slot_raw_label(slot: TabColorSlot) -> Seq<char> {
    match slot {
        TabColorSlot::Default => "Default"@,
        TabColorSlot::Black => "Black"@,
        TabColorSlot::Red => "Red"@,
        TabColorSlot::Green => "Green"@,
        TabColorSlot::Yellow => "Yellow"@,
        TabColorSlot::Blue => "Blue"@,
        TabColorSlot::Magenta => "Magenta"@,
        TabColorSlot::Cyan => "Cyan"@,
        TabColorSlot::White => "White"@,
    }
}

pub open spec fn slot_color(slot: TabColorSlot) -> Option<AnsiColorIdentifier> {
    match slot {
        TabColorSlot::Default => None,
        TabColorSlot::Black => Some(AnsiColorIdentifier::Black),
        TabColorSlot::Red => Some(AnsiColorIdentifier::Red),
        TabColorSlot::Green => Some(AnsiColorIdentifier::Green),
        TabColorSlot::Yellow => Some(AnsiColorIdentifier::Yellow),
        TabColorSlot::Blue => Some(AnsiColorIdentifier::Blue),
        TabColorSlot::Magenta => Some(AnsiColorIdentifier::Magenta),
        TabColorSlot::Cyan => Some(AnsiColorIdentifier::Cyan),
        TabColorSlot::White => Some(AnsiColorIdentifier::White),
    }
}

pub open spec fn slot_for_color(c: AnsiColorIdentifier) -> TabColorSlot {
    match c {
        AnsiColorIdentifier::Black => TabColorSlot::Black,
        AnsiColorIdentifier::Red => TabColorSlot::Red,
        AnsiColorIdentifier::Green => TabColorSlot::Green,
        AnsiColorIdentifier::Yellow => TabColorSlot::Yellow,
        AnsiColorIdentifier::Blue => TabColorSlot::Blue,
        AnsiColorIdentifier::Magenta => TabColorSlot::Magenta,
        AnsiColorIdentifier::Cyan => TabColorSlot::Cyan,
        AnsiColorIdentifier::White => TabColorSlot::White,
    }
}

/// The slot a typed color name selects: `default` and `none` pick the uncolored slot,
/// a color name picks its slot when that color is offered.
pub open spec fn slot_parse(input: Seq<char>, allowed: Seq<AnsiColorIdentifier>) -> Option<
    TabColorSlot,
> {
    let t = trimmed(input);
    if eq_ignore_case(t, "default"@) || eq_ignore_case(t, "none"@) {
        Some(TabColorSlot::Default)
    } else {
        match color_named(t) {
            Some(c) => if allowed.contains(c) {
                Some(slot_for_color(c))
            } else {
                None
            },
            None => None,
        }
    }
}

impl From<AnsiColorIdentifier> for TabColorSlot {
    fn from(color: AnsiColorIdentifier) -> (r: Self) {
        match color {
            AnsiColorIdentifier::Black => TabColorSlot::Black,
            AnsiColorIdentifier::Red => TabColorSlot::Red,
            AnsiColorIdentifier::Green => TabColorSlot::Green,
            AnsiColorIdentifier::Yellow => TabColorSlot::Yellow,
            AnsiColorIdentifier::Blue => TabColorSlot::Blue,
            AnsiColorIdentifier::Magenta => TabColorSlot::Magenta,
            AnsiColorIdentifier::Cyan => TabColorSlot::Cyan,
            AnsiColorIdentifier::White => TabColorSlot::White,
        }
    }
}

impl vstd::std_specs::convert::FromSpecImpl<AnsiColorIdentifier> for TabColorSlot {
    open spec fn obeys_from_spec() -> bool {
        true
    }

    open spec fn from_spec(v: AnsiColorIdentifier) -> Self {
        slot_for_color(v)
    }
}

impl TabColorSlot {
    /// The slot's own name, shown when it carries no custom label.
    pub fn raw_label(self) -> (r: &'static str)
        ensures
            r@ == slot_raw_label(self),
    {
        match self {
            TabColorSlot::Default => "Default",
            TabColorSlot::Black => "Black",
            TabColorSlot::Red => "Red",
            TabColorSlot::Green => "Green",
            TabColorSlot::Yellow => "Yellow",
            TabColorSlot::Blue => "Blue",
            TabColorSlot::Magenta => "Magenta",
            TabColorSlot::Cyan => "Cyan",
            TabColorSlot::White => "White",
        }
    }

    /// The terminal color painted for this slot; the default slot has none.
    pub fn color(self) -> (r: Option<AnsiColorIdentifier>)
        ensures
            r == slot_color(self),
    {
        match self {
            TabColorSlot::Default => None,
            TabColorSlot::Black => Some(AnsiColorIdentifier::Black),
            TabColorSlot::Red => Some(AnsiColorIdentifier::Red),
            TabColorSlot::Green => Some(AnsiColorIdentifier::Green),
            TabColorSlot::Yellow => Some(AnsiColorIdentifier::Yellow),
            TabColorSlot::Blue => Some(AnsiColorIdentifier::Blue),
            TabColorSlot::Magenta => Some(AnsiColorIdentifier::Magenta),
            TabColorSlot::Cyan => Some(AnsiColorIdentifier::Cyan),
            TabColorSlot::White => Some(AnsiColorIdentifier::White),
        }
    }

    /// The slot named by `input` (surrounding white space and ASCII case ignored),
    /// among the default slot and the slots of `allowed_colors`.
    pub fn parse(input: &str, allowed_colors: &[AnsiColorIdentifier]) -> (r: Option<Self>)
        ensures
            r == slot_parse(input@, allowed_colors@),
    {
        let input = trim(input);
        if eq_ignore_ascii_case(input, "default") || eq_ignore_ascii_case(input, "none") {
            return Some(TabColorSlot::Default);
        }
        match AnsiColorIdentifier::from_name(input) {
            Some(c) => {
                if contains_color(allowed_colors, c) {
                    Some(TabColorSlot::from(c))
                } else {
                    None
                }
            },
            None => None,
        }
    }
}

/// A slot and its color correspond one to one.
pub proof fn lemma_slot_color_round_trip(c: AnsiColorIdentifier, slot: TabColorSlot)
    ensures
        slot_color(slot_for_color(c)) == Some(c),
        slot_color(slot) matches Some(k) ==> slot_for_color(k) == slot,
        slot_color(slot) is None <==> slot == TabColorSlot::Default,
{
}

/// The chips that can appear in the header toolbar of the vertical tab panel.
#[derive(PartialEq, Eq, Clone, Copy, Debug, Hash, Structural)]
pub enum HeaderToolbarItemKind {
    TabsPanel,
    ToolsPanel,
    CodeReview,
    NotificationsMailbox,
    AgentManagement,
}

pub open spec fn default_left_items() -> Seq<HeaderToolbarItemKind> {
    seq![HeaderToolbarItemKind::TabsPanel, HeaderToolbarItemKind::ToolsPanel]
}

pub open spec fn default_right_items() -> Seq<HeaderToolbarItemKind> {
    seq![
        HeaderToolbarItemKind::CodeReview,
        HeaderToolbarItemKind::NotificationsMailbox,
        HeaderToolbarItemKind::AgentManagement,
    ]
}

impl HeaderToolbarItemKind {
    /// The chips on the left of the header when the user has not chosen any.
    pub fn default_left() -> (r: Vec<HeaderToolbarItemKind>)
        ensures
            r@ == default_left_items(),
    {
        let r = vec![HeaderToolbarItemKind::TabsPanel, HeaderToolbarItemKind::ToolsPanel];
        assert(r@ =~= default_left_items());
        r
    }

    /// The chips on the right of the header when the user has not chosen any.
    pub fn default_right() -> (r: Vec<HeaderToolbarItemKind>)
        ensures
            r@ == default_right_items(),
    {
        let r = vec![
            HeaderToolbarItemKind::CodeReview,
            HeaderToolbarItemKind::NotificationsMailbox,
            HeaderToolbarItemKind::AgentManagement,
        ];
        assert(r@ =~= default_right_items());
        r
    }

    /// Every chip kind.
    pub fn all_items() -> (r: Vec<HeaderToolbarItemKind>)
        ensures
            r@ == default_left_items() + default_right_items(),
            forall|k: HeaderToolbarItemKind| r@.contains(k),
    {
        let r = vec![
            HeaderToolbarItemKind::TabsPanel,
            HeaderToolbarItemKind::ToolsPanel,
            HeaderToolbarItemKind::CodeReview,
            HeaderToolbarItemKind::NotificationsMailbox,
            HeaderToolbarItemKind::AgentManagement,
        ];
        assert(r@ =~= default_left_items() + default_right_items());
        assert forall|k: HeaderToolbarItemKind| r@.contains(k) by {
            match k {
                HeaderToolbarItemKind::TabsPanel => assert(r@[0] == k),
                HeaderToolbarItemKind::ToolsPanel => assert(r@[1] == k),
                HeaderToolbarItemKind::CodeReview => assert(r@[2] == k),
                HeaderToolbarItemKind::NotificationsMailbox => assert(r@[3] == k),
                HeaderToolbarItemKind::AgentManagement => assert(r@[4] == k),
            }
        }
        r
    }
}

/// Configuration for the header toolbar chips in the vertical tab panel header.
#[derive(PartialEq, Eq, Clone, Debug)]
pub enum HeaderToolbarChipSelection {
    Default,
    Custom { left: Vec<HeaderToolbarItemKind>, right: Vec<HeaderToolbarItemKind> },
}

fn copy_items(items: &Vec<HeaderToolbarItemKind>) -> (r: Vec<HeaderToolbarItemKind>)
    ensures
        r@ == items@,
{
    let mut r: Vec<HeaderToolbarItemKind> = Vec::new();
    let mut i: usize = 0;
    while i < items.len()
        invariant
            i <= items@.len(),
            r@ == items@.subrange(0, i as int),
        decreases items@.len() - i,
    {
        r.push(items[i]);
        i = i + 1;
        assert(r@ =~= items@.subrange(0, i as int));
    }
    assert(r@ =~= items@);
    r
}

fn has_item(items: &Vec<HeaderToolbarItemKind>, item: &HeaderToolbarItemKind) -> (r: bool)
    ensures
        r == items@.contains(*item),
{
    let mut i: usize = 0;
    while i < items.len()
        invariant
            i <= items@.len(),
            forall|k: int| 0 <= k < i ==> items@[k] != *item,
        decreases items@.len() - i,
    {
        if items[i] == *item {
            return true;
        }
        i = i + 1;
    }
    false
}

impl HeaderToolbarChipSelection {
    pub open spec fn spec_left_items(&self) -> Seq<HeaderToolbarItemKind> {
        match self {
            HeaderToolbarChipSelection::Default => default_left_items(),
            HeaderToolbarChipSelection::Custom { left, .. } => left@,
        }
    }

    pub open spec fn spec_right_items(&self) -> Seq<HeaderToolbarItemKind> {
        match self {
            HeaderToolbarChipSelection::Default => default_right_items(),
            HeaderToolbarChipSelection::Custom { right, .. } => right@,
        }
    }

    /// The chips shown on the left: the defaults, or the user's own list.
    pub fn left_items(&self) -> (r: Vec<HeaderToolbarItemKind>)
        ensures
            r@ == self.spec_left_items(),
    {
        match self {
            HeaderToolbarChipSelection::Default => HeaderToolbarItemKind::default_left(),
            HeaderToolbarChipSelection::Custom { left, .. } => copy_items(left),
        }
    }

    /// The chips shown on the right: the defaults, or the user's own list.
    pub fn right_items(&self) -> (r: Vec<HeaderToolbarItemKind>)
        ensures
            r@ == self.spec_right_items(),
    {
        match self {
            HeaderToolbarChipSelection::Default => HeaderToolbarItemKind::default_right(),
            HeaderToolbarChipSelection::Custom { right, .. } => copy_items(right),
        }
    }

    /// Whether `item` is shown on either side.
    pub fn contains_item(&self, item: &HeaderToolbarItemKind) -> (r: bool)
        ensures
            r == (self.spec_left_items().contains(*item) || self.spec_right_items().contains(
                *item,
            )),
    {
        has_item(&self.left_items(), item) || has_item(&self.right_items(), item)
    }
}

} // verus!
