use vstd::prelude::*;
use crate::color_labels::{resolve_slot, TabColorSlotLabels};
use crate::tab_settings::{
    slot_color, slot_parse, tab_color_option_seq, tab_color_options, AnsiColorIdentifier,
    TabColorSlot,
};
use crate::text::{first_space, split_first_word, str_equals, trim, trimmed};

verus! {

/// Why a slash command argument was refused.
#[derive(PartialEq, Eq, Clone, Copy, Debug, Structural)]
pub enum SlashCommandArgumentError {
    /// No argument, or only white space.
    MissingArgument,
    /// The first word names no offered tab color.
    UnknownColor,
    /// A tab color was named but no label follows it.
    MissingLabel,
}

/// What `/name-window` asks for.
#[derive(PartialEq, Eq, Clone, Debug)]
pub enum NameWindowCommandArgument {
    SetName(String),
    Clear,
}

/// What `/rename-tab-color` asks for.
#[derive(PartialEq, Eq, Clone, Debug)]
pub enum RenameTabColorCommandArgument {
    SetLabel { slot: TabColorSlot, label: String },
    Clear { slot: TabColorSlot },
}

/// The tab color a user picked: a color, or none.
#[derive(PartialEq, Eq, Clone, Copy, Debug, Structural)]
pub enum SelectedTabColor {
    Color(AnsiColorIdentifier),
    Cleared,
}

/// The text of an optional argument.
pub open spec fn opt_view(argument: Option<&str>) -> Option<Seq<char>> {
    match argument {
        Some(a) => Some(a@),
        None => None,
    }
}

/// The window name requested by `argument`; `None` stands for clearing it.
pub open spec fn name_window_outcome(argument: Option<Seq<char>>) -> Result<
    Option<Seq<char>>,
    SlashCommandArgumentError,
> {
    match argument {
        None => Err(SlashCommandArgumentError::MissingArgument),
        Some(a) => {
            let t = trimmed(a);
            if t.len() == 0 {
                Err(SlashCommandArgumentError::MissingArgument)
            } else if t == "--clear"@ {
                Ok(None)
            } else {
                Ok(Some(t))
            }
        },
    }
}

/// Parses the argument of `/name-window`: the trimmed text is the name, and only an exact
/// `--clear` clears it.
pub fn parse_name_window_argument(argument: Option<&str>) -> (r: Result<
    NameWindowCommandArgument,
    SlashCommandArgumentError,
>)
    ensures
        match r {
            Ok(NameWindowCommandArgument::SetName(name)) => name_window_outcome(
                opt_view(argument),
            ) == Ok::<Option<Seq<char>>, SlashCommandArgumentError>(Some(name@)),
            Ok(NameWindowCommandArgument::Clear) => name_window_outcome(
                opt_view(argument),
            ) == Ok::<Option<Seq<char>>, SlashCommandArgumentError>(None),
            Err(e) => name_window_outcome(opt_view(argument)) == Err::<
                Option<Seq<char>>,
                SlashCommandArgumentError,
            >(e),
        },
{
    let raw = match argument {
        Some(a) => a,
        None => {
            return Err(SlashCommandArgumentError::MissingArgument);
        },
    };
    let name = trim(raw);
    if name.unicode_len() == 0 {
        return Err(SlashCommandArgumentError::MissingArgument);
    }
    if str_equals(name, "--clear") {
        return Ok(NameWindowCommandArgument::Clear);
    }
    Ok(NameWindowCommandArgument::SetName(String::from_str(name)))
}

/// `s` without one pair of surrounding double quotes, trimmed inside; otherwise `s`.
pub open spec fn unquoted(s: Seq<char>) -> Seq<char> {
    if s.len() >= 2 && s[0] == '"' && s[s.len() - 1] == '"' {
        trimmed(s.subrange(1, s.len() - 1))
    } else {
        s
    }
}

/// The slot and label requested by `argument`; a `None` label stands for clearing it.
pub open spec fn rename_tab_color_outcome(
    argument: Option<Seq<char>>,
    allowed: Seq<AnsiColorIdentifier>,
) -> Result<(TabColorSlot, Option<Seq<char>>), SlashCommandArgumentError> {
    match argument {
        None => Err(SlashCommandArgumentError::MissingArgument),
        Some(a) => {
            let t = trimmed(a);
            let word = t.subrange(0, first_space(t, 0));
            let rest = trimmed(t.subrange(first_space(t, 0), t.len() as int));
            if t.len() == 0 {
                Err(SlashCommandArgumentError::MissingArgument)
            } else if slot_parse(word, allowed) is None {
                Err(SlashCommandArgumentError::UnknownColor)
            } else if rest == "--clear"@ {
                Ok((slot_parse(word, allowed)->0, None))
            } else if unquoted(rest).len() == 0 {
                Err(SlashCommandArgumentError::MissingLabel)
            } else {
                Ok((slot_parse(word, allowed)->0, Some(unquoted(rest))))
            }
        },
    }
}

fn unquote(s: &str) -> (r: &str)
    ensures
        r@ == unquoted(s@),
{
    let n = s.unicode_len();
    if n >= 2 && s.get_char(0) == '"' && s.get_char(n - 1) == '"' {
        trim(s.substring_char(1, n - 1))
    } else {
        s
    }
}

/// Parses the argument of `/rename-tab-color`: a tab color (or `default`/`none`), then a
/// label that may be wrapped in double quotes; an exact `--clear` after the color clears it.
pub fn parse_rename_tab_color_argument(
    argument: Option<&str>,
    allowed_colors: &[AnsiColorIdentifier],
) -> (r: Result<RenameTabColorCommandArgument, SlashCommandArgumentError>)
    ensures
        match r {
            Ok(RenameTabColorCommandArgument::SetLabel { slot, label }) => rename_tab_color_outcome(
                opt_view(argument),
                allowed_colors@,
            ) == Ok::<(TabColorSlot, Option<Seq<char>>), SlashCommandArgumentError>(
                (slot, Some(label@)),
            ),
            Ok(RenameTabColorCommandArgument::Clear { slot }) => rename_tab_color_outcome(
                opt_view(argument),
                allowed_colors@,
            ) == Ok::<(TabColorSlot, Option<Seq<char>>), SlashCommandArgumentError>(
                (slot, None),
            ),
            Err(e) => rename_tab_color_outcome(opt_view(argument), allowed_colors@)
                == Err::<(TabColorSlot, Option<Seq<char>>), SlashCommandArgumentError>(e),
        },
{
    let raw = match argument {
        Some(a) => a,
        None => {
            return Err(SlashCommandArgumentError::MissingArgument);
        },
    };
    let text = trim(raw);
    if text.unicode_len() == 0 {
        return Err(SlashCommandArgumentError::MissingArgument);
    }
    let (word, remainder) = split_first_word(text);
    let slot = match TabColorSlot::parse(word, allowed_colors) {
        Some(slot) => slot,
        None => {
            return Err(SlashCommandArgumentError::UnknownColor);
        },
    };
    let rest = trim(remainder);
    if str_equals(rest, "--clear") {
        return Ok(RenameTabColorCommandArgument::Clear { slot });
    }
    let label = unquote(rest);
    if label.unicode_len() == 0 {
        return Err(SlashCommandArgumentError::MissingLabel);
    }
    Ok(RenameTabColorCommandArgument::SetLabel { slot, label: String::from_str(label) })
}

/// The tab color requested by `argument` given the user's slot labels.
pub open spec fn set_tab_color_outcome(
    argument: Option<Seq<char>>,
    labels: Map<TabColorSlot, Seq<char>>,
) -> Result<SelectedTabColor, SlashCommandArgumentError> {
    match argument {
        None => Err(SlashCommandArgumentError::MissingArgument),
        Some(a) => if trimmed(a).len() == 0 {
            Err(SlashCommandArgumentError::MissingArgument)
        } else {
            match resolve_slot(labels, a, tab_color_option_seq()) {
                None => Err(SlashCommandArgumentError::UnknownColor),
                Some(s) => match slot_color(s) {
                    Some(c) => Ok(SelectedTabColor::Color(c)),
                    None => Ok(SelectedTabColor::Cleared),
                },
            }
        },
    }
}

/// Parses the argument of `/set-tab-color`: a color name, `default`/`none`, or a custom
/// slot label.
pub fn parse_set_tab_color_argument(argument: Option<&str>, labels: &TabColorSlotLabels) -> (r:
    Result<SelectedTabColor, SlashCommandArgumentError>)
    ensures
        r == set_tab_color_outcome(opt_view(argument), labels@),
{
    let raw = match argument {
        Some(a) => a,
        None => {
            return Err(SlashCommandArgumentError::MissingArgument);
        },
    };
    if trim(raw).unicode_len() == 0 {
        return Err(SlashCommandArgumentError::MissingArgument);
    }
    let options = tab_color_options();
    match labels.resolve_slot_label(raw, options.as_slice()) {
        None => Err(SlashCommandArgumentError::UnknownColor),
        Some(slot) => match slot.color() {
            Some(c) => Ok(SelectedTabColor::Color(c)),
            None => Ok(SelectedTabColor::Cleared),
        },
    }
}

/// A window name or tab color label set by a slash command is never blank and has no
/// surrounding white space.
pub proof fn law_set_names_are_trimmed(
    argument: Option<Seq<char>>,
    allowed: Seq<AnsiColorIdentifier>,
)
    ensures
        name_window_outcome(argument) matches Ok(Some(n)) ==> n.len() > 0 && trimmed(n) == n,
        rename_tab_color_outcome(argument, allowed) matches Ok((_, Some(l))) ==> l.len() > 0
            && trimmed(l) == l,
{
    match argument {
        Some(a) => {
            crate::text::lemma_trimmed_idempotent(a);
            let t = trimmed(a);
            let rest = trimmed(t.subrange(first_space(t, 0), t.len() as int));
            crate::text::lemma_trimmed_idempotent(t.subrange(first_space(t, 0), t.len() as int));
            if rest.len() >= 2 && rest[0] == '"' && rest[rest.len() - 1] == '"' {
                crate::text::lemma_trimmed_idempotent(rest.subrange(1, rest.len() - 1));
            }
        },
        None => {},
    }
}

} // verus!
