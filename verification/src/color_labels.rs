use vstd::prelude::*;
use crate::tab_settings::{
    color_named, contains_color, slot_color, slot_for_color, slot_parse, slot_raw_label,
    tab_color_option_seq, tab_color_options, AnsiColorIdentifier, TabColorSlot,
};
use crate::text::{eq_ignore_ascii_case, eq_ignore_case, trim, trimmed};

verus! {

/// Why a label could not be given to a slot.
#[derive(PartialEq, Eq, Clone, Copy, Debug, Structural)]
pub enum TabColorSlotLabelError {
    UnknownColor,
    EmptyLabel,
    ReservedLabel,
    DuplicateLabel,
}

/// A label that would read as a color name (or as "no color") and is therefore refused.
pub open spec fn is_reserved_label(label: Seq<char>) -> bool {
    ||| eq_ignore_case(label, "default"@)
    ||| eq_ignore_case(label, "none"@)
    ||| color_named(label) is Some
}

/// Some slot other than `skip` already carries `label`, up to ASCII case and surrounding space.
pub open spec fn clashes(
    acc: Map<TabColorSlot, Seq<char>>,
    label: Seq<char>,
    skip: Option<TabColorSlot>,
) -> bool {
    exists|s: TabColorSlot|
        Some(s) != skip && #[trigger] acc.contains_key(s) && eq_ignore_case(trimmed(acc[s]), label)
}

/// Whether `label` may join the labels in `acc`.
pub open spec fn admits(acc: Map<TabColorSlot, Seq<char>>, label: Seq<char>) -> bool {
    &&& label.len() > 0
    &&& !is_reserved_label(label)
    &&& !clashes(acc, label, None)
}

/// The slots that can carry a label: the default slot, then one per offered color.
pub open spec fn label_slots(allowed: Seq<AnsiColorIdentifier>) -> Seq<TabColorSlot> {
    seq![TabColorSlot::Default] + allowed.map_values(|c: AnsiColorIdentifier| slot_for_color(c))
}

/// One step of normalization: the trimmed label of `slot` is kept if it is admitted.
pub open spec fn keep_step(
    acc: Map<TabColorSlot, Seq<char>>,
    m: Map<TabColorSlot, Seq<char>>,
    slot: TabColorSlot,
) -> Map<TabColorSlot, Seq<char>> {
    if m.contains_key(slot) && admits(acc, trimmed(m[slot])) {
        acc.insert(slot, trimmed(m[slot]))
    } else {
        acc
    }
}

/// Normalization of `m` over the first `n` slots of `slots`.
pub open spec fn normalize_prefix(
    m: Map<TabColorSlot, Seq<char>>,
    slots: Seq<TabColorSlot>,
    n: int,
) -> Map<TabColorSlot, Seq<char>>
    decreases n,
{
    if n <= 0 {
        Map::empty()
    } else {
        keep_step(normalize_prefix(m, slots, n - 1), m, slots[n - 1])
    }
}

/// The labels of `m` that survive: walking the slots in order, each label is trimmed and
/// kept unless it is blank, reserved, or a case-insensitive repeat of one already kept.
pub open spec fn normalize_labels(
    m: Map<TabColorSlot, Seq<char>>,
    allowed: Seq<AnsiColorIdentifier>,
) -> Map<TabColorSlot, Seq<char>> {
    normalize_prefix(m, label_slots(allowed), label_slots(allowed).len() as int)
}

/// The error `with_label` gives, if any.
pub open spec fn label_error(
    m: Map<TabColorSlot, Seq<char>>,
    slot: TabColorSlot,
    label: Seq<char>,
    allowed: Seq<AnsiColorIdentifier>,
) -> Option<TabColorSlotLabelError> {
    let t = trimmed(label);
    if slot_color(slot) is Some && !allowed.contains(slot_color(slot)->0) {
        Some(TabColorSlotLabelError::UnknownColor)
    } else if t.len() == 0 {
        Some(TabColorSlotLabelError::EmptyLabel)
    } else if is_reserved_label(t) {
        Some(TabColorSlotLabelError::ReservedLabel)
    } else if clashes(normalize_labels(m, allowed), t, Some(slot)) {
        Some(TabColorSlotLabelError::DuplicateLabel)
    } else {
        None
    }
}

/// The first slot of `slots`, from index `i` on, whose label matches `t`.
pub open spec fn first_labelled(
    labels: Map<TabColorSlot, Seq<char>>,
    slots: Seq<TabColorSlot>,
    t: Seq<char>,
    i: int,
) -> Option<TabColorSlot>
    decreases slots.len() - i,
{
    if i < 0 || i >= slots.len() {
        None
    } else if labels.contains_key(slots[i]) && eq_ignore_case(trimmed(labels[slots[i]]), t) {
        Some(slots[i])
    } else {
        first_labelled(labels, slots, t, i + 1)
    }
}

/// The slot a typed name refers to: a color name first, else a custom label.
pub open spec fn resolve_slot(
    m: Map<TabColorSlot, Seq<char>>,
    input: Seq<char>,
    allowed: Seq<AnsiColorIdentifier>,
) -> Option<TabColorSlot> {
    let t = trimmed(input);
    if t.len() == 0 {
        None
    } else {
        match slot_parse(t, allowed) {
            Some(s) => Some(s),
            None => first_labelled(normalize_labels(m, allowed), label_slots(allowed), t, 0),
        }
    }
}

/// The label shown for `slot`: its custom label unless that is blank, else the slot's name.
pub open spec fn shown_label(m: Map<TabColorSlot, Seq<char>>, slot: TabColorSlot) -> Seq<char> {
    if m.contains_key(slot) && trimmed(m[slot]).len() > 0 {
        m[slot]
    } else {
        slot_raw_label(slot)
    }
}

/// The label shown with the slot's name in brackets, as in `GOAL (Blue)`.
pub open spec fn shown_display_label(m: Map<TabColorSlot, Seq<char>>, slot: TabColorSlot) -> Seq<
    char,
> {
    if m.contains_key(slot) && trimmed(m[slot]).len() > 0 {
        trimmed(m[slot]) + " ("@ + slot_raw_label(slot) + ")"@
    } else {
        slot_raw_label(slot)
    }
}

/// User-configured labels for the fixed tab color slots.
#[derive(Debug, Clone, PartialEq, Eq)]
pub struct TabColorSlotLabels {
    default: Option<String>,
    black: Option<String>,
    red: Option<String>,
    green: Option<String>,
    yellow: Option<String>,
    blue: Option<String>,
    magenta: Option<String>,
    cyan: Option<String>,
    white: Option<String>,
}

impl TabColorSlotLabels {
    spec fn entry_spec(&self, slot: TabColorSlot) -> Option<String> {
        match slot {
            TabColorSlot::Default => self.default,
            TabColorSlot::Black => self.black,
            TabColorSlot::Red => self.red,
            TabColorSlot::Green => self.green,
            TabColorSlot::Yellow => self.yellow,
            TabColorSlot::Blue => self.blue,
            TabColorSlot::Magenta => self.magenta,
            TabColorSlot::Cyan => self.cyan,
            TabColorSlot::White => self.white,
        }
    }
}

impl View for TabColorSlotLabels {
    type V = Map<TabColorSlot, Seq<char>>;

    closed spec fn view(&self) -> Map<TabColorSlot, Seq<char>> {
        Map::new(
            |s: TabColorSlot| self.entry_spec(s) is Some,
            |s: TabColorSlot| self.entry_spec(s)->0@,
        )
    }
}

impl TabColorSlotLabels {
    /// No slot carries a label.
    pub fn new() -> (r: Self)
        ensures
            r@ == Map::<TabColorSlot, Seq<char>>::empty(),
    {
        let r = TabColorSlotLabels {
            default: None,
            black: None,
            red: None,
            green: None,
            yellow: None,
            blue: None,
            magenta: None,
            cyan: None,
            white: None,
        };
        assert(r@ =~= Map::<TabColorSlot, Seq<char>>::empty());
        r
    }

    fn entry(&self, slot: TabColorSlot) -> (r: &Option<String>)
        ensures
            r is Some <==> self@.contains_key(slot),
            r is Some ==> r->0@ == self@[slot],
    {
        match slot {
            TabColorSlot::Default => &self.default,
            TabColorSlot::Black => &self.black,
            TabColorSlot::Red => &self.red,
            TabColorSlot::Green => &self.green,
            TabColorSlot::Yellow => &self.yellow,
            TabColorSlot::Blue => &self.blue,
            TabColorSlot::Magenta => &self.magenta,
            TabColorSlot::Cyan => &self.cyan,
            TabColorSlot::White => &self.white,
        }
    }

    fn put(&mut self, slot: TabColorSlot, v: Option<String>)
        ensures
            forall|s: TabColorSlot| s != slot ==> final(self).entry_spec(s) == old(self).entry_spec(s),
            final(self).entry_spec(slot) == v,
    {
        match slot {
            TabColorSlot::Default => self.default = v,
            TabColorSlot::Black => self.black = v,
            TabColorSlot::Red => self.red = v,
            TabColorSlot::Green => self.green = v,
            TabColorSlot::Yellow => self.yellow = v,
            TabColorSlot::Blue => self.blue = v,
            TabColorSlot::Magenta => self.magenta = v,
            TabColorSlot::Cyan => self.cyan = v,
            TabColorSlot::White => self.white = v,
        }
    }

    /// Stores `label` for `slot` as given, without any check; used to load saved settings,
    /// which are normalized afterwards.
    pub fn set_stored_label(&mut self, slot: TabColorSlot, label: String)
        ensures
            final(self)@ == old(self)@.insert(slot, label@),
    {
        let ghost l = label@;
        self.put(slot, Some(label));
        assert(self@ =~= old(self)@.insert(slot, l));
    }

    fn clear_label(&mut self, slot: TabColorSlot)
        ensures
            final(self)@ == old(self)@.remove(slot),
    {
        self.put(slot, None);
        assert(self@ =~= old(self)@.remove(slot));
    }
}

impl TabColorSlotLabels {
    fn clash_at(&self, slot: TabColorSlot, label: &str, skip: Option<TabColorSlot>) -> (r: bool)
        ensures
            r == (Some(slot) != skip && self@.contains_key(slot) && eq_ignore_case(
                trimmed(self@[slot]),
                label@,
            )),
    {
        let skipped = match skip {
            Some(k) => k == slot,
            None => false,
        };
        if skipped {
            return false;
        }
        match self.entry(slot) {
            Some(existing) => eq_ignore_ascii_case(trim(existing.as_str()), label),
            None => false,
        }
    }

    fn has_clash(&self, label: &str, skip: Option<TabColorSlot>) -> (r: bool)
        ensures
            r == clashes(self@, label@, skip),
    {
        let r = self.clash_at(TabColorSlot::Default, label, skip) || self.clash_at(
            TabColorSlot::Black,
            label,
            skip,
        ) || self.clash_at(TabColorSlot::Red, label, skip) || self.clash_at(
            TabColorSlot::Green,
            label,
            skip,
        ) || self.clash_at(TabColorSlot::Yellow, label, skip) || self.clash_at(
            TabColorSlot::Blue,
            label,
            skip,
        ) || self.clash_at(TabColorSlot::Magenta, label, skip) || self.clash_at(
            TabColorSlot::Cyan,
            label,
            skip,
        ) || self.clash_at(TabColorSlot::White, label, skip);
        r
    }

    fn keep_label_from(&mut self, source: &Self, slot: TabColorSlot)
        ensures
            final(self)@ == keep_step(old(self)@, source@, slot),
    {
        match source.entry(slot) {
            Some(label) => {
                let t = trim(label.as_str());
                if t.unicode_len() > 0 && !is_reserved(t) && !self.has_clash(t, None) {
                    self.set_stored_label(slot, String::from_str(t));
                }
            },
            None => {},
        }
    }

    fn normalized_with_allowed_colors(&self, allowed_colors: &[AnsiColorIdentifier]) -> (r: Self)
        ensures
            r@ == normalize_labels(self@, allowed_colors@),
    {
        let ghost slots = label_slots(allowed_colors@);
        let mut out = Self::new();
        out.keep_label_from(self, TabColorSlot::Default);
        assert(slots[0] == TabColorSlot::Default);
        assert(normalize_prefix(self@, slots, 0) == Map::<TabColorSlot, Seq<char>>::empty());
        let mut i: usize = 0;
        while i < allowed_colors.len()
            invariant
                slots == label_slots(allowed_colors@),
                i <= allowed_colors@.len(),
                out@ == normalize_prefix(self@, slots, i + 1),
            decreases allowed_colors@.len() - i,
        {
            let slot = TabColorSlot::from(allowed_colors[i]);
            assert(slots[i + 1] == slot_for_color(allowed_colors@[i as int]));
            out.keep_label_from(self, slot);
            i = i + 1;
        }
        out
    }

    /// The labels that survive normalization over the offered tab colors.
    pub fn normalized(&self) -> (r: Self)
        ensures
            r@ == normalize_labels(self@, tab_color_option_seq()),
    {
        let options = tab_color_options();
        self.normalized_with_allowed_colors(options.as_slice())
    }

    /// The custom label stored for `slot`, as stored.
    pub fn custom_label_for_slot(&self, slot: TabColorSlot) -> (r: Option<&str>)
        ensures
            r is Some <==> self@.contains_key(slot),
            r is Some ==> r->0@ == self@[slot],
    {
        match self.entry(slot) {
            Some(label) => Some(label.as_str()),
            None => None,
        }
    }

    /// The custom label stored for the slot of `color`.
    pub fn custom_label(&self, color: AnsiColorIdentifier) -> (r: Option<&str>)
        ensures
            r is Some <==> self@.contains_key(slot_for_color(color)),
            r is Some ==> r->0@ == self@[slot_for_color(color)],
    {
        self.custom_label_for_slot(TabColorSlot::from(color))
    }

    /// The custom label of `slot` unless it is blank, else the slot's own name.
    pub fn label_for_slot(&self, slot: TabColorSlot) -> (r: String)
        ensures
            r@ == shown_label(self@, slot),
    {
        match self.entry(slot) {
            Some(label) => {
                if trim(label.as_str()).unicode_len() > 0 {
                    return String::from_str(label.as_str());
                }
            },
            None => {},
        }
        String::from_str(slot.raw_label())
    }

    /// `label_for_slot` for the slot of `color`.
    pub fn label_for(&self, color: AnsiColorIdentifier) -> (r: String)
        ensures
            r@ == shown_label(self@, slot_for_color(color)),
    {
        self.label_for_slot(TabColorSlot::from(color))
    }

    /// The trimmed custom label followed by the slot's name in brackets, or the bare name.
    pub fn display_label_for_slot(&self, slot: TabColorSlot) -> (r: String)
        ensures
            r@ == shown_display_label(self@, slot),
    {
        match self.entry(slot) {
            Some(label) => {
                let t = trim(label.as_str());
                if t.unicode_len() > 0 {
                    let mut out = String::from_str(t);
                    out.append(" (");
                    out.append(slot.raw_label());
                    out.append(")");
                    return out;
                }
            },
            None => {},
        }
        String::from_str(slot.raw_label())
    }

    /// `display_label_for_slot` for the slot of `color`.
    pub fn display_label_for(&self, color: AnsiColorIdentifier) -> (r: String)
        ensures
            r@ == shown_display_label(self@, slot_for_color(color)),
    {
        self.display_label_for_slot(TabColorSlot::from(color))
    }

    /// Gives `slot` the trimmed `label`, after normalizing the labels over `allowed_colors`.
    pub fn with_label(
        &self,
        slot: TabColorSlot,
        label: &str,
        allowed_colors: &[AnsiColorIdentifier],
    ) -> (r: Result<Self, TabColorSlotLabelError>)
        ensures
            match r {
                Ok(v) => {
                    &&& label_error(self@, slot, label@, allowed_colors@) is None
                    &&& v@ == normalize_labels(self@, allowed_colors@).insert(
                        slot,
                        trimmed(label@),
                    )
                },
                Err(e) => label_error(self@, slot, label@, allowed_colors@) == Some(e),
            },
    {
        match slot.color() {
            Some(color) => {
                if !contains_color(allowed_colors, color) {
                    return Err(TabColorSlotLabelError::UnknownColor);
                }
            },
            None => {},
        }
        let label = trim(label);
        if label.unicode_len() == 0 {
            return Err(TabColorSlotLabelError::EmptyLabel);
        }
        if is_reserved(label) {
            return Err(TabColorSlotLabelError::ReservedLabel);
        }
        let mut labels = self.normalized_with_allowed_colors(allowed_colors);
        if labels.has_clash(label, Some(slot)) {
            return Err(TabColorSlotLabelError::DuplicateLabel);
        }
        labels.set_stored_label(slot, String::from_str(label));
        Ok(labels)
    }

    /// The normalized labels without the one of `slot`.
    pub fn without_label(&self, slot: TabColorSlot) -> (r: Self)
        ensures
            r@ == normalize_labels(self@, tab_color_option_seq()).remove(slot),
    {
        let mut labels = self.normalized();
        labels.clear_label(slot);
        labels
    }

    /// The slot that `input` names: a color name (or `default`/`none`) among the offered
    /// colors first, else the first slot whose normalized custom label matches it.
    pub fn resolve_slot_label(&self, input: &str, allowed_colors: &[AnsiColorIdentifier]) -> (r:
        Option<TabColorSlot>)
        ensures
            r == resolve_slot(self@, input@, allowed_colors@),
    {
        let ghost raw = input@;
        let text = trim(input);
        if text.unicode_len() == 0 {
            return None;
        }
        proof {
            crate::text::lemma_trimmed_idempotent(raw);
        }
        let labels = self.normalized_with_allowed_colors(allowed_colors);
        let parsed = TabColorSlot::parse(text, allowed_colors);
        if parsed.is_some() {
            return parsed;
        }
        let ghost slots = label_slots(allowed_colors@);
        if labels.clash_at(TabColorSlot::Default, text, None) {
            assert(slots[0] == TabColorSlot::Default);
            return Some(TabColorSlot::Default);
        }
        let mut i: usize = 0;
        while i < allowed_colors.len()
            invariant
                slots == label_slots(allowed_colors@),
                i <= allowed_colors@.len(),
                raw == input@,
                text@ == trimmed(raw),
                trimmed(text@) == text@,
                text@.len() > 0,
                parsed is None,
                parsed == slot_parse(text@, allowed_colors@),
                labels@ == normalize_labels(self@, allowed_colors@),
                first_labelled(labels@, slots, text@, 0) == first_labelled(
                    labels@,
                    slots,
                    text@,
                    i + 1,
                ),
            decreases allowed_colors@.len() - i,
        {
            let slot = TabColorSlot::from(allowed_colors[i]);
            assert(slots[i + 1] == slot);
            if labels.clash_at(slot, text, None) {
                return Some(slot);
            }
            i = i + 1;
        }
        None
    }

    /// The color that `input` names, by color name or custom label; `None` for the
    /// default slot or when nothing matches.
    pub fn resolve_label(&self, input: &str, allowed_colors: &[AnsiColorIdentifier]) -> (r: Option<
        AnsiColorIdentifier,
    >)
        ensures
            r == match resolve_slot(self@, input@, allowed_colors@) {
                Some(s) => slot_color(s),
                None => None,
            },
    {
        match self.resolve_slot_label(input, allowed_colors) {
            Some(slot) => slot.color(),
            None => None,
        }
    }
}

impl Default for TabColorSlotLabels {
    fn default() -> (r: Self)
        ensures
            r@ == Map::<TabColorSlot, Seq<char>>::empty(),
    {
        Self::new()
    }
}

fn is_reserved(label: &str) -> (r: bool)
    ensures
        r == is_reserved_label(label@),
{
    eq_ignore_ascii_case(label, "default") || eq_ignore_ascii_case(label, "none")
        || AnsiColorIdentifier::from_name(label).is_some()
}

} // verus!
