use vstd::prelude::*;

use crate::color_labels::{
    admits, clashes, keep_step, first_labelled, is_reserved_label, label_error, label_slots,
    normalize_labels, normalize_prefix, resolve_slot, shown_display_label, shown_label,
};
use crate::tab_settings::{
    color_named, lemma_slot_color_round_trip, slot_color, slot_for_color, slot_parse,
    slot_raw_label, AnsiColorIdentifier,
    TabColorSlot,
};
use crate::text::{
    end_non_space, eq_ignore_case, first_non_space, fold_ascii, is_white_space,
    lemma_trimmed_idempotent, trimmed,
};

verus! {

pub proof fn lemma_eq_ignore_case_refl(a: Seq<char>)
    ensures
        eq_ignore_case(a, a),
{
}

pub proof fn lemma_eq_ignore_case_symm(a: Seq<char>, b: Seq<char>)
    ensures
        eq_ignore_case(a, b) == eq_ignore_case(b, a),
{
    if eq_ignore_case(a, b) {
        assert forall|i: int| 0 <= i < b.len() implies #[trigger] fold_ascii(b[i]) == fold_ascii(
            a[i],
        ) by {
            assert(fold_ascii(a[i]) == fold_ascii(b[i]));
        }
    }
    if eq_ignore_case(b, a) {
        assert forall|i: int| 0 <= i < a.len() implies #[trigger] fold_ascii(a[i]) == fold_ascii(
            b[i],
        ) by {
            assert(fold_ascii(b[i]) == fold_ascii(a[i]));
        }
    }
}

pub proof fn lemma_eq_ignore_case_trans(a: Seq<char>, b: Seq<char>, c: Seq<char>)
    requires
        eq_ignore_case(a, b),
    ensures
        eq_ignore_case(b, c) == eq_ignore_case(a, c),
{
    if eq_ignore_case(b, c) {
        assert forall|i: int| 0 <= i < a.len() implies #[trigger] fold_ascii(a[i]) == fold_ascii(
            c[i],
        ) by {
            assert(fold_ascii(a[i]) == fold_ascii(b[i]));
            assert(fold_ascii(b[i]) == fold_ascii(c[i]));
        }
    }
    if eq_ignore_case(a, c) {
        assert forall|i: int| 0 <= i < b.len() implies #[trigger] fold_ascii(b[i]) == fold_ascii(
            c[i],
        ) by {
            assert(fold_ascii(a[i]) == fold_ascii(b[i]));
            assert(fold_ascii(a[i]) == fold_ascii(c[i]));
        }
    }
}

/// Whether a label is reserved does not depend on its ASCII case.
proof fn lemma_reserved_ignores_case(a: Seq<char>, b: Seq<char>)
    requires
        eq_ignore_case(a, b),
    ensures
        is_reserved_label(a) == is_reserved_label(b),
        color_named(a) == color_named(b),
        eq_ignore_case(a, "default"@) == eq_ignore_case(b, "default"@),
        eq_ignore_case(a, "none"@) == eq_ignore_case(b, "none"@),
{
    lemma_eq_ignore_case_trans(a, b, "default"@);
    lemma_eq_ignore_case_trans(a, b, "none"@);
    lemma_eq_ignore_case_trans(a, b, "black"@);
    lemma_eq_ignore_case_trans(a, b, "red"@);
    lemma_eq_ignore_case_trans(a, b, "green"@);
    lemma_eq_ignore_case_trans(a, b, "yellow"@);
    lemma_eq_ignore_case_trans(a, b, "blue"@);
    lemma_eq_ignore_case_trans(a, b, "magenta"@);
    lemma_eq_ignore_case_trans(a, b, "cyan"@);
    lemma_eq_ignore_case_trans(a, b, "white"@);
}

/// Labels in the normal form that normalization produces: each on a slot that can carry
/// one, trimmed, not blank, not reserved, and no two equal up to ASCII case.
pub open spec fn is_normal(m: Map<TabColorSlot, Seq<char>>, allowed: Seq<AnsiColorIdentifier>) -> bool {
    &&& forall|s: TabColorSlot| #[trigger] m.contains_key(s) ==> label_slots(allowed).contains(s)
    &&& forall|s: TabColorSlot|
        #[trigger] m.contains_key(s) ==> {
            &&& trimmed(m[s]) == m[s]
            &&& m[s].len() > 0
            &&& !is_reserved_label(m[s])
        }
    &&& forall|s1: TabColorSlot, s2: TabColorSlot|
        #[trigger] m.contains_key(s1) && #[trigger] m.contains_key(s2) && s1 != s2
            ==> !eq_ignore_case(m[s1], m[s2])
}

/// The labels of `m` on the first `n` slots of `slots`.
pub open spec fn restrict_prefix(
    m: Map<TabColorSlot, Seq<char>>,
    slots: Seq<TabColorSlot>,
    n: int,
) -> Map<TabColorSlot, Seq<char>> {
    m.restrict(Set::new(|s: TabColorSlot| exists|j: int| 0 <= j < n && slots[j] == s))
}

proof fn lemma_prefix_normal(m: Map<TabColorSlot, Seq<char>>, slots: Seq<TabColorSlot>, n: int)
    requires
        0 <= n <= slots.len(),
    ensures
        ({
            let acc = normalize_prefix(m, slots, n);
            &&& forall|s: TabColorSlot|
                #[trigger] acc.contains_key(s) ==> exists|j: int| 0 <= j < n && slots[j] == s
            &&& forall|s: TabColorSlot|
                #[trigger] acc.contains_key(s) ==> m.contains_key(s) && acc[s] == trimmed(m[s])
            &&& forall|s: TabColorSlot|
                #[trigger] acc.contains_key(s) ==> {
                    &&& trimmed(acc[s]) == acc[s]
                    &&& acc[s].len() > 0
                    &&& !is_reserved_label(acc[s])
                }
            &&& forall|s1: TabColorSlot, s2: TabColorSlot|
                #[trigger] acc.contains_key(s1) && #[trigger] acc.contains_key(s2) && s1 != s2
                    ==> !eq_ignore_case(acc[s1], acc[s2])
        }),
    decreases n,
{
    if n > 0 {
        lemma_prefix_normal(m, slots, n - 1);
        let acc = normalize_prefix(m, slots, n - 1);
        let s = slots[n - 1];
        if m.contains_key(s) && admits(acc, trimmed(m[s])) {
            let t = trimmed(m[s]);
            lemma_trimmed_idempotent(m[s]);
            let acc2 = acc.insert(s, t);
            assert forall|x: TabColorSlot| #[trigger] acc2.contains_key(x) implies exists|j: int|
                0 <= j < n && slots[j] == x by {
                if x == s {
                    assert(slots[n - 1] == x);
                } else {
                    assert(acc.contains_key(x));
                    let j = choose|j: int| 0 <= j < n - 1 && slots[j] == x;
                    assert(slots[j] == x);
                }
            }
            if acc.contains_key(s) {
                lemma_eq_ignore_case_refl(acc[s]);
                assert(clashes(acc, t, None)) by {
                    assert(acc.contains_key(s) && eq_ignore_case(trimmed(acc[s]), t));
                }
            }
            assert forall|s1: TabColorSlot, s2: TabColorSlot|
                #[trigger] acc2.contains_key(s1) && #[trigger] acc2.contains_key(s2) && s1 != s2
                implies !eq_ignore_case(acc2[s1], acc2[s2]) by {
                if s1 == s {
                    assert(acc.contains_key(s2));
                    lemma_eq_ignore_case_symm(acc2[s1], acc2[s2]);
                    if eq_ignore_case(acc[s2], t) {
                        assert(clashes(acc, t, None)) by {
                            assert(acc.contains_key(s2) && eq_ignore_case(trimmed(acc[s2]), t));
                        }
                    }
                } else if s2 == s {
                    assert(acc.contains_key(s1));
                    if eq_ignore_case(acc[s1], t) {
                        assert(clashes(acc, t, None)) by {
                            assert(acc.contains_key(s1) && eq_ignore_case(trimmed(acc[s1]), t));
                        }
                    }
                } else {
                    assert(acc.contains_key(s1) && acc.contains_key(s2));
                }
            }
        } else {
            assert forall|x: TabColorSlot| #[trigger] acc.contains_key(x) implies exists|j: int|
                0 <= j < n && slots[j] == x by {
                let j = choose|j: int| 0 <= j < n - 1 && slots[j] == x;
                assert(slots[j] == x);
            }
        }
    }
}

/// Normalization always yields labels in normal form.
pub proof fn lemma_normalize_is_normal(
    m: Map<TabColorSlot, Seq<char>>,
    allowed: Seq<AnsiColorIdentifier>,
)
    ensures
        is_normal(normalize_labels(m, allowed), allowed),
{
    let slots = label_slots(allowed);
    lemma_prefix_normal(m, slots, slots.len() as int);
    let acc = normalize_labels(m, allowed);
    assert forall|s: TabColorSlot| #[trigger] acc.contains_key(s) implies slots.contains(s) by {
        let j = choose|j: int| 0 <= j < slots.len() && slots[j] == s;
        assert(slots[j] == s);
    }
}

proof fn lemma_normal_prefix_fixed(
    m: Map<TabColorSlot, Seq<char>>,
    allowed: Seq<AnsiColorIdentifier>,
    n: int,
)
    requires
        is_normal(m, allowed),
        0 <= n <= label_slots(allowed).len(),
    ensures
        normalize_prefix(m, label_slots(allowed), n) == restrict_prefix(m, label_slots(allowed), n),
    decreases n,
{
    let slots = label_slots(allowed);
    if n == 0 {
        assert(restrict_prefix(m, slots, 0) =~= Map::<TabColorSlot, Seq<char>>::empty());
    } else {
        lemma_normal_prefix_fixed(m, allowed, n - 1);
        let acc = restrict_prefix(m, slots, n - 1);
        let s = slots[n - 1];
        let next = restrict_prefix(m, slots, n);
        if m.contains_key(s) {
            let t = trimmed(m[s]);
            assert(t == m[s]);
            if acc.contains_key(s) {
                lemma_eq_ignore_case_refl(t);
                assert(clashes(acc, t, None)) by {
                    assert(acc.contains_key(s) && eq_ignore_case(trimmed(acc[s]), t));
                }
                assert forall|x: TabColorSlot| next.contains_key(x) <==> acc.contains_key(x) by {
                    if x == s {
                    } else if next.contains_key(x) {
                        let j = choose|j: int| 0 <= j < n && slots[j] == x;
                        assert(j != n - 1);
                        assert(0 <= j < n - 1 && slots[j] == x);
                    } else if acc.contains_key(x) {
                        let j = choose|j: int| 0 <= j < n - 1 && slots[j] == x;
                        assert(0 <= j < n && slots[j] == x);
                    }
                }
                assert(next =~= acc);
            } else {
                assert(!clashes(acc, t, None)) by {
                    if clashes(acc, t, None) {
                        let x = choose|x: TabColorSlot|
                            Some(x) != None::<TabColorSlot> && #[trigger] acc.contains_key(x)
                                && eq_ignore_case(trimmed(acc[x]), t);
                        assert(m.contains_key(x) && x != s);
                        assert(trimmed(m[x]) == m[x]);
                    }
                }
                assert forall|x: TabColorSlot| next.contains_key(x) <==> acc.insert(s, t).contains_key(x) by {
                    if x == s {
                        assert(0 <= n - 1 < n && slots[n - 1] == x);
                    } else if next.contains_key(x) {
                        let j = choose|j: int| 0 <= j < n && slots[j] == x;
                        assert(0 <= j < n - 1 && slots[j] == x);
                    } else if acc.contains_key(x) {
                        let j = choose|j: int| 0 <= j < n - 1 && slots[j] == x;
                        assert(0 <= j < n && slots[j] == x);
                    }
                }
                assert(next =~= acc.insert(s, t));
            }
        } else {
            assert forall|x: TabColorSlot| next.contains_key(x) <==> acc.contains_key(x) by {
                if next.contains_key(x) {
                    let j = choose|j: int| 0 <= j < n && slots[j] == x;
                    assert(j != n - 1);
                    assert(0 <= j < n - 1 && slots[j] == x);
                } else if acc.contains_key(x) {
                    let j = choose|j: int| 0 <= j < n - 1 && slots[j] == x;
                    assert(0 <= j < n && slots[j] == x);
                }
            }
            assert(next =~= acc);
        }
    }
}

/// Labels already in normal form are left as they are by normalization.
pub proof fn lemma_normal_is_fixed(m: Map<TabColorSlot, Seq<char>>, allowed: Seq<AnsiColorIdentifier>)
    requires
        is_normal(m, allowed),
    ensures
        normalize_labels(m, allowed) == m,
{
    let slots = label_slots(allowed);
    lemma_normal_prefix_fixed(m, allowed, slots.len() as int);
    let r = restrict_prefix(m, slots, slots.len() as int);
    assert forall|x: TabColorSlot| r.contains_key(x) <==> m.contains_key(x) by {
        if m.contains_key(x) {
            assert(slots.contains(x));
            let j = choose|j: int| 0 <= j < slots.len() && slots[j] == x;
            assert(0 <= j < slots.len() && slots[j] == x);
        }
    }
    assert(r =~= m);
}

/// Normalizing twice is normalizing once: labels read back from the settings file are
/// stored again unchanged.
pub proof fn law_normalize_idempotent(
    m: Map<TabColorSlot, Seq<char>>,
    allowed: Seq<AnsiColorIdentifier>,
)
    ensures
        normalize_labels(normalize_labels(m, allowed), allowed) == normalize_labels(m, allowed),
{
    lemma_normalize_is_normal(m, allowed);
    lemma_normal_is_fixed(normalize_labels(m, allowed), allowed);
}

proof fn lemma_first_labelled_unique(
    labels: Map<TabColorSlot, Seq<char>>,
    slots: Seq<TabColorSlot>,
    t: Seq<char>,
    x: TabColorSlot,
    i: int,
)
    requires
        0 <= i,
        exists|j: int| i <= j < slots.len() && slots[j] == x,
        labels.contains_key(x) && eq_ignore_case(trimmed(labels[x]), t),
        forall|s: TabColorSlot|
            #[trigger] labels.contains_key(s) && eq_ignore_case(trimmed(labels[s]), t) ==> s == x,
    ensures
        first_labelled(labels, slots, t, i) == Some(x),
    decreases slots.len() - i,
{
    if slots[i] != x {
        let j = choose|j: int| i <= j < slots.len() && slots[j] == x;
        assert(j != i);
        assert(i + 1 <= j < slots.len() && slots[j] == x);
        lemma_first_labelled_unique(labels, slots, t, x, i + 1);
    }
}

/// What a label write gives back: after `with_label` succeeds, the slot shows the trimmed
/// label, is displayed with its color name, and typing the label in any ASCII case (with
/// any surrounding space) resolves to the slot.
pub proof fn law_with_label_read_back(
    m: Map<TabColorSlot, Seq<char>>,
    slot: TabColorSlot,
    label: Seq<char>,
    allowed: Seq<AnsiColorIdentifier>,
    typed: Seq<char>,
)
    requires
        label_error(m, slot, label, allowed) is None,
        eq_ignore_case(trimmed(typed), trimmed(label)),
    ensures
        ({
            let v = normalize_labels(m, allowed).insert(slot, trimmed(label));
            &&& shown_label(v, slot) == trimmed(label)
            &&& shown_display_label(v, slot) == trimmed(label) + " ("@ + slot_raw_label(slot)
                + ")"@
            &&& resolve_slot(v, typed, allowed) == Some(slot)
            &&& normalize_labels(v, allowed) == v
        }),
{
    let t = trimmed(label);
    let n = normalize_labels(m, allowed);
    let v = n.insert(slot, t);
    let slots = label_slots(allowed);
    lemma_trimmed_idempotent(label);
    lemma_normalize_is_normal(m, allowed);
    assert(slots.contains(slot)) by {
        match slot_color(slot) {
            Some(c) => {
                assert(allowed.contains(c));
                let k = choose|k: int| 0 <= k < allowed.len() && allowed[k] == c;
                assert(slots[k + 1] == slot_for_color(c));
            },
            None => {
                assert(slots[0] == slot);
            },
        }
    }
    assert forall|s1: TabColorSlot, s2: TabColorSlot|
        #[trigger] v.contains_key(s1) && #[trigger] v.contains_key(s2) && s1 != s2 implies !eq_ignore_case(
        v[s1],
        v[s2],
    ) by {
        if s1 == slot {
            assert(n.contains_key(s2));
            lemma_eq_ignore_case_symm(v[s1], v[s2]);
            if eq_ignore_case(n[s2], t) {
                assert(clashes(n, t, Some(slot))) by {
                    assert(Some(s2) != Some(slot) && n.contains_key(s2) && eq_ignore_case(
                        trimmed(n[s2]),
                        t,
                    ));
                }
            }
        } else if s2 == slot {
            assert(n.contains_key(s1));
            if eq_ignore_case(n[s1], t) {
                assert(clashes(n, t, Some(slot))) by {
                    assert(Some(s1) != Some(slot) && n.contains_key(s1) && eq_ignore_case(
                        trimmed(n[s1]),
                        t,
                    ));
                }
            }
        } else {
            assert(n.contains_key(s1) && n.contains_key(s2));
        }
    }
    assert(is_normal(v, allowed));
    lemma_normal_is_fixed(v, allowed);
    let q = trimmed(typed);
    lemma_trimmed_idempotent(typed);
    lemma_reserved_ignores_case(q, t);
    assert(slot_parse(q, allowed) is None);
    lemma_eq_ignore_case_symm(q, t);
    assert forall|s: TabColorSlot|
        #[trigger] v.contains_key(s) && eq_ignore_case(trimmed(v[s]), q) implies s == slot by {
        lemma_eq_ignore_case_trans(q, t, trimmed(v[s]));
        lemma_eq_ignore_case_symm(trimmed(v[s]), q);
        lemma_eq_ignore_case_symm(t, trimmed(v[s]));
        if s != slot {
            assert(!eq_ignore_case(v[s], v[slot]));
            lemma_eq_ignore_case_symm(v[s], v[slot]);
        }
    }
    lemma_eq_ignore_case_symm(q, t);
    assert(eq_ignore_case(trimmed(v[slot]), q));
    let j = choose|j: int| 0 <= j < slots.len() && slots[j] == slot;
    assert(0 <= j < slots.len() && slots[j] == slot);
    lemma_first_labelled_unique(v, slots, q, slot, 0);
}

/// Removing a slot's label makes the slot show its own color name again.
pub proof fn law_without_label_falls_back(m: Map<TabColorSlot, Seq<char>>, slot: TabColorSlot)
    ensures
        shown_label(m.remove(slot), slot) == slot_raw_label(slot),
        shown_display_label(m.remove(slot), slot) == slot_raw_label(slot),
{
}

} // verus!
verus! {

/// A slot's own name reads back as that slot: it has no surrounding space, it names the
/// default slot only for the default slot, and it names the slot's color otherwise.
proof fn lemma_raw_label_reads_back(slot: TabColorSlot)
    ensures
        trimmed(slot_raw_label(slot)) == slot_raw_label(slot),
        eq_ignore_case(slot_raw_label(slot), "default"@) == (slot == TabColorSlot::Default),
        !eq_ignore_case(slot_raw_label(slot), "none"@),
        slot != TabColorSlot::Default ==> color_named(slot_raw_label(slot)) == slot_color(slot),
{
    reveal_strlit("Default");
    reveal_strlit("Black");
    reveal_strlit("Red");
    reveal_strlit("Green");
    reveal_strlit("Yellow");
    reveal_strlit("Blue");
    reveal_strlit("Magenta");
    reveal_strlit("Cyan");
    reveal_strlit("White");
    reveal_strlit("default");
    reveal_strlit("none");
    reveal_strlit("black");
    reveal_strlit("red");
    reveal_strlit("green");
    reveal_strlit("yellow");
    reveal_strlit("blue");
    reveal_strlit("magenta");
    reveal_strlit("cyan");
    reveal_strlit("white");
    let raw = slot_raw_label(slot);
    assert(!is_white_space(raw[0]));
    assert(!is_white_space(raw[raw.len() - 1]));
    assert(first_non_space(raw, 0) == 0);
    assert(end_non_space(raw, 0, raw.len() as int) == raw.len());
    assert(raw.subrange(0, raw.len() as int) =~= raw);
    assert(!eq_ignore_case(raw, "none"@)) by {
        if raw.len() == 4 {
            assert(fold_ascii(raw[0]) != fold_ascii("none"@[0]));
        }
    }
    assert(eq_ignore_case(raw, "default"@) == (slot == TabColorSlot::Default)) by {
        if slot != TabColorSlot::Default && raw.len() == 7 {
            assert(fold_ascii(raw[0]) != fold_ascii("default"@[0]));
        }
    }
    match slot {
        TabColorSlot::Default => {},
        TabColorSlot::Black => {
            assert(eq_ignore_case(raw, "black"@));
        },
        TabColorSlot::Red => {
            assert(eq_ignore_case(raw, "red"@));
        },
        TabColorSlot::Green => {
            assert(fold_ascii(raw[0]) != fold_ascii("black"@[0]));
            assert(eq_ignore_case(raw, "green"@));
        },
        TabColorSlot::Yellow => {
            assert(eq_ignore_case(raw, "yellow"@));
        },
        TabColorSlot::Blue => {
            assert(eq_ignore_case(raw, "blue"@));
        },
        TabColorSlot::Magenta => {
            assert(eq_ignore_case(raw, "magenta"@));
        },
        TabColorSlot::Cyan => {
            assert(fold_ascii(raw[0]) != fold_ascii("blue"@[0]));
            assert(eq_ignore_case(raw, "cyan"@));
        },
        TabColorSlot::White => {
            assert(fold_ascii(raw[0]) != fold_ascii("black"@[0]));
            assert(fold_ascii(raw[0]) != fold_ascii("green"@[0]));
            assert(eq_ignore_case(raw, "white"@));
        },
    }
}

/// Parsing a slot's own name gives the slot back, when it is the default slot or its color
/// is offered; a slot whose color is not offered gives none.
pub proof fn law_parse_raw_label(slot: TabColorSlot, allowed: Seq<AnsiColorIdentifier>)
    ensures
        slot_parse(slot_raw_label(slot), allowed) == if slot == TabColorSlot::Default
            || allowed.contains(slot_color(slot)->0) {
            Some(slot)
        } else {
            None
        },
{
    lemma_raw_label_reads_back(slot);
}

/// Normalization past slot `n` leaves the labels of the first `n` slots as they were
/// after them, where no slot is listed twice.
proof fn lemma_prefix_stable(
    m: Map<TabColorSlot, Seq<char>>,
    slots: Seq<TabColorSlot>,
    n: int,
    k: int,
)
    requires
        slots.no_duplicates(),
        0 <= n <= k <= slots.len(),
    ensures
        forall|i: int|
            0 <= i < n ==> (#[trigger] normalize_prefix(m, slots, k).contains_key(slots[i])
                == normalize_prefix(m, slots, n).contains_key(slots[i])) && (normalize_prefix(
                m,
                slots,
                n,
            ).contains_key(slots[i]) ==> normalize_prefix(m, slots, k)[slots[i]]
                == normalize_prefix(m, slots, n)[slots[i]]),
    decreases k - n,
{
    if n < k {
        lemma_prefix_stable(m, slots, n, k - 1);
        let before = normalize_prefix(m, slots, k - 1);
        assert(normalize_prefix(m, slots, k) == keep_step(before, m, slots[k - 1]));
        assert forall|i: int| 0 <= i < n implies (#[trigger] normalize_prefix(m, slots, k).contains_key(
            slots[i],
        ) == normalize_prefix(m, slots, n).contains_key(slots[i])) && (normalize_prefix(
            m,
            slots,
            n,
        ).contains_key(slots[i]) ==> normalize_prefix(m, slots, k)[slots[i]] == normalize_prefix(
            m,
            slots,
            n,
        )[slots[i]]) by {
            assert(slots[i] != slots[k - 1]);
            assert(before.contains_key(slots[i]) == normalize_prefix(m, slots, n).contains_key(slots[i]));
        }
    }
}

/// The label slots list no slot twice when no color is offered twice.
proof fn lemma_label_slots_distinct(allowed: Seq<AnsiColorIdentifier>)
    requires
        allowed.no_duplicates(),
    ensures
        label_slots(allowed).no_duplicates(),
{
    let slots = label_slots(allowed);
    assert forall|a: int, b: int| 0 <= a < slots.len() && 0 <= b < slots.len() && a != b implies slots[a]
        != slots[b] by {
        if a > 0 && b > 0 {
            assert(slots[a] == slot_for_color(allowed[a - 1]));
            assert(slots[b] == slot_for_color(allowed[b - 1]));
            lemma_slot_color_round_trip(allowed[a - 1], slots[b]);
            lemma_slot_color_round_trip(allowed[b - 1], slots[a]);
        } else if a > 0 {
            assert(slots[a] == slot_for_color(allowed[a - 1]));
            lemma_slot_color_round_trip(allowed[a - 1], slots[b]);
        } else if b > 0 {
            assert(slots[b] == slot_for_color(allowed[b - 1]));
            lemma_slot_color_round_trip(allowed[b - 1], slots[a]);
        }
    }
}

/// What normalization keeps, slot by slot in order (the default slot, then one per offered
/// color): a slot keeps its stored label, trimmed, exactly when that is not blank, not
/// reserved, and no earlier slot kept a label equal to it up to ASCII case. Nothing else
/// is kept.
pub proof fn law_normalize_drop_rule(m: Map<TabColorSlot, Seq<char>>, allowed: Seq<AnsiColorIdentifier>)
    requires
        allowed.no_duplicates(),
    ensures
        ({
            let slots = label_slots(allowed);
            let r = normalize_labels(m, allowed);
            &&& forall|s: TabColorSlot|
                #[trigger] r.contains_key(s) ==> slots.contains(s) && m.contains_key(s) && r[s]
                    == trimmed(m[s])
            &&& forall|j: int|
                0 <= j < slots.len() ==> (r.contains_key(#[trigger] slots[j]) == {
                    &&& m.contains_key(slots[j])
                    &&& trimmed(m[slots[j]]).len() > 0
                    &&& !is_reserved_label(trimmed(m[slots[j]]))
                    &&& !exists|i: int|
                        0 <= i < j && r.contains_key(#[trigger] slots[i]) && eq_ignore_case(
                            r[slots[i]],
                            trimmed(m[slots[j]]),
                        )
                })
        }),
{
    let slots = label_slots(allowed);
    let len = slots.len() as int;
    let r = normalize_labels(m, allowed);
    assert(r == normalize_prefix(m, slots, len));
    lemma_label_slots_distinct(allowed);
    lemma_normalize_is_normal(m, allowed);
    lemma_prefix_normal(m, slots, len);
    assert forall|s: TabColorSlot| #[trigger] r.contains_key(s) implies slots.contains(s) by {
        let j = choose|j: int| 0 <= j < len && slots[j] == s;
        assert(slots[j] == s);
    }
    assert forall|j: int| 0 <= j < slots.len() implies (r.contains_key(#[trigger] slots[j]) == {
        &&& m.contains_key(slots[j])
        &&& trimmed(m[slots[j]]).len() > 0
        &&& !is_reserved_label(trimmed(m[slots[j]]))
        &&& !exists|i: int|
            0 <= i < j && r.contains_key(#[trigger] slots[i]) && eq_ignore_case(
                r[slots[i]],
                trimmed(m[slots[j]]),
            )
    }) by {
        let acc = normalize_prefix(m, slots, j);
        let t = trimmed(m[slots[j]]);
        lemma_prefix_stable(m, slots, j + 1, len);
        lemma_prefix_stable(m, slots, j, len);
        lemma_prefix_normal(m, slots, j);
        assert(normalize_prefix(m, slots, j + 1) == keep_step(acc, m, slots[j]));
        assert(!acc.contains_key(slots[j])) by {
            if acc.contains_key(slots[j]) {
                let i = choose|i: int| 0 <= i < j && slots[i] == slots[j];
            }
        }
        let earlier = exists|i: int|
            0 <= i < j && r.contains_key(#[trigger] slots[i]) && eq_ignore_case(r[slots[i]], t);
        assert(clashes(acc, t, None) == earlier) by {
            if clashes(acc, t, None) {
                let x = choose|x: TabColorSlot|
                    Some(x) != None::<TabColorSlot> && #[trigger] acc.contains_key(x)
                        && eq_ignore_case(trimmed(acc[x]), t);
                let i = choose|i: int| 0 <= i < j && slots[i] == x;
                assert(normalize_prefix(m, slots, len).contains_key(slots[i]));
                assert(r[slots[i]] == acc[slots[i]]);
                assert(trimmed(acc[x]) == acc[x]);
                assert(r.contains_key(slots[i]) && eq_ignore_case(r[slots[i]], t));
            }
            if earlier {
                let i = choose|i: int|
                    0 <= i < j && r.contains_key(#[trigger] slots[i]) && eq_ignore_case(r[slots[i]], t);
                assert(normalize_prefix(m, slots, len).contains_key(slots[i]));
                assert(acc.contains_key(slots[i]));
                assert(r[slots[i]] == acc[slots[i]]);
                assert(trimmed(acc[slots[i]]) == acc[slots[i]]);
                assert(acc.contains_key(slots[i]) && eq_ignore_case(trimmed(acc[slots[i]]), t));
            }
        }
    }
}

} // verus!
