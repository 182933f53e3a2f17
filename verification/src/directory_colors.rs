use vstd::prelude::*;
use vstd::utf8::encode_utf8;
use crate::tab_settings::AnsiColorIdentifier;
use crate::text::str_equals;

verus! {

/// The color state of a directory in the tab-color settings.
#[derive(PartialEq, Eq, Clone, Copy, Debug, Structural)]
pub enum DirectoryTabColor {
    /// The directory was explicitly removed from tab coloring.
    Suppressed,
    /// The directory is tracked but has no assigned color.
    Unassigned,
    /// The directory is assigned a specific color.
    Color(AnsiColorIdentifier),
}

impl DirectoryTabColor {
    /// The assigned color, if any.
    pub fn ansi_color(self) -> (r: Option<AnsiColorIdentifier>)
        ensures
            r == match self {
                DirectoryTabColor::Color(c) => Some(c),
                _ => None,
            },
    {
        match self {
            DirectoryTabColor::Color(c) => Some(c),
            DirectoryTabColor::Suppressed | DirectoryTabColor::Unassigned => None,
        }
    }
}

/// The map that a list of (directory, color) entries stands for; a later entry wins.
pub open spec fn color_map_of(v: Seq<(String, DirectoryTabColor)>) -> Map<
    Seq<char>,
    DirectoryTabColor,
>
    decreases v.len(),
{
    if v.len() == 0 {
        Map::empty()
    } else {
        color_map_of(v.drop_last()).insert(v.last().0@, v.last().1)
    }
}

/// The (directory, color) pairs of stored entries.
pub open spec fn entries_view(v: Seq<(String, DirectoryTabColor)>) -> Seq<(Seq<char>, DirectoryTabColor)> {
    v.map_values(|e: (String, DirectoryTabColor)| (e.0@, e.1))
}

/// The entries other than the one for `key`, in order.
pub open spec fn without_key(v: Seq<(Seq<char>, DirectoryTabColor)>, key: Seq<char>) -> Seq<
    (Seq<char>, DirectoryTabColor),
> {
    v.filter(|e: (Seq<char>, DirectoryTabColor)| e.0 != key)
}

/// The length in bytes of a directory key, by which the longest prefix wins.
pub open spec fn key_bytes(k: Seq<char>) -> nat {
    encode_utf8(k).len()
}

/// Entry `i` takes part in the lookup: its directory matched.
pub open spec fn is_candidate(
    v: Seq<(Seq<char>, DirectoryTabColor)>,
    matches: Seq<bool>,
    i: int,
) -> bool {
    0 <= i < v.len() && matches[i]
}

/// The color an entry gives a matching directory: none for a suppressed entry.
pub open spec fn entry_color(c: DirectoryTabColor) -> Option<DirectoryTabColor> {
    if c is Suppressed {
        None
    } else {
        Some(c)
    }
}

/// The color of the longest matching entry, if any entry matched. A suppressed entry
/// gives no color, and so shadows the broader prefixes above it.
pub open spec fn is_longest_match(
    v: Seq<(Seq<char>, DirectoryTabColor)>,
    matches: Seq<bool>,
    r: Option<DirectoryTabColor>,
) -> bool {
    ||| (r is None && forall|i: int| !#[trigger] is_candidate(v, matches, i))
    ||| exists|i: int|
        {
            &&& #[trigger] is_candidate(v, matches, i)
            &&& r == entry_color(v[i].1)
            &&& forall|j: int|
                #[trigger] is_candidate(v, matches, j) ==> key_bytes(v[j].0) <= key_bytes(v[i].0)
        }
}

/// Whether `path` starts with `base`, compared by whole path components.
///
/// Calls `std::path::Path::starts_with`. Only that a path starts with itself is stated: how
/// paths split into components differs between platforms.
#[verifier::external_body]
fn path_starts_with(path: &str, base: &String) -> (r: bool)
    ensures
        path@ == base@ ==> r,
{
    std::path::Path::new(path).starts_with(std::path::Path::new(base))
}

/// `m` is a result the component-prefix test of `path` against `base` may give: the
/// outcome of `path_starts_with(path, base)`.
pub closed spec fn prefix_outcome(path: &str, base: &String, m: bool) -> bool {
    call_ensures(path_starts_with, (path, base), m)
}

/// User-configured directory to color mappings for tab coloring.
#[derive(Clone, Debug, PartialEq, Eq)]
pub struct DirectoryTabColors {
    entries: Vec<(String, DirectoryTabColor)>,
}

impl View for DirectoryTabColors {
    type V = Map<Seq<char>, DirectoryTabColor>;

    closed spec fn view(&self) -> Map<Seq<char>, DirectoryTabColor> {
        color_map_of(self.entries@)
    }
}

impl DirectoryTabColors {
    /// The entries in the order they are consulted.
    pub closed spec fn entry_seq(&self) -> Seq<(Seq<char>, DirectoryTabColor)> {
        entries_view(self.entries@)
    }

    /// The stored directory key of entry `i`.
    pub closed spec fn key_at(&self, i: int) -> String {
        self.entries@[i].0
    }

    /// The key of entry `i`, as text, is the directory of that entry.
    pub proof fn lemma_key_at(&self, i: int)
        requires
            0 <= i < self.entry_seq().len(),
        ensures
            self.key_at(i)@ == self.entry_seq()[i].0,
    {
    }

    /// No directory is configured.
    pub fn new() -> (r: Self)
        ensures
            r@ == Map::<Seq<char>, DirectoryTabColor>::empty(),
            r.entry_seq().len() == 0,
    {
        let r = DirectoryTabColors { entries: Vec::new() };
        assert(r.entry_seq() =~= Seq::<(Seq<char>, DirectoryTabColor)>::empty());
        r
    }

    /// How many directories are configured.
    pub fn len(&self) -> (r: usize)
        ensures
            r == self.entry_seq().len(),
    {
        self.entries.len()
    }

    /// The directory and color of entry `i`.
    pub fn entry(&self, i: usize) -> (r: (&str, DirectoryTabColor))
        requires
            i < self.entry_seq().len(),
        ensures
            (r.0@, r.1) == self.entry_seq()[i as int],
    {
        let e = &self.entries[i];
        (e.0.as_str(), e.1)
    }

    /// A copy with `key` given `color`, replacing any color it had.
    pub fn with_color(&self, key: &str, color: DirectoryTabColor) -> (r: Self)
        ensures
            r@ == self@.insert(key@, color),
            r.entry_seq() == without_key(self.entry_seq(), key@).push((key@, color)),
    {
        let mut out: Vec<(String, DirectoryTabColor)> = Vec::new();
        let mut i: usize = 0;
        while i < self.entries.len()
            invariant
                i <= self.entries@.len(),
                color_map_of(out@) == color_map_of(self.entries@.take(i as int)).remove(key@),
                entries_view(out@) == without_key(entries_view(self.entries@.take(i as int)), key@),
            decreases self.entries@.len() - i,
        {
            let e = &self.entries[i];
            assert(self.entries@.take(i + 1).drop_last() =~= self.entries@.take(i as int));
            let ghost x = (self.entries@[i as int].0@, self.entries@[i as int].1);
            assert(entries_view(self.entries@.take(i + 1)) =~= entries_view(
                self.entries@.take(i as int),
            ).push(x));
            proof {
                entries_view(self.entries@.take(i as int)).lemma_filter_push(
                    x,
                    |e: (Seq<char>, DirectoryTabColor)| e.0 != key@,
                );
            }
            if !str_equals(e.0.as_str(), key) {
                let copy = (String::from_str(e.0.as_str()), e.1);
                let ghost before = out@;
                out.push(copy);
                assert(out@.drop_last() =~= before);
                assert(entries_view(out@) =~= entries_view(before).push(x));
                assert(color_map_of(out@) =~= color_map_of(self.entries@.take(i + 1)).remove(
                    key@,
                ));
            } else {
                assert(color_map_of(out@) =~= color_map_of(self.entries@.take(i + 1)).remove(
                    key@,
                ));
            }
            i = i + 1;
        }
        assert(self.entries@.take(self.entries@.len() as int) =~= self.entries@);
        let ghost before = out@;
        out.push((String::from_str(key), color));
        assert(out@.drop_last() =~= before);
        assert(entries_view(out@) =~= entries_view(before).push((key@, color)));
        let r = DirectoryTabColors { entries: out };
        assert(r@ =~= self@.insert(key@, color));
        r
    }

    /// The color of the longest configured directory whose entry `matches` marks as a
    /// prefix of the directory looked up; none when that entry is suppressed.
    pub fn longest_configured_prefix(&self, matches: &[bool]) -> (r: Option<DirectoryTabColor>)
        requires
            matches@.len() == self.entry_seq().len(),
        ensures
            is_longest_match(self.entry_seq(), matches@, r),
    {
        let ghost v = self.entry_seq();
        let mut best: Option<usize> = None;
        let mut best_len: usize = 0;
        let mut i: usize = 0;
        while i < self.entries.len()
            invariant
                v == self.entry_seq(),
                matches@.len() == v.len(),
                v.len() == self.entries@.len(),
                i <= v.len(),
                match best {
                    None => forall|j: int| 0 <= j < i ==> !#[trigger] is_candidate(v, matches@, j),
                    Some(b) => {
                        &&& b < i
                        &&& is_candidate(v, matches@, b as int)
                        &&& best_len == key_bytes(v[b as int].0)
                        &&& forall|j: int|
                            0 <= j < i && #[trigger] is_candidate(v, matches@, j) ==> key_bytes(
                                v[j].0,
                            ) <= best_len
                    },
                },
            decreases v.len() - i,
        {
            let e = &self.entries[i];
            if matches[i] {
                let n = e.0.as_str().as_bytes().len();
                let better = match best {
                    None => true,
                    Some(_) => n >= best_len,
                };
                if better {
                    best = Some(i);
                    best_len = n;
                }
            }
            i = i + 1;
        }
        match best {
            None => {
                assert forall|j: int| !#[trigger] is_candidate(v, matches@, j) by {}
                None
            },
            Some(b) => {
                let c = self.entries[b].1;
                assert(is_candidate(v, matches@, b as int));
                match c {
                    DirectoryTabColor::Suppressed => None,
                    _ => Some(c),
                }
            },
        }
    }

    /// The configured color for `dir`, taken from the longest configured directory that is
    /// a whole-component prefix of it; a suppressed directory gives no color, shadowing
    /// the broader prefixes above it.
    pub fn color_for_directory(&self, dir: &str) -> (r: Option<DirectoryTabColor>)
        ensures
            exists|matches: Seq<bool>|
                {
                    &&& matches.len() == self.entry_seq().len()
                    &&& forall|i: int|
                        0 <= i < matches.len() ==> prefix_outcome(
                            dir,
                            &self.key_at(i),
                            #[trigger] matches[i],
                        )
                    &&& forall|i: int|
                        0 <= i < matches.len() && self.entry_seq()[i].0 == dir@ ==> #[trigger] matches[i]
                    &&& is_longest_match(self.entry_seq(), matches, r)
                },
    {
        let f = path_starts_with;
        let mut matches: Vec<bool> = Vec::new();
        let mut i: usize = 0;
        while i < self.entries.len()
            invariant
                i <= self.entries@.len(),
                self.entries@.len() == self.entry_seq().len(),
                matches@.len() == i,
                f == path_starts_with,
                forall|k: int|
                    0 <= k < i ==> prefix_outcome(dir, &self.key_at(k), #[trigger] matches@[k]),
                forall|k: int| 0 <= k < i && self.entry_seq()[k].0 == dir@ ==> #[trigger] matches@[k],
            decreases self.entries@.len() - i,
        {
            let m = f(dir, &self.entries[i].0);
            matches.push(m);
            i = i + 1;
        }
        let r = self.longest_configured_prefix(matches.as_slice());
        assert(matches@.len() == self.entry_seq().len());
        r
    }
}

/// When one matching entry is strictly longer than every other matching entry, the
/// lookup gives that entry's color: none if it is suppressed.
pub proof fn law_longest_match_decides(
    v: Seq<(Seq<char>, DirectoryTabColor)>,
    matches: Seq<bool>,
    r: Option<DirectoryTabColor>,
    k: int,
)
    requires
        is_longest_match(v, matches, r),
        is_candidate(v, matches, k),
        forall|j: int|
            #[trigger] is_candidate(v, matches, j) && j != k ==> key_bytes(v[j].0) < key_bytes(
                v[k].0,
            ),
    ensures
        r == entry_color(v[k].1),
{
    if !(exists|i: int|
        {
            &&& #[trigger] is_candidate(v, matches, i)
            &&& r == entry_color(v[i].1)
            &&& forall|j: int|
                #[trigger] is_candidate(v, matches, j) ==> key_bytes(v[j].0) <= key_bytes(v[i].0)
        }) {
        assert(!is_candidate(v, matches, k));
    }
}

} // verus!
