//! The candidate type and the priority order used to merge candidates.

use vstd::prelude::*;

verus! {

/// One resolved candidate for an icon name: the absolute file path, the
/// nominal pixel size (0 means scalable/vector, size-independent), whether
/// the asset is vector (SVG) rather than raster (PNG), and the theme
/// priority rank (lower is more preferred).
#[derive(Debug, Clone, PartialEq)]
pub struct IconEntry {
    pub path: String,
    pub size: u32,
    pub is_svg: bool,
    pub theme_priority: usize,
}

/// Mathematical model of an `IconEntry`: the path as a character sequence
/// together with the plain fields.
pub ghost struct EntryV {
    pub path: Seq<char>,
    pub size: u32,
    pub is_svg: bool,
    pub theme_priority: usize,
}

impl View for IconEntry {
    type V = EntryV;

    open spec fn view(&self) -> EntryV {
        EntryV {
            path: self.path@,
            size: self.size,
            is_svg: self.is_svg,
            theme_priority: self.theme_priority,
        }
    }
}

impl DeepView for IconEntry {
    type V = EntryV;

    open spec fn deep_view(&self) -> EntryV {
        self.view()
    }
}

/// The merge order: does candidate `c` beat the existing entry `e`?
/// Precedence: lower theme priority always wins; at equal priority vector
/// beats raster; at equal priority and format, an explicit pixel size beats
/// scalable for vectors, and otherwise the larger pixel size wins.
pub open spec fn better_s(c: EntryV, e: EntryV) -> bool {
    if c.theme_priority < e.theme_priority {
        true
    } else if c.theme_priority > e.theme_priority {
        false
    } else if c.is_svg && !e.is_svg {
        true
    } else if c.is_svg == e.is_svg {
        if c.is_svg {
            if e.size == 0 && c.size > 0 {
                true
            } else if c.size == 0 && e.size > 0 {
                false
            } else {
                c.size > e.size
            }
        } else {
            c.size > e.size
        }
    } else {
        false
    }
}

/// The one comparison function shared by the merge engine and by the
/// lookup path that weighs an exact-name hit against a variation hit.
pub fn is_better(c: &IconEntry, e: &IconEntry) -> (r: bool)
    ensures
        r == better_s(c@, e@),
{
    if c.theme_priority < e.theme_priority {
        true
    } else if c.theme_priority > e.theme_priority {
        false
    } else if c.is_svg && !e.is_svg {
        true
    } else if c.is_svg == e.is_svg {
        if c.is_svg {
            if e.size == 0 && c.size > 0 {
                true
            } else if c.size == 0 && e.size > 0 {
                false
            } else {
                c.size > e.size
            }
        } else {
            c.size > e.size
        }
    } else {
        false
    }
}

/// An entry never beats itself.
pub proof fn lemma_better_irreflexive(a: EntryV)
    ensures
        !better_s(a, a),
{
}

/// The order is asymmetric: two entries cannot each beat the other.
pub proof fn lemma_better_asymmetric(a: EntryV, b: EntryV)
    ensures
        !(better_s(a, b) && better_s(b, a)),
{
}

/// The order is transitive.
pub proof fn lemma_better_transitive(a: EntryV, b: EntryV, c: EntryV)
    requires
        better_s(a, b),
        better_s(b, c),
    ensures
        better_s(a, c),
{
}

/// At equal theme priority the order is total over the (format, size)
/// tuple: two entries that differ in format or size are strictly ordered
/// one way or the other.
pub proof fn lemma_better_total(a: EntryV, b: EntryV)
    requires
        a.theme_priority == b.theme_priority,
        a.is_svg != b.is_svg || a.size != b.size,
    ensures
        better_s(a, b) || better_s(b, a),
{
}

} // verus!
