use vstd::prelude::*;

verus! {

/// Ascender, descender and line gap of a face along one axis, in font units.
#[derive(Debug, Clone, Copy, PartialEq, Eq, Structural)]
pub struct FontExtents {
    pub ascender: i32,
    pub descender: i32,
    pub line_gap: i32,
}

/// The visual style that a span of text asks for, or that a face reports.
///
/// `weight` is on the usual 1..1000 scale (400 regular, 700 bold); `width`
/// is a percentage of the normal width (100 normal).
#[derive(Debug, Clone, Copy, PartialEq, Eq, Structural)]
pub struct FontStyle {
    pub italic: bool,
    pub weight: u16,
    pub width: u16,
}

impl FontStyle {
    /// Upright, weight 400, width 100.
    pub open spec fn regular() -> FontStyle {
        FontStyle { italic: false, weight: 400, width: 100 }
    }

    pub fn bold() -> (r: FontStyle)
        ensures
            r == (FontStyle { weight: 700, ..FontStyle::regular() }),
    {
        FontStyle { italic: false, weight: 700, width: 100 }
    }

    pub fn italic() -> (r: FontStyle)
        ensures
            r == (FontStyle { italic: true, ..FontStyle::regular() }),
    {
        FontStyle { italic: true, weight: 400, width: 100 }
    }

    pub fn bold_italic() -> (r: FontStyle)
        ensures
            r == (FontStyle { italic: true, weight: 700, width: 100 }),
    {
        FontStyle { italic: true, weight: 700, width: 100 }
    }
}

impl Default for FontStyle {
    fn default() -> (r: FontStyle)
        ensures
            r == FontStyle::regular(),
    {
        FontStyle { italic: false, weight: 400, width: 100 }
    }
}

/// Whether a run asking for `requested` needs faux emboldening when it is
/// drawn with a face that reports `actual`: the face is lighter than asked.
pub open spec fn needs_bold(requested: FontStyle, actual: FontStyle) -> bool {
    requested.weight > actual.weight
}

/// Whether a run asking for `requested` needs a faux slant when it is drawn
/// with a face that reports `actual`: italic was asked and the face is upright.
pub open spec fn needs_slant(requested: FontStyle, actual: FontStyle) -> bool {
    requested.italic && !actual.italic
}

pub fn synthetic_bold(requested: FontStyle, actual: FontStyle) -> (r: bool)
    ensures
        r == needs_bold(requested, actual),
{
    requested.weight > actual.weight
}

pub fn synthetic_slant(requested: FontStyle, actual: FontStyle) -> (r: bool)
    ensures
        r == needs_slant(requested, actual),
{
    requested.italic && !actual.italic
}

} // verus!
