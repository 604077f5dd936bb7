use vstd::prelude::*;

use crate::style::{FontExtents, FontStyle};

verus! {

/// An inclusive range `first..=last` of codepoints that a face maps to glyphs.
#[derive(Debug, Clone, Copy, PartialEq, Eq, Structural)]
pub struct CoverageRange {
    pub first: u32,
    pub last: u32,
}

/// One loaded face, held as the values that layout reads from it: the
/// codepoints it covers, the style it reports, its units per em and its
/// extents along each axis.
#[derive(Debug, Clone)]
pub struct Font {
    pub coverage: Vec<CoverageRange>,
    pub style: FontStyle,
    pub upem: u32,
    pub horizontal: Option<FontExtents>,
    pub vertical: Option<FontExtents>,
}

/// Whether `font` has a glyph for `cp`.
pub open spec fn covers(font: Font, cp: u32) -> bool {
    exists|i: int|
        0 <= i < font.coverage@.len() && #[trigger] font.coverage@[i].first <= cp
            && cp <= font.coverage@[i].last
}

impl Font {
    pub fn has_glyph(&self, codepoint: u32) -> (r: bool)
        ensures
            r == covers(*self, codepoint),
    {
        let mut i: usize = 0;
        while i < self.coverage.len()
            invariant
                i <= self.coverage@.len(),
                forall|j: int|
                    0 <= j < i ==> !(#[trigger] self.coverage@[j].first <= codepoint
                        && codepoint <= self.coverage@[j].last),
            decreases self.coverage@.len() - i,
        {
            let range = self.coverage[i];
            if range.first <= codepoint && codepoint <= range.last {
                return true;
            }
            i += 1;
        }
        false
    }

    /// Adds `cp` to the codepoints the face covers, extending the last range
    /// when `cp` follows it.
    pub fn add_coverage(&mut self, cp: u32)
        ensures
            forall|c: u32| covers(*final(self), c) == (covers(*old(self), c) || c == cp),
            final(self).style == old(self).style,
            final(self).upem == old(self).upem,
            final(self).horizontal == old(self).horizontal,
            final(self).vertical == old(self).vertical,
    {
        let n = self.coverage.len();
        if n > 0 && self.coverage[n - 1].first <= self.coverage[n - 1].last && self.coverage[n
            - 1].last < u32::MAX && self.coverage[n - 1].last + 1 == cp {
            let range = self.coverage[n - 1];
            self.coverage.set(n - 1, CoverageRange { first: range.first, last: cp });
            proof {
                let before = old(self).coverage@;
                let after = self.coverage@;
                assert forall|c: u32| covers(*self, c) == (covers(*old(self), c) || c == cp) by {
                    if covers(*self, c) {
                        let i = choose|i: int|
                            0 <= i < after.len() && #[trigger] after[i].first <= c && c
                                <= after[i].last;
                        if i != n - 1 {
                            assert(before[i] == after[i]);
                        } else if c != cp {
                            assert(before[i].first <= c && c <= before[i].last);
                        }
                    }
                    if covers(*old(self), c) {
                        let i = choose|i: int|
                            0 <= i < before.len() && #[trigger] before[i].first <= c && c
                                <= before[i].last;
                        if i != n - 1 {
                            assert(before[i] == after[i]);
                        } else {
                            assert(after[i].first <= c && c <= after[i].last);
                        }
                    }
                    if c == cp {
                        assert(after[n - 1].first <= c && c <= after[n - 1].last);
                    }
                }
            }
        } else {
            self.coverage.push(CoverageRange { first: cp, last: cp });
            proof {
                let before = old(self).coverage@;
                let after = self.coverage@;
                assert forall|c: u32| covers(*self, c) == (covers(*old(self), c) || c == cp) by {
                    if covers(*self, c) {
                        let i = choose|i: int|
                            0 <= i < after.len() && #[trigger] after[i].first <= c && c
                                <= after[i].last;
                        if i < before.len() {
                            assert(before[i] == after[i]);
                        }
                    }
                    if covers(*old(self), c) {
                        let i = choose|i: int|
                            0 <= i < before.len() && #[trigger] before[i].first <= c && c
                                <= before[i].last;
                        assert(before[i] == after[i]);
                    }
                    if c == cp {
                        assert(after[before.len() as int].first <= c);
                    }
                }
            }
        }
    }

    pub fn style(&self) -> (r: FontStyle)
        ensures
            r == self.style,
    {
        self.style
    }

    pub fn upem(&self) -> (r: u32)
        ensures
            r == self.upem,
    {
        self.upem
    }

    pub fn horizontal_extents(&self) -> (r: Option<FontExtents>)
        ensures
            r == self.horizontal,
    {
        self.horizontal
    }

    pub fn vertical_extents(&self) -> (r: Option<FontExtents>)
        ensures
            r == self.vertical,
    {
        self.vertical
    }
}

/// A codepoint given either as a `char` or as its scalar value.
#[derive(Debug, Clone, Copy, PartialEq, Eq, Structural)]
pub enum UnicodeValue {
    Char(char),
    Codepoint(u32),
}

impl UnicodeValue {
    pub open spec fn value(self) -> u32 {
        match self {
            UnicodeValue::Char(c) => c as u32,
            UnicodeValue::Codepoint(v) => v,
        }
    }

    pub fn codepoint(self) -> (r: u32)
        ensures
            r == self.value(),
    {
        match self {
            UnicodeValue::Char(c) => c as u32,
            UnicodeValue::Codepoint(v) => v,
        }
    }
}

impl From<UnicodeValue> for u32 {
    fn from(value: UnicodeValue) -> (r: u32) {
        value.codepoint()
    }
}

impl vstd::std_specs::convert::FromSpecImpl<UnicodeValue> for u32 {
    open spec fn obeys_from_spec() -> bool {
        true
    }

    open spec fn from_spec(v: UnicodeValue) -> u32 {
        v.value()
    }
}

impl From<char> for UnicodeValue {
    fn from(value: char) -> (r: UnicodeValue) {
        UnicodeValue::Char(value)
    }
}

impl vstd::std_specs::convert::FromSpecImpl<char> for UnicodeValue {
    open spec fn obeys_from_spec() -> bool {
        true
    }

    open spec fn from_spec(v: char) -> UnicodeValue {
        UnicodeValue::Char(v)
    }
}

impl From<u32> for UnicodeValue {
    fn from(value: u32) -> (r: UnicodeValue) {
        UnicodeValue::Codepoint(value)
    }
}

impl vstd::std_specs::convert::FromSpecImpl<u32> for UnicodeValue {
    open spec fn obeys_from_spec() -> bool {
        true
    }

    open spec fn from_spec(v: u32) -> UnicodeValue {
        UnicodeValue::Codepoint(v)
    }
}

} // verus!
