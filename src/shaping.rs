use vstd::prelude::*;

use crate::layout::{FontRun, Layout};
use crate::path::Path;

verus! {

/// One positioned glyph, as the shaper reports it.
#[derive(Debug, Clone, Copy, PartialEq, Eq, Structural)]
pub struct Glyph {
    pub glyph_id: u32,
    pub x_offset: i32,
    pub y_offset: i32,
    pub x_advance: i32,
    pub y_advance: i32,
}

/// The shaped glyphs of one font run and, when outlines were asked for, one
/// path per glyph. `P` is the outline's point type.
#[derive(Debug, Clone)]
pub struct GlyphRun<P> {
    pub font_run_index: usize,
    pub glyphs: Vec<Glyph>,
    pub paths: Vec<Path<P>>,
}

/// A faux-style transform to apply to a face. `T` is the type of the
/// strength and slant values.
#[derive(Debug, Clone, Copy, PartialEq, Eq)]
pub enum Syntesize<T> {
    Embolden(T),
    Slant(T),
    EmboldenAndSlant { embolden_strength: T, slant: T },
}

/// What the caller of shaping asks for: the strength of faux bold and the
/// angle of faux slant, each only when synthesis on that axis is wanted, and
/// whether glyph outlines are wanted.
#[derive(Debug, Default, Clone, Copy)]
pub struct ShapeParams<T> {
    pub embolden_strength: Option<T>,
    pub slant: Option<T>,
    pub emit_path_commands: bool,
}

/// The synthesis that a run flagged `bold` and `slant` gets under `params`:
/// an axis is synthesized when the run is flagged on it and `params` gives
/// its value.
pub open spec fn synthesis_for<T>(bold: bool, slant: bool, params: ShapeParams<T>) -> Option<
    Syntesize<T>,
> {
    let e = if bold {
        params.embolden_strength
    } else {
        None
    };
    let s = if slant {
        params.slant
    } else {
        None
    };
    match (e, s) {
        (Some(a), Some(b)) => Some(Syntesize::EmboldenAndSlant { embolden_strength: a, slant: b }),
        (Some(a), None) => Some(Syntesize::Embolden(a)),
        (None, Some(b)) => Some(Syntesize::Slant(b)),
        (None, None) => None,
    }
}

pub fn synthesis<T: Copy>(run: &FontRun, params: &ShapeParams<T>) -> (r: Option<Syntesize<T>>)
    ensures
        r == synthesis_for(run.synthetic_bold, run.synthetic_slant, *params),
{
    let e = if run.synthetic_bold {
        params.embolden_strength
    } else {
        None
    };
    let s = if run.synthetic_slant {
        params.slant
    } else {
        None
    };
    match (e, s) {
        (Some(a), Some(b)) => Some(Syntesize::EmboldenAndSlant { embolden_strength: a, slant: b }),
        (Some(a), None) => Some(Syntesize::Embolden(a)),
        (None, Some(b)) => Some(Syntesize::Slant(b)),
        (None, None) => None,
    }
}

/// One call of the shaper: the codepoint range, level and script of a run,
/// the font to shape it with and the synthesis to apply to that font first.
/// `language` is the language tag to shape with; nothing sets it yet.
#[derive(Debug, Clone)]
pub struct ShapeRequest<T> {
    pub font_run_index: usize,
    pub font_index: usize,
    pub synthesis: Option<Syntesize<T>>,
    pub offset: usize,
    pub len: usize,
    pub bidi_level: u8,
    pub script: u32,
    pub language: Option<String>,
    pub emit_path_commands: bool,
}

/// The shaper call for run `run`, the `index`th of the layout.
pub open spec fn request_for<T>(index: int, run: FontRun, params: ShapeParams<T>) -> ShapeRequest<T> {
    ShapeRequest {
        font_run_index: index as usize,
        font_index: run.font_index,
        synthesis: synthesis_for(run.synthetic_bold, run.synthetic_slant, params),
        offset: run.offset,
        len: run.len,
        bidi_level: run.bidi_level,
        script: run.script,
        language: None,
        emit_path_commands: params.emit_path_commands,
    }
}

impl<'a> Layout<'a> {
    /// The shaper calls that shaping this layout makes, one per run, in the
    /// layout's visual order.
    pub fn shape_requests<T: Copy>(&self, params: ShapeParams<T>) -> (r: Vec<ShapeRequest<T>>)
        ensures
            r@.len() == self@.runs.len(),
            forall|i: int|
                0 <= i < r@.len() ==> #[trigger] r@[i] == request_for(i, self@.runs[i], params),
    {
        let runs = self.runs();
        let mut r: Vec<ShapeRequest<T>> = Vec::new();
        let mut i: usize = 0;
        while i < runs.len()
            invariant
                runs@ == self@.runs,
                i <= runs@.len(),
                r@.len() == i,
                forall|j: int| 0 <= j < i ==> #[trigger] r@[j] == request_for(j, runs@[j], params),
            decreases runs@.len() - i,
        {
            let run = &runs[i];
            r.push(
                ShapeRequest {
                    font_run_index: i,
                    font_index: run.font_index,
                    synthesis: synthesis(run, &params),
                    offset: run.offset,
                    len: run.len,
                    bidi_level: run.bidi_level,
                    script: run.script,
                    language: None,
                    emit_path_commands: params.emit_path_commands,
                },
            );
            i += 1;
        }
        r
    }
}

impl<P> GlyphRun<P> {
    /// Packs the shaper's answer to `request`: the glyphs, and one path per
    /// glyph when the request asked for outlines.
    pub fn new<T>(request: &ShapeRequest<T>, glyphs: Vec<Glyph>, paths: Vec<Path<P>>) -> (r:
        GlyphRun<P>)
        requires
            paths@.len() == if request.emit_path_commands {
                glyphs@.len()
            } else {
                0
            },
        ensures
            r.font_run_index == request.font_run_index,
            r.glyphs@ == glyphs@,
            r.paths@ == paths@,
    {
        GlyphRun { font_run_index: request.font_run_index, glyphs, paths }
    }
}

} // verus!
