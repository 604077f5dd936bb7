//! Run segmentation and shaping orchestration for styled, bidirectional text.
//!
//! The library turns a buffer of codepoints, each tagged with a requested
//! [`FontStyle`], into font runs: maximal ranges that share one bidi run, one
//! requested style and one fallback font, listed in visual order. It plans
//! one shaper call per run, and models glyph outlines as separate verb and
//! point buffers.
mod font;
mod layout;
mod path;
mod shaping;
mod style;

pub use font::{covers, CoverageRange, Font, UnicodeValue};
pub use layout::{
    bidi_index, bidi_index_from, covered, disjoint, font_for, has_font_for, is_split, keys_of,
    lemma_bidi_run_order, lemma_single_uniform_run, matches_valid, missing_glyphs, partitions, report_tiles,
    run_covers, run_end, run_fits, run_of, segmented, split_run, start_of, tiles, visual_order,
    BuilderView, FontRun, Layout, LayoutBuilder, LayoutView, RunKey, SubsetTextRun,
};
pub use path::{
    command_of, decode, encode_points, encode_verbs, lemma_path_round_trip, points_needed, points_of,
    verb_of, Path, PathCommand, PathIter, PathVerb,
};
pub use shaping::{
    request_for, synthesis, synthesis_for, Glyph, GlyphRun, ShapeParams, ShapeRequest, Syntesize,
};
pub use style::{needs_bold, needs_slant, synthetic_bold, synthetic_slant, FontExtents, FontStyle};
