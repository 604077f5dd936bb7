use subset::{
    report_tiles, split_run, CoverageRange, Font, FontExtents, FontRun, FontStyle, LayoutBuilder, RunKey,
    ShapeParams, SubsetTextRun,
};

fn font(ranges: &[(u32, u32)], style: FontStyle) -> Font {
    Font {
        coverage: ranges.iter().map(|&(first, last)| CoverageRange { first, last }).collect(),
        style,
        upem: 1000,
        horizontal: Some(FontExtents { ascender: 800, descender: -200, line_gap: 0 }),
        vertical: None,
    }
}

fn latin() -> Font {
    font(&[(0x20, 0x7e)], FontStyle::default())
}

fn chars(s: &str) -> Vec<char> {
    s.chars().collect()
}

fn text_run(offset: usize, length: usize, bidi_level: u8) -> SubsetTextRun {
    SubsetTextRun { offset, length, bidi_level, script: 0 }
}

fn first_font(n: usize) -> Vec<Option<usize>> {
    vec![Some(0); n]
}

fn spans(runs: &[FontRun]) -> Vec<(usize, usize)> {
    runs.iter().map(|r| (r.offset, r.len)).collect()
}

#[test]
fn empty_build_has_no_runs() {
    let fonts = vec![latin()];
    let builder = LayoutBuilder::new(&fonts);
    let layout = builder.build(1, &[], &[]);
    assert!(layout.runs().is_empty());
    assert_eq!(layout.paragraph_base_level(), 0);
    assert!(layout.shape_requests(ShapeParams::<f32>::default()).is_empty());
}

#[test]
fn single_uniform_run_spans_buffer() {
    let fonts = vec![latin()];
    let mut builder = LayoutBuilder::new(&fonts);
    builder.push(&chars("hello world"), FontStyle::default());
    let layout = builder.build(0, &[text_run(0, 11, 0)], &first_font(11));
    assert_eq!(spans(layout.runs()), vec![(0, 11)]);
    let run = layout.runs()[0];
    assert_eq!(run.font_index, 0);
    assert_eq!(run.font_style, FontStyle::default());
    assert!(!run.synthetic_bold && !run.synthetic_slant);
}

#[test]
fn style_change_splits_runs() {
    let fonts = vec![latin()];
    let mut builder = LayoutBuilder::new(&fonts);
    builder.push(&chars("ab"), FontStyle::default());
    builder.push(&chars("cde"), FontStyle::bold());
    let layout = builder.build(0, &[text_run(0, 5, 0)], &first_font(5));
    assert_eq!(spans(layout.runs()), vec![(0, 2), (2, 3)]);
    assert!(!layout.runs()[0].synthetic_bold);
    assert!(layout.runs()[1].synthetic_bold);
    assert_eq!(layout.runs()[1].font_style.weight, 700);
}

#[test]
fn rtl_run_reverses_sub_runs() {
    let fonts = vec![latin()];
    let mut builder = LayoutBuilder::new(&fonts);
    builder.push(&chars("ab"), FontStyle::default());
    builder.push(&chars("cde"), FontStyle::italic());
    let layout = builder.build(1, &[text_run(0, 5, 1)], &first_font(5));
    assert_eq!(layout.paragraph_base_level(), 1);
    assert_eq!(spans(layout.runs()), vec![(2, 3), (0, 2)]);
    assert!(layout.runs()[0].synthetic_slant);
    assert_eq!(layout.runs()[0].bidi_level, 1);
}

#[test]
fn ltr_run_keeps_sub_run_order() {
    let fonts = vec![latin()];
    let mut builder = LayoutBuilder::new(&fonts);
    builder.push(&chars("ab"), FontStyle::default());
    builder.push(&chars("cde"), FontStyle::italic());
    let layout = builder.build(0, &[text_run(0, 5, 0)], &first_font(5));
    assert_eq!(spans(layout.runs()), vec![(0, 2), (2, 5 - 2)]);
}

#[test]
fn bidi_runs_keep_report_order() {
    let fonts = vec![latin()];
    let mut builder = LayoutBuilder::new(&fonts);
    builder.push(&chars("ab"), FontStyle::default());
    builder.push(&chars("cd"), FontStyle::bold());
    builder.push(&chars("ef"), FontStyle::default());
    builder.push(&chars("gh"), FontStyle::bold());
    let report = [text_run(0, 4, 2), text_run(4, 4, 1)];
    let layout = builder.build(0, &report, &first_font(8));
    assert_eq!(spans(layout.runs()), vec![(0, 2), (2, 2), (6, 2), (4, 2)]);
    assert_eq!(layout.runs()[2].bidi_level, 1);
    assert_eq!(layout.runs()[0].bidi_level, 2);
}

#[test]
fn font_fallback_splits_runs() {
    let arabic = font(&[(0x600, 0x6ff), (0x20, 0x20)], FontStyle::default());
    let fonts = vec![latin(), arabic];
    let mut builder = LayoutBuilder::new(&fonts);
    builder.push(&chars("ab \u{628}\u{62a}"), FontStyle::default());
    let matches = [Some(0), Some(0), Some(0), Some(1), Some(1)];
    let layout = builder.build(0, &[text_run(0, 5, 0)], &matches);
    assert_eq!(spans(layout.runs()), vec![(0, 3), (3, 2)]);
    assert_eq!(layout.runs()[0].font_index, 0);
    assert_eq!(layout.runs()[1].font_index, 1);
}

#[test]
fn uncovered_codepoint_falls_back_to_first_font() {
    let fonts = vec![latin()];
    let mut builder = LayoutBuilder::new(&fonts);
    builder.push(&chars("a\u{628}b"), FontStyle::default());
    assert!(builder.has_missing_glyphs());
    let layout = builder.build(0, &[text_run(0, 3, 0)], &[Some(0), None, Some(0)]);
    assert_eq!(spans(layout.runs()), vec![(0, 3)]);
    assert_eq!(layout.runs()[0].font_index, 0);
}

#[test]
fn runs_partition_buffer() {
    let arabic = font(&[(0x600, 0x6ff)], FontStyle::default());
    let fonts = vec![latin(), arabic];
    let mut builder = LayoutBuilder::new(&fonts);
    builder.push(&chars("ab \u{628}"), FontStyle::default());
    builder.push(&chars("\u{62a}x y"), FontStyle::bold());
    builder.push(&chars("zz"), FontStyle::italic());
    let report = [text_run(0, 3, 0), text_run(3, 2, 1), text_run(5, 5, 0)];
    let matches = [Some(0), Some(0), Some(0), Some(1), Some(1), Some(0), Some(0), Some(0), Some(0), None];
    assert!(report_tiles(&report, 10));
    let layout = builder.build(0, &report, &matches);
    let mut seen = vec![0u32; 10];
    for run in layout.runs() {
        assert!(run.len > 0);
        for p in run.offset..run.offset + run.len {
            seen[p] += 1;
        }
    }
    assert_eq!(seen, vec![1; 10]);
}

#[test]
fn missing_glyphs_detection() {
    let fonts = vec![latin()];
    let mut builder = LayoutBuilder::new(&fonts);
    assert!(!builder.has_missing_glyphs());
    builder.push(&chars("abc"), FontStyle::default());
    assert!(!builder.has_missing_glyphs());
    builder.push(&chars("\u{628}"), FontStyle::default());
    assert!(builder.has_missing_glyphs());
    builder.clear();
    assert!(!builder.has_missing_glyphs());
    assert_eq!(builder.fonts().len(), 1);
}

#[test]
fn split_run_examples() {
    let a = RunKey { style: FontStyle::default(), font_index: 0 };
    let b = RunKey { style: FontStyle::bold(), font_index: 0 };
    let c = RunKey { style: FontStyle::default(), font_index: 1 };
    let keys = vec![a, a, b, b, b, c, a];
    assert_eq!(split_run(&keys, 0, 7), vec![(0, 2, a), (2, 3, b), (5, 1, c), (6, 1, a)]);
    assert_eq!(split_run(&keys, 3, 3), vec![(3, 2, b), (5, 1, c)]);
    assert_eq!(split_run(&keys, 4, 0), vec![]);
}

#[test]
fn layout_keeps_codepoints_and_fonts() {
    let fonts = vec![latin()];
    let mut builder = LayoutBuilder::new(&fonts);
    builder.push(&chars("hi"), FontStyle::default());
    let layout = builder.build(0, &[text_run(0, 2, 0)], &first_font(2));
    assert_eq!(layout.codepoints(), &[0x68, 0x69]);
    assert_eq!(layout.fonts().len(), 1);
}

#[test]
fn shape_requests_follow_runs() {
    let fonts = vec![latin()];
    let mut builder = LayoutBuilder::new(&fonts);
    builder.push(&chars("ab"), FontStyle::default());
    builder.push(&chars("cde"), FontStyle::bold_italic());
    let layout = builder.build(1, &[text_run(0, 5, 1)], &first_font(5));
    let params = ShapeParams { embolden_strength: Some(1.5f32), slant: None, emit_path_commands: true };
    let requests = layout.shape_requests(params);
    assert_eq!(requests.len(), 2);
    assert_eq!(requests[0].font_run_index, 0);
    assert_eq!((requests[0].offset, requests[0].len), (2, 3));
    assert_eq!(requests[0].synthesis, Some(subset::Syntesize::Embolden(1.5)));
    assert_eq!(requests[0].bidi_level, 1);
    assert!(requests[0].emit_path_commands);
    assert!(requests[0].language.is_none());
    assert_eq!(requests[1].font_run_index, 1);
    assert_eq!((requests[1].offset, requests[1].len), (0, 2));
    assert_eq!(requests[1].synthesis, None);
}

#[test]
fn same_match_everywhere_gives_one_run() {
    let bold = font(&[(0x20, 0x7e)], FontStyle::bold());
    let fonts = vec![latin(), bold];
    let mut builder = LayoutBuilder::new(&fonts);
    builder.push(&chars("abcd"), FontStyle::bold());
    let layout = builder.build(0, &[text_run(0, 4, 0)], &[Some(1); 4]);
    assert_eq!(spans(layout.runs()), vec![(0, 4)]);
    assert_eq!(layout.runs()[0].font_index, 1);
    assert!(!layout.runs()[0].synthetic_bold);
}

#[test]
fn style_at_reports_pushed_style() {
    let fonts = vec![latin()];
    let mut builder = LayoutBuilder::new(&fonts);
    builder.push(&chars("ab"), FontStyle::default());
    builder.push(&chars("c"), FontStyle::italic());
    assert_eq!(builder.style_at(1), FontStyle::default());
    assert_eq!(builder.style_at(2), FontStyle::italic());
    assert_eq!(builder.codepoints(), &[0x61, 0x62, 0x63]);
}

#[test]
fn report_tiling_check() {
    assert!(report_tiles(&[text_run(0, 2, 0), text_run(2, 3, 1)], 5));
    assert!(!report_tiles(&[text_run(0, 2, 0), text_run(3, 2, 1)], 5));
    assert!(!report_tiles(&[text_run(0, 2, 0), text_run(2, 2, 1)], 5));
    assert!(!report_tiles(&[text_run(1, 4, 0)], 5));
    assert!(!report_tiles(&[], 0));
}
