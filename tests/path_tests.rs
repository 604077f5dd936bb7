use subset::{
    synthesis, FontRun, FontStyle, Glyph, GlyphRun, Path, PathCommand, PathVerb, ShapeParams,
    ShapeRequest, Syntesize,
};

fn sample() -> Path<(f32, f32)> {
    let mut path = Path::new();
    path.push(PathVerb::MoveTo, &[(0.0, 0.0)]);
    path.push(PathVerb::LineTo, &[(10.0, 0.0)]);
    path.push(PathVerb::QuadTo, &[(15.0, 5.0), (10.0, 10.0)]);
    path.push(PathVerb::CubicTo, &[(8.0, 12.0), (2.0, 12.0), (0.0, 10.0)]);
    path.push(PathVerb::Close, &[]);
    path
}

#[test]
fn num_points_per_verb() {
    assert_eq!(PathVerb::MoveTo.num_points(), 1);
    assert_eq!(PathVerb::LineTo.num_points(), 1);
    assert_eq!(PathVerb::QuadTo.num_points(), 2);
    assert_eq!(PathVerb::CubicTo.num_points(), 3);
    assert_eq!(PathVerb::Close.num_points(), 0);
}

#[test]
fn verb_tags() {
    assert!(matches!(PathVerb::from_tag(0), Some(PathVerb::MoveTo)));
    assert!(matches!(PathVerb::from_tag(3), Some(PathVerb::CubicTo)));
    assert!(matches!(PathVerb::from_tag(4), Some(PathVerb::Close)));
    assert!(PathVerb::from_tag(5).is_none());
}

#[test]
fn commands_pair_verbs_with_points() {
    let path = sample();
    let cmds = path.commands();
    assert_eq!(
        cmds,
        vec![
            PathCommand::MoveTo((0.0, 0.0)),
            PathCommand::LineTo((10.0, 0.0)),
            PathCommand::QuadTo((15.0, 5.0), (10.0, 10.0)),
            PathCommand::CubicTo((8.0, 12.0), (2.0, 12.0), (0.0, 10.0)),
            PathCommand::Close,
        ]
    );
}

#[test]
fn iteration_restarts() {
    let path = sample();
    let mut it = path.iter();
    assert_eq!(it.next(), Some(PathCommand::MoveTo((0.0, 0.0))));
    assert_eq!(it.next(), Some(PathCommand::LineTo((10.0, 0.0))));
    let mut again = path.iter();
    assert_eq!(again.next(), Some(PathCommand::MoveTo((0.0, 0.0))));
}

#[test]
fn path_round_trip() {
    let path = sample();
    let rebuilt = Path::from_commands(&path.commands());
    assert_eq!(rebuilt.points, path.points);
    assert_eq!(rebuilt.verbs, path.verbs);
}

#[test]
fn short_point_buffer_stops_iteration() {
    let path = Path {
        verbs: vec![PathVerb::MoveTo, PathVerb::QuadTo, PathVerb::LineTo],
        points: vec![(1, 1), (2, 2)],
    };
    let mut it = path.iter();
    assert_eq!(it.next(), Some(PathCommand::MoveTo((1, 1))));
    assert_eq!(it.next(), None);
    assert_eq!(it.next(), None);
    assert_eq!(path.commands().len(), 1);
}

fn run(bold: bool, slant: bool) -> FontRun {
    FontRun {
        offset: 3,
        len: 4,
        bidi_level: 1,
        script: 7,
        font_index: 2,
        font_style: FontStyle::bold_italic(),
        synthetic_bold: bold,
        synthetic_slant: slant,
    }
}

#[test]
fn synthesis_follows_flags_and_params() {
    let both = ShapeParams { embolden_strength: Some(0.5f32), slant: Some(0.2f32), emit_path_commands: false };
    let bold_only = ShapeParams { embolden_strength: Some(0.5f32), slant: None, emit_path_commands: false };
    let none = ShapeParams::<f32>::default();
    assert_eq!(
        synthesis(&run(true, true), &both),
        Some(Syntesize::EmboldenAndSlant { embolden_strength: 0.5, slant: 0.2 })
    );
    assert_eq!(synthesis(&run(true, false), &both), Some(Syntesize::Embolden(0.5)));
    assert_eq!(synthesis(&run(false, true), &both), Some(Syntesize::Slant(0.2)));
    assert_eq!(synthesis(&run(true, true), &bold_only), Some(Syntesize::Embolden(0.5)));
    assert_eq!(synthesis(&run(false, true), &bold_only), None);
    assert_eq!(synthesis(&run(true, true), &none), None);
    assert_eq!(synthesis(&run(false, false), &both), None);
}

#[test]
fn glyph_run_packs_request() {
    let request: ShapeRequest<f32> = ShapeRequest {
        font_run_index: 3,
        font_index: 0,
        synthesis: None,
        offset: 0,
        len: 1,
        bidi_level: 0,
        script: 0,
        language: None,
        emit_path_commands: true,
    };
    let glyph = Glyph { glyph_id: 9, x_offset: 0, y_offset: 0, x_advance: 500, y_advance: 0 };
    let run = GlyphRun::new(&request, vec![glyph], vec![sample()]);
    assert_eq!(run.font_run_index, 3);
    assert_eq!(run.glyphs, vec![glyph]);
    assert_eq!(run.paths.len(), 1);
}
