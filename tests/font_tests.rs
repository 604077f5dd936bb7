use subset::{
    synthetic_bold, synthetic_slant, CoverageRange, Font, FontExtents,
    FontStyle, UnicodeValue,
};

fn font(ranges: &[(u32, u32)], style: FontStyle) -> Font {
    Font {
        coverage: ranges.iter().map(|&(first, last)| CoverageRange { first, last }).collect(),
        style,
        upem: 2048,
        horizontal: Some(FontExtents { ascender: 1900, descender: -500, line_gap: 0 }),
        vertical: None,
    }
}

#[test]
fn style_presets() {
    let d = FontStyle::default();
    assert_eq!(d, FontStyle { italic: false, weight: 400, width: 100 });
    assert_eq!(FontStyle::bold(), FontStyle { italic: false, weight: 700, width: 100 });
    assert_eq!(FontStyle::italic(), FontStyle { italic: true, weight: 400, width: 100 });
    assert_eq!(FontStyle::bold_italic(), FontStyle { italic: true, weight: 700, width: 100 });
}

#[test]
fn synthetic_flag_example() {
    let regular = FontStyle::default();
    assert!(synthetic_bold(FontStyle::bold(), regular));
    assert!(!synthetic_bold(regular, FontStyle::bold()));
    assert!(!synthetic_slant(regular, FontStyle::italic()));
    assert!(!synthetic_slant(regular, regular));
    assert!(synthetic_slant(FontStyle::italic(), regular));
    assert!(!synthetic_slant(FontStyle::italic(), FontStyle::italic()));
}

#[test]
fn font_queries() {
    let f = font(&[(0x41, 0x5a), (0x61, 0x7a)], FontStyle::bold());
    assert!(f.has_glyph('A' as u32));
    assert!(f.has_glyph('z' as u32));
    assert!(!f.has_glyph('0' as u32));
    assert!(!f.has_glyph(0x5b));
    assert_eq!(f.style(), FontStyle::bold());
    assert_eq!(f.upem(), 2048);
    assert_eq!(f.horizontal_extents().unwrap().ascender, 1900);
    assert!(f.vertical_extents().is_none());
}

#[test]
fn add_coverage_extends_ranges() {
    let mut f = font(&[], FontStyle::default());
    f.add_coverage(0x41);
    f.add_coverage(0x42);
    f.add_coverage(0x44);
    assert_eq!(f.coverage, vec![CoverageRange { first: 0x41, last: 0x42 }, CoverageRange { first: 0x44, last: 0x44 }]);
    assert!(f.has_glyph(0x42));
    assert!(!f.has_glyph(0x43));
    assert!(f.has_glyph(0x44));
    assert_eq!(f.style(), FontStyle::default());
}

#[test]
fn unicode_value_conversions() {
    assert_eq!(u32::from(UnicodeValue::from('A')), 0x41);
    assert_eq!(u32::from(UnicodeValue::from(0x628u32)), 0x628);
    assert_eq!(UnicodeValue::Char('\u{1F600}').codepoint(), 0x1F600);
}
