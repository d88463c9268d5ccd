use hershey::{HersheyFont, HersheyFontGetGlyphError, HersheyFontNewError, HersheyGlyphError};

#[test]
fn new_returns_error_if_data_is_invalid() {
    let result = HersheyFont::new(" ");

    assert!(matches!(result, Err(HersheyFontNewError::ParseError(_, _))));
}

#[test]
fn get_glyph_works() {
    let font = HersheyFont::new("  720  3G][BIb").unwrap();
    let glyph = font.get_glyph(' ');

    assert!(matches!(glyph, Ok(_)));
}

#[test]
fn get_glyph_returns_error_if_glyph_is_not_found() {
    let font = HersheyFont::new("  720  3G][BIb").unwrap();
    let result = font.get_glyph('A');

    assert!(matches!(
        result,
        Err(HersheyFontGetGlyphError::GlyphNotFound(_))
    ));
}

#[test]
fn get_glyph_rejects_characters_before_space() {
    let font = HersheyFont::new("  720  3G][BIb").unwrap();
    assert_eq!(
        font.get_glyph('\u{1f}'),
        Err(HersheyFontGetGlyphError::GlyphNotFound('\u{1f}'))
    );
}

#[test]
fn get_glyph_returns_the_slot_of_the_character() {
    let font = HersheyFont::new("  720  3G][BIb\n    1  1KT").unwrap();
    let space = font.get_glyph(' ').unwrap();
    assert_eq!(space.left, -11);
    let bang = font.get_glyph('!').unwrap();
    assert!(bang.paths.is_empty());
    assert!(font.get_glyph('"').is_err());
}

#[test]
fn empty_input_is_a_parse_error() {
    assert!(matches!(
        HersheyFont::new(""),
        Err(HersheyFontNewError::ParseError(
            HersheyGlyphError::InvalidGlyphData,
            1
        ))
    ));
    assert!(matches!(
        HersheyFont::new("\n\n"),
        Err(HersheyFontNewError::ParseError(_, 1))
    ));
}

#[test]
fn error_carries_the_unfiltered_line_number() {
    // Lines are numbered by their position in the newline split, so the
    // blank first line still counts.
    let result = HersheyFont::new("\n  720  3G][BIb\nbad\n");
    assert!(matches!(
        result,
        Err(HersheyFontNewError::ParseError(
            HersheyGlyphError::InvalidGlyphData,
            3
        ))
    ));
}

#[test]
fn bounding_box_folds_over_every_point() {
    // First glyph: points (9, -16) and (-9, 16).
    // Second glyph: points (0, 8) and (-17, -16).
    let font = HersheyFont::new("  720  3G][BIb\n    1  3KTRZAB").unwrap();
    assert_eq!(font.top, -16);
    assert_eq!(font.right, 9);
    assert_eq!(font.bottom, 16);
    assert_eq!(font.left, -17);
}

#[test]
fn pointless_font_keeps_fold_seeds() {
    // One glyph without strokes: the box stays at the fold seeds.
    let font = HersheyFont::new("    1  1KT").unwrap();
    assert_eq!(font.top, i32::MAX);
    assert_eq!(font.right, i32::MIN);
    assert_eq!(font.bottom, i32::MIN);
    assert_eq!(font.left, i32::MAX);
}

#[test]
fn trailing_newline_is_tolerated() {
    let font = HersheyFont::new("  720  3G][BIb\n").unwrap();
    assert!(font.get_glyph(' ').is_ok());
    assert!(font.get_glyph('!').is_err());
}
