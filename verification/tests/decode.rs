use hershey::{char_to_int, line_to_hershey_glyph, Edge, HersheyGlyph, HersheyGlyphError};

#[test]
fn char_to_int_works() {
    assert_eq!(char_to_int(&'R'), 0);
    assert_eq!(char_to_int(&'M'), -5);
    assert_eq!(char_to_int(&'W'), 5);
    assert_eq!(char_to_int(&'Q'), -1);
}

#[test]
fn char_to_int_is_monotonic_on_examples() {
    assert!(char_to_int(&'A') < char_to_int(&'B'));
    assert!(char_to_int(&' ') < char_to_int(&'R'));
    assert!(char_to_int(&'R') < char_to_int(&'z'));
}

#[test]
fn line_to_hershey_glyph_works() {
    let glyph = line_to_hershey_glyph("  720  3G][BIb").unwrap();

    assert_eq!(
        glyph,
        HersheyGlyph {
            top: -16,
            right: 11,
            bottom: 16,
            left: -11,
            paths: vec![vec![Edge { x: 9, y: -16 }, Edge { x: -9, y: 16 }]]
        }
    );
}

#[test]
fn line_to_hershey_glyph_returns_error_if_glyph_data_is_invalid() {
    let result = line_to_hershey_glyph("");

    assert!(result.is_err());
}

#[test]
fn short_lines_are_invalid() {
    // Nine characters is one short of the minimum viable line.
    assert_eq!(
        line_to_hershey_glyph("123456789"),
        Err(HersheyGlyphError::InvalidGlyphData)
    );
    assert_eq!(
        line_to_hershey_glyph(" "),
        Err(HersheyGlyphError::InvalidGlyphData)
    );
}

#[test]
fn non_numeric_count_is_invalid() {
    assert_eq!(
        line_to_hershey_glyph("  720abcG][BIb"),
        Err(HersheyGlyphError::InvalidGlyphData)
    );
}

#[test]
fn count_mismatch_is_invalid() {
    // The count claims four pairs but only two follow the header.
    assert_eq!(
        line_to_hershey_glyph("  720  4G][BIb"),
        Err(HersheyGlyphError::InvalidGlyphData)
    );
    // The count claims two pairs but three follow the header.
    assert_eq!(
        line_to_hershey_glyph("  720  2G][BIbRZ"),
        Err(HersheyGlyphError::InvalidGlyphData)
    );
}

#[test]
fn count_field_accepts_a_plus_sign() {
    let plain = line_to_hershey_glyph("  720  3G][BIb").unwrap();
    let signed = line_to_hershey_glyph("  720 +3G][BIb").unwrap();
    assert_eq!(plain, signed);
}

#[test]
fn negative_count_is_invalid() {
    // A count below one can never match the content length.
    assert_eq!(
        line_to_hershey_glyph("  720 -1G]"),
        Err(HersheyGlyphError::InvalidGlyphData)
    );
    assert_eq!(
        line_to_hershey_glyph("  720  0G]"),
        Err(HersheyGlyphError::InvalidGlyphData)
    );
}

#[test]
fn header_pair_is_not_a_vertex() {
    // Only the record index, count and header extents differ between the
    // two lines; the decoded strokes are identical.
    let a = line_to_hershey_glyph("  720  3G][BIb").unwrap();
    let b = line_to_hershey_glyph("ZZZZZ  3QQ[BIb").unwrap();
    assert_eq!(a.paths, b.paths);
    assert_eq!(b.left, char_to_int(&'Q'));
    assert_eq!(b.right, char_to_int(&'Q'));
    // The first glyph's header extents (-11, 11) appear nowhere as a point.
    for path in &a.paths {
        for point in path {
            assert_ne!((point.x, point.y), (-11, 11));
        }
    }
}

#[test]
fn pen_up_marker_splits_strokes() {
    let glyph = line_to_hershey_glyph("    1  4KTAB RCD").unwrap();
    assert_eq!(
        glyph.paths,
        vec![
            vec![Edge { x: -17, y: -16 }],
            vec![Edge { x: -15, y: -14 }],
        ]
    );
    assert_eq!(glyph.top, -16);
    assert_eq!(glyph.bottom, -14);
}

#[test]
fn leading_pen_up_marker_is_ignored() {
    // A marker before any point opens no empty stroke.
    let glyph = line_to_hershey_glyph("    1  3KT RAB").unwrap();
    assert_eq!(glyph.paths, vec![vec![Edge { x: -17, y: -16 }]]);
}

#[test]
fn empty_glyph_keeps_fold_seeds() {
    // A count of one declares the header pair alone: no strokes.
    let glyph = line_to_hershey_glyph("    1  1KT").unwrap();
    assert!(glyph.paths.is_empty());
    assert_eq!(glyph.top, i32::MAX);
    assert_eq!(glyph.bottom, i32::MIN);
    assert_eq!(glyph.left, char_to_int(&'K'));
    assert_eq!(glyph.right, char_to_int(&'T'));
}
