//! The glyph-line decoder: one fixed-width text line becomes one glyph.
//!
//! A line is laid out as a five-character record index, a three-character
//! pair count, one character each for the declared left and right extents,
//! and then `count - 1` two-character coordinate pairs. Within the pair
//! stream the marker `" R"` lifts the pen and closes the current stroke.

use crate::coord::{char_to_int, char_val};
use crate::text::{chars_of, parse_i32_field, spec_parse_field};
use vstd::prelude::*;

verus! {

/// A single point of a glyph stroke, in font design units.
#[derive(Clone, Copy, Debug, PartialEq, Eq, Structural)]
pub struct Edge {
    pub x: i32,
    pub y: i32,
}

/// One decoded glyph: the declared left/right extents from the header
/// pair, the top/bottom extents observed over the path points, and the
/// pen strokes themselves.
#[derive(Clone, Debug, PartialEq)]
pub struct HersheyGlyph {
    pub top: i32,
    pub right: i32,
    pub bottom: i32,
    pub left: i32,
    pub paths: Vec<Vec<Edge>>,
}

/// Why a glyph line cannot be decoded: it is shorter than ten characters,
/// its count field is not a base-10 integer, or its length disagrees with
/// the declared pair count.
#[derive(Clone, Copy, Debug, PartialEq, Eq, Structural)]
pub enum HersheyGlyphError {
    InvalidGlyphData,
}

/// The pen-up marker: a space followed by `'R'`.
pub open spec fn is_pen_up(x: char, y: char) -> bool {
    x == ' ' && y == 'R'
}

/// The strokes of a vector of paths, as mathematical sequences.
pub open spec fn view_paths(v: Seq<Vec<Edge>>) -> Seq<Seq<Edge>> {
    v.map_values(|p: Vec<Edge>| p@)
}

/// Closed strokes and the in-progress stroke after the first `k`
/// coordinate pairs of `content` (a line after its five-character record
/// index). Pair `j` sits at content offsets `5 + 2j` and `6 + 2j`. A
/// pen-up marker closes a non-empty in-progress stroke and is ignored
/// otherwise; any other pair decodes to a point of the stroke.
pub open spec fn decode_state(content: Seq<char>, k: int) -> (Seq<Seq<Edge>>, Seq<Edge>)
    decreases k,
{
    if k <= 0 {
        (Seq::<Seq<Edge>>::empty(), Seq::<Edge>::empty())
    } else {
        let st = decode_state(content, k - 1);
        let x = content[5 + 2 * (k - 1)];
        let y = content[6 + 2 * (k - 1)];
        if is_pen_up(x, y) {
            if st.1.len() > 0 {
                (st.0.push(st.1), Seq::<Edge>::empty())
            } else {
                st
            }
        } else {
            (st.0, st.1.push(Edge { x: char_val(x) as i32, y: char_val(y) as i32 }))
        }
    }
}

/// The strokes of a glyph whose content carries `n` coordinate pairs:
/// the decoded state with a trailing non-empty stroke closed.
pub open spec fn glyph_paths(content: Seq<char>, n: int) -> Seq<Seq<Edge>> {
    let st = decode_state(content, n);
    if st.1.len() > 0 {
        st.0.push(st.1)
    } else {
        st.0
    }
}

/// The smaller of two integers.
pub open spec fn min_i(a: int, b: int) -> int {
    if a <= b {
        a
    } else {
        b
    }
}

/// The larger of two integers.
pub open spec fn max_i(a: int, b: int) -> int {
    if a >= b {
        a
    } else {
        b
    }
}

/// The least `y` of a stroke's points, `i32::MAX` for an empty stroke.
pub open spec fn path_min_y(p: Seq<Edge>) -> int
    decreases p.len(),
{
    if p.len() == 0 {
        i32::MAX as int
    } else {
        min_i(path_min_y(p.drop_last()), p.last().y as int)
    }
}

/// The greatest `y` of a stroke's points, `i32::MIN` for an empty stroke.
pub open spec fn path_max_y(p: Seq<Edge>) -> int
    decreases p.len(),
{
    if p.len() == 0 {
        i32::MIN as int
    } else {
        max_i(path_max_y(p.drop_last()), p.last().y as int)
    }
}

/// The least `x` of a stroke's points, `i32::MAX` for an empty stroke.
pub open spec fn path_min_x(p: Seq<Edge>) -> int
    decreases p.len(),
{
    if p.len() == 0 {
        i32::MAX as int
    } else {
        min_i(path_min_x(p.drop_last()), p.last().x as int)
    }
}

/// The greatest `x` of a stroke's points, `i32::MIN` for an empty stroke.
pub open spec fn path_max_x(p: Seq<Edge>) -> int
    decreases p.len(),
{
    if p.len() == 0 {
        i32::MIN as int
    } else {
        max_i(path_max_x(p.drop_last()), p.last().x as int)
    }
}

/// The least `y` over all points of all strokes.
pub open spec fn paths_min_y(ps: Seq<Seq<Edge>>) -> int
    decreases ps.len(),
{
    if ps.len() == 0 {
        i32::MAX as int
    } else {
        min_i(paths_min_y(ps.drop_last()), path_min_y(ps.last()))
    }
}

/// The greatest `y` over all points of all strokes.
pub open spec fn paths_max_y(ps: Seq<Seq<Edge>>) -> int
    decreases ps.len(),
{
    if ps.len() == 0 {
        i32::MIN as int
    } else {
        max_i(paths_max_y(ps.drop_last()), path_max_y(ps.last()))
    }
}

/// The least `x` over all points of all strokes.
pub open spec fn paths_min_x(ps: Seq<Seq<Edge>>) -> int
    decreases ps.len(),
{
    if ps.len() == 0 {
        i32::MAX as int
    } else {
        min_i(paths_min_x(ps.drop_last()), path_min_x(ps.last()))
    }
}

/// The greatest `x` over all points of all strokes.
pub open spec fn paths_max_x(ps: Seq<Seq<Edge>>) -> int
    decreases ps.len(),
{
    if ps.len() == 0 {
        i32::MIN as int
    } else {
        max_i(paths_max_x(ps.drop_last()), path_max_x(ps.last()))
    }
}

/// Min-folds never exceed their seed and max-folds never fall below it.
pub proof fn lemma_path_fold_bounds(p: Seq<Edge>)
    ensures
        path_min_y(p) <= i32::MAX,
        path_max_y(p) >= i32::MIN,
        path_min_x(p) <= i32::MAX,
        path_max_x(p) >= i32::MIN,
    decreases p.len(),
{
    if p.len() > 0 {
        lemma_path_fold_bounds(p.drop_last());
    }
}

/// As `lemma_path_fold_bounds`, over all strokes.
pub proof fn lemma_paths_fold_bounds(ps: Seq<Seq<Edge>>)
    ensures
        paths_min_y(ps) <= i32::MAX,
        paths_max_y(ps) >= i32::MIN,
        paths_min_x(ps) <= i32::MAX,
        paths_max_x(ps) >= i32::MIN,
    decreases ps.len(),
{
    if ps.len() > 0 {
        lemma_paths_fold_bounds(ps.drop_last());
    }
}

/// Every point of a stroke lies within the stroke's min/max folds.
pub proof fn lemma_path_fold_contains(p: Seq<Edge>, k: int)
    requires
        0 <= k < p.len(),
    ensures
        path_min_y(p) <= (p[k].y as int),
        (p[k].y as int) <= path_max_y(p),
        path_min_x(p) <= (p[k].x as int),
        (p[k].x as int) <= path_max_x(p),
    decreases p.len(),
{
    if k < p.len() - 1 {
        lemma_path_fold_contains(p.drop_last(), k);
        assert(p.drop_last()[k] == p[k]);
    }
}

/// Every point of every stroke lies within the strokes' min/max folds.
pub proof fn lemma_paths_fold_contains(ps: Seq<Seq<Edge>>, j: int, k: int)
    requires
        0 <= j < ps.len(),
        0 <= k < ps[j].len(),
    ensures
        paths_min_y(ps) <= (ps[j][k].y as int),
        (ps[j][k].y as int) <= paths_max_y(ps),
        paths_min_x(ps) <= (ps[j][k].x as int),
        (ps[j][k].x as int) <= paths_max_x(ps),
    decreases ps.len(),
{
    if j == ps.len() - 1 {
        lemma_path_fold_contains(ps[j], k);
    } else {
        lemma_paths_fold_contains(ps.drop_last(), j, k);
        assert(ps.drop_last()[j] == ps[j]);
    }
}

proof fn lemma_decode_state_strokes_nonempty(content: Seq<char>, k: int)
    ensures
        forall|j: int|
            0 <= j < decode_state(content, k).0.len() ==> (#[trigger] decode_state(
                content,
                k,
            ).0[j]).len() > 0,
    decreases k,
{
    if k > 0 {
        lemma_decode_state_strokes_nonempty(content, k - 1);
        let st = decode_state(content, k - 1);
        assert forall|j: int| 0 <= j < decode_state(content, k).0.len() implies (#[trigger] decode_state(
            content,
            k,
        ).0[j]).len() > 0 by {
            if decode_state(content, k).0 == st.0.push(st.1) {
                if j < st.0.len() {
                    assert(st.0.push(st.1)[j] == st.0[j]);
                } else {
                    assert(st.0.push(st.1)[j] == st.1);
                }
            } else {
                assert(decode_state(content, k).0 == st.0);
            }
        }
    }
}

/// A stored stroke is never empty: the decoder closes a stroke only once
/// it holds a point, and drops pen-up markers seen with an empty stroke.
pub proof fn lemma_glyph_strokes_nonempty(content: Seq<char>, n: int)
    ensures
        forall|j: int|
            0 <= j < glyph_paths(content, n).len() ==> (#[trigger] glyph_paths(
                content,
                n,
            )[j]).len() > 0,
{
    lemma_decode_state_strokes_nonempty(content, n);
}

/// As soon as one point exists, the min/max fold extremes are ordered:
/// the least `y` cannot exceed the greatest, nor the least `x`.
pub proof fn lemma_extents_ordered(ps: Seq<Seq<Edge>>, j: int, k: int)
    requires
        0 <= j < ps.len(),
        0 <= k < ps[j].len(),
    ensures
        paths_min_y(ps) <= paths_max_y(ps),
        paths_min_x(ps) <= paths_max_x(ps),
{
    lemma_paths_fold_contains(ps, j, k);
}

/// The count field of a line: characters 5 to 7, trimmed and read as a
/// base-10 integer.
pub open spec fn count_of(line: Seq<char>) -> Option<int> {
    spec_parse_field(line, 5, 8)
}

/// A line decodes to a glyph: at least ten characters, a numeric count,
/// and after the five-character index exactly five header characters plus
/// `count - 1` two-character pairs.
pub open spec fn line_valid(line: Seq<char>) -> bool {
    &&& line.len() >= 10
    &&& count_of(line) matches Some(n) && line.len() - 5 == 5 + 2 * (n - 1)
}

/// `g` is the glyph that the valid line decodes to: extents from the
/// header pair at content offsets 3 and 4, strokes from the pair stream,
/// and top/bottom as the min/max fold over the stroke points' `y`.
pub open spec fn glyph_matches(g: HersheyGlyph, line: Seq<char>) -> bool {
    let content = line.subrange(5, line.len() as int);
    let n = count_of(line).unwrap() - 1;
    &&& g.left as int == char_val(content[3])
    &&& g.right as int == char_val(content[4])
    &&& view_paths(g.paths@) == glyph_paths(content, n)
    &&& g.top as int == paths_min_y(glyph_paths(content, n))
    &&& g.bottom as int == paths_max_y(glyph_paths(content, n))
}

/// Decode one glyph line given as characters.
#[verifier::loop_isolation(false)]
pub(crate) fn glyph_from_chars(line: &Vec<char>) -> (r: Result<HersheyGlyph, HersheyGlyphError>)
    ensures
        match r {
            Ok(g) => line_valid(line@) && glyph_matches(g, line@),
            Err(e) => !line_valid(line@) && e == HersheyGlyphError::InvalidGlyphData,
        },
{
    if line.len() < 10 {
        return Err(HersheyGlyphError::InvalidGlyphData);
    }
    let count = match parse_i32_field(line, 5, 8) {
        Some(c) => c,
        None => {
            return Err(HersheyGlyphError::InvalidGlyphData);
        },
    };
    if count < 1 {
        // At least five content characters remain after the header, so the
        // length test against a non-positive count can never succeed.
        return Err(HersheyGlyphError::InvalidGlyphData);
    }
    let num_pairs: usize = (count - 1) as usize;
    if (line.len() as u64) != 10 + 2 * (num_pairs as u64) {
        return Err(HersheyGlyphError::InvalidGlyphData);
    }
    proof {
        assert(line_valid(line@));
    }

    let ghost content = line@.subrange(5, line@.len() as int);
    proof {
        assert(content[3] == line@[8]);
        assert(content[4] == line@[9]);
    }
    let left = char_to_int(&line[8]);
    let right = char_to_int(&line[9]);

    let mut top: i32 = i32::MAX;
    let mut bottom: i32 = i32::MIN;
    let mut paths: Vec<Vec<Edge>> = Vec::new();
    let mut path: Vec<Edge> = Vec::new();
    let mut i: usize = 0;
    while i < num_pairs
        invariant
            i <= num_pairs,
            view_paths(paths@) == decode_state(content, i as int).0,
            path@ == decode_state(content, i as int).1,
            top as int == min_i(
                paths_min_y(decode_state(content, i as int).0),
                path_min_y(decode_state(content, i as int).1),
            ),
            bottom as int == max_i(
                paths_max_y(decode_state(content, i as int).0),
                path_max_y(decode_state(content, i as int).1),
            ),
        decreases num_pairs - i,
    {
        let ghost st = decode_state(content, i as int);
        let x = line[10 + 2 * i];
        let y = line[11 + 2 * i];
        proof {
            assert(content[5 + 2 * (i as int)] == line@[10 + 2 * (i as int)]);
            assert(content[6 + 2 * (i as int)] == line@[11 + 2 * (i as int)]);
        }
        if x == ' ' && y == 'R' {
            if path.len() > 0 {
                paths.push(path);
                path = Vec::new();
                proof {
                    assert(decode_state(content, i as int + 1) == (
                        st.0.push(st.1),
                        Seq::<Edge>::empty(),
                    ));
                    assert(view_paths(paths@) =~= st.0.push(st.1));
                    assert(st.0.push(st.1).drop_last() =~= st.0);
                    lemma_paths_fold_bounds(st.0);
                    lemma_path_fold_bounds(st.1);
                }
            } else {
                proof {
                    assert(decode_state(content, i as int + 1) == st);
                }
            }
        } else {
            let xv = char_to_int(&x);
            let yv = char_to_int(&y);
            let e = Edge { x: xv, y: yv };
            proof {
                assert(!is_pen_up(content[5 + 2 * (i as int)], content[6 + 2 * (i as int)]));
                assert(e == (Edge {
                    x: char_val(content[5 + 2 * (i as int)]) as i32,
                    y: char_val(content[6 + 2 * (i as int)]) as i32,
                }));
                assert(decode_state(content, i as int + 1) == (st.0, st.1.push(e)));
            }
            if yv < top {
                top = yv;
            }
            if yv > bottom {
                bottom = yv;
            }
            path.push(e);
            proof {
                assert(st.1.push(e).drop_last() =~= st.1);
                assert(path_min_y(st.1.push(e)) == min_i(path_min_y(st.1), e.y as int));
                assert(path_max_y(st.1.push(e)) == max_i(path_max_y(st.1), e.y as int));
            }
        }
        i = i + 1;
    }
    let ghost st = decode_state(content, num_pairs as int);
    if path.len() > 0 {
        paths.push(path);
        proof {
            assert(glyph_paths(content, num_pairs as int) == st.0.push(st.1));
            assert(view_paths(paths@) =~= st.0.push(st.1));
            assert(st.0.push(st.1).drop_last() =~= st.0);
        }
    } else {
        proof {
            assert(glyph_paths(content, num_pairs as int) == st.0);
            lemma_paths_fold_bounds(st.0);
        }
    }
    Ok(HersheyGlyph { top, right, bottom, left, paths })
}

/// Decode one line of font text into a glyph.
pub fn line_to_hershey_glyph(line: &str) -> (r: Result<HersheyGlyph, HersheyGlyphError>)
    ensures
        match r {
            Ok(g) => line_valid(line@) && glyph_matches(g, line@),
            Err(e) => !line_valid(line@) && e == HersheyGlyphError::InvalidGlyphData,
        },
{
    let chars = chars_of(line);
    glyph_from_chars(&chars)
}

proof fn lemma_decode_state_pairs_only(c1: Seq<char>, c2: Seq<char>, k: int)
    requires
        forall|j: int| 5 <= j < 5 + 2 * k ==> c1[j] == c2[j],
    ensures
        decode_state(c1, k) == decode_state(c2, k),
    decreases k,
{
    if k > 0 {
        lemma_decode_state_pairs_only(c1, c2, k - 1);
        assert(c1[5 + 2 * (k - 1)] == c2[5 + 2 * (k - 1)]);
        assert(c1[6 + 2 * (k - 1)] == c2[6 + 2 * (k - 1)]);
    }
}

/// The decoded strokes depend only on the coordinate-pair windows of the
/// content: two lines that agree there decode to the same strokes, whatever
/// their record index, count field, or header extent pair hold. In
/// particular the header left/right pair is consumed as metadata and never
/// contributes a vertex.
pub proof fn lemma_paths_from_pairs_only(c1: Seq<char>, c2: Seq<char>, n: int)
    requires
        forall|j: int| 5 <= j < 5 + 2 * n ==> c1[j] == c2[j],
    ensures
        glyph_paths(c1, n) == glyph_paths(c2, n),
{
    lemma_decode_state_pairs_only(c1, c2, n);
}

} // verus!
