//! The font assembler: the whole font source becomes a glyph table with a
//! font-wide bounding box and character-indexed lookup.

use crate::glyph::{
    glyph_from_chars, glyph_matches, lemma_paths_fold_contains, line_valid, max_i, min_i,
    path_max_x, path_max_y, path_min_x, path_min_y, paths_max_x, paths_max_y, paths_min_x,
    paths_min_y, view_paths, Edge, HersheyGlyph, HersheyGlyphError,
};
use crate::text::{char_code, chars_of};
use vstd::prelude::*;

verus! {

/// Why the font source cannot be parsed.
#[derive(Clone, Copy, Debug, PartialEq, Eq, Structural)]
pub enum HersheyFontNewError {
    /// A line of the source does not decode: the cause, and the 1-based
    /// position of the line in the newline split of the source. A source
    /// without any non-empty line reports line 1.
    ParseError(HersheyGlyphError, usize),
}

/// Why a glyph lookup fails.
#[derive(Clone, Copy, Debug, PartialEq, Eq, Structural)]
pub enum HersheyFontGetGlyphError {
    /// The character's slot lies outside the glyph table.
    GlyphNotFound(char),
}

/// The pieces of `s` between newline characters, in order, as
/// `str::split('\n')` yields them: `n` newlines give `n + 1` pieces, and
/// an empty `s` gives one empty piece.
pub open spec fn split_lines(s: Seq<char>) -> Seq<Seq<char>>
    decreases s.len(),
{
    if s.len() == 0 {
        seq![Seq::<char>::empty()]
    } else if s.last() == '\n' {
        split_lines(s.drop_last()).push(Seq::<char>::empty())
    } else {
        let rest = split_lines(s.drop_last());
        rest.drop_last().push(rest.last().push(s.last()))
    }
}

/// The non-empty pieces of a split, in order: the glyph lines.
pub open spec fn nonempty_lines(ls: Seq<Seq<char>>) -> Seq<Seq<char>>
    decreases ls.len(),
{
    if ls.len() == 0 {
        Seq::<Seq<char>>::empty()
    } else {
        let rest = nonempty_lines(ls.drop_last());
        if ls.last().len() > 0 {
            rest.push(ls.last())
        } else {
            rest
        }
    }
}

/// The lines of a split, as mathematical sequences.
pub open spec fn view_lines(v: Seq<Vec<char>>) -> Seq<Seq<char>> {
    v.map_values(|l: Vec<char>| l@)
}

/// The least `y` over every point of every stroke of every glyph.
pub open spec fn font_min_y(gs: Seq<HersheyGlyph>) -> int
    decreases gs.len(),
{
    if gs.len() == 0 {
        i32::MAX as int
    } else {
        min_i(font_min_y(gs.drop_last()), paths_min_y(view_paths(gs.last().paths@)))
    }
}

/// The greatest `y` over every point of every stroke of every glyph.
pub open spec fn font_max_y(gs: Seq<HersheyGlyph>) -> int
    decreases gs.len(),
{
    if gs.len() == 0 {
        i32::MIN as int
    } else {
        max_i(font_max_y(gs.drop_last()), paths_max_y(view_paths(gs.last().paths@)))
    }
}

/// The least `x` over every point of every stroke of every glyph.
pub open spec fn font_min_x(gs: Seq<HersheyGlyph>) -> int
    decreases gs.len(),
{
    if gs.len() == 0 {
        i32::MAX as int
    } else {
        min_i(font_min_x(gs.drop_last()), paths_min_x(view_paths(gs.last().paths@)))
    }
}

/// The greatest `x` over every point of every stroke of every glyph.
pub open spec fn font_max_x(gs: Seq<HersheyGlyph>) -> int
    decreases gs.len(),
{
    if gs.len() == 0 {
        i32::MIN as int
    } else {
        max_i(font_max_x(gs.drop_last()), paths_max_x(view_paths(gs.last().paths@)))
    }
}

/// Every point of every stroke of every glyph lies within the font-wide
/// bounding-box folds: the box that `HersheyFont::new` stores in `top`,
/// `right`, `bottom` and `left` encloses the whole font.
pub proof fn lemma_font_box_contains(gs: Seq<HersheyGlyph>, i: int, j: int, k: int)
    requires
        0 <= i < gs.len(),
        0 <= j < gs[i].paths@.len(),
        0 <= k < gs[i].paths@[j]@.len(),
    ensures
        font_min_y(gs) <= (gs[i].paths@[j]@[k].y as int),
        (gs[i].paths@[j]@[k].y as int) <= font_max_y(gs),
        font_min_x(gs) <= (gs[i].paths@[j]@[k].x as int),
        (gs[i].paths@[j]@[k].x as int) <= font_max_x(gs),
    decreases gs.len(),
{
    if i == gs.len() - 1 {
        lemma_paths_fold_contains(view_paths(gs[i].paths@), j, k);
        assert(view_paths(gs[i].paths@)[j] == gs[i].paths@[j]@);
    } else {
        lemma_font_box_contains(gs.drop_last(), i, j, k);
        assert(gs.drop_last()[i] == gs[i]);
    }
}

/// The least and greatest coordinates over the points of a glyph's
/// strokes, as `(min y, max x, max y, min x)`.
#[verifier::loop_isolation(false)]
fn paths_extents(paths: &Vec<Vec<Edge>>) -> (r: (i32, i32, i32, i32))
    ensures
        r.0 as int == paths_min_y(view_paths(paths@)),
        r.1 as int == paths_max_x(view_paths(paths@)),
        r.2 as int == paths_max_y(view_paths(paths@)),
        r.3 as int == paths_min_x(view_paths(paths@)),
{
    let mut min_y: i32 = i32::MAX;
    let mut max_x: i32 = i32::MIN;
    let mut max_y: i32 = i32::MIN;
    let mut min_x: i32 = i32::MAX;
    let mut p: usize = 0;
    while p < paths.len()
        invariant
            p <= paths@.len(),
            min_y as int == paths_min_y(view_paths(paths@).take(p as int)),
            max_x as int == paths_max_x(view_paths(paths@).take(p as int)),
            max_y as int == paths_max_y(view_paths(paths@).take(p as int)),
            min_x as int == paths_min_x(view_paths(paths@).take(p as int)),
        decreases paths@.len() - p,
    {
        let path = &paths[p];
        let ghost done = view_paths(paths@).take(p as int);
        let mut q: usize = 0;
        while q < path.len()
            invariant
                q <= path@.len(),
                min_y as int == min_i(paths_min_y(done), path_min_y(path@.take(q as int))),
                max_x as int == max_i(paths_max_x(done), path_max_x(path@.take(q as int))),
                max_y as int == max_i(paths_max_y(done), path_max_y(path@.take(q as int))),
                min_x as int == min_i(paths_min_x(done), path_min_x(path@.take(q as int))),
            decreases path@.len() - q,
        {
            let e = path[q];
            if e.y < min_y {
                min_y = e.y;
            }
            if e.x > max_x {
                max_x = e.x;
            }
            if e.y > max_y {
                max_y = e.y;
            }
            if e.x < min_x {
                min_x = e.x;
            }
            q = q + 1;
            proof {
                let cur = path@.take(q as int);
                assert(cur.drop_last() =~= path@.take(q as int - 1));
                assert(cur.last() == path@[q as int - 1]);
            }
        }
        proof {
            assert(path@.take(path@.len() as int) =~= path@);
        }
        p = p + 1;
        proof {
            let cur = view_paths(paths@).take(p as int);
            assert(cur.drop_last() =~= done);
            assert(cur.last() == path@);
        }
    }
    proof {
        assert(view_paths(paths@).take(paths@.len() as int) =~= view_paths(paths@));
    }
    (min_y, max_x, max_y, min_x)
}

/// An immutable Hershey font: the glyph table, positionally indexed by
/// character code minus 32, and the bounding box folded over every point
/// of every stroke of every glyph. A font without any point keeps the
/// fold seeds (`i32::MAX` for `top`/`left`, `i32::MIN` for
/// `bottom`/`right`).
#[derive(Clone, Debug, PartialEq)]
pub struct HersheyFont {
    pub top: i32,
    pub right: i32,
    pub bottom: i32,
    pub left: i32,
    pub glyphs: Vec<HersheyGlyph>,
}

impl HersheyFont {
    /// Parse the whole font source: split on newlines, decode every
    /// non-empty line, and fold the font-wide bounding box. The first
    /// undecodable line aborts the parse with its 1-based line number; a
    /// source without any non-empty line fails the same way.
    #[verifier::loop_isolation(false)]
    pub fn new(data: &str) -> (r: Result<HersheyFont, HersheyFontNewError>)
        ensures
            match r {
                Ok(font) => ({
                    let ls = split_lines(data@);
                    let ne = nonempty_lines(ls);
                    &&& ne.len() > 0
                    &&& forall|t: int|
                        0 <= t < ls.len() ==> (#[trigger] ls[t]).len() == 0 || line_valid(ls[t])
                    &&& font.glyphs@.len() == ne.len()
                    &&& forall|k: int|
                        0 <= k < ne.len() ==> line_valid(#[trigger] ne[k]) && glyph_matches(
                            font.glyphs@[k],
                            ne[k],
                        )
                    &&& font.top as int == font_min_y(font.glyphs@)
                    &&& font.right as int == font_max_x(font.glyphs@)
                    &&& font.bottom as int == font_max_y(font.glyphs@)
                    &&& font.left as int == font_min_x(font.glyphs@)
                }),
                Err(e) => e matches HersheyFontNewError::ParseError(cause, lineno) && ({
                    let ls = split_lines(data@);
                    &&& cause == HersheyGlyphError::InvalidGlyphData
                    &&& {
                        ||| (nonempty_lines(ls).len() == 0 && lineno == 1)
                        ||| {
                            &&& 1 <= lineno <= ls.len()
                            &&& ls[lineno - 1].len() > 0
                            &&& !line_valid(ls[lineno - 1])
                            &&& forall|t: int|
                                0 <= t < lineno - 1 ==> (#[trigger] ls[t]).len() == 0
                                    || line_valid(ls[t])
                        }
                    }
                }),
            },
    {
        let chars = chars_of(data);
        let n = chars.len();
        let mut lines: Vec<Vec<char>> = Vec::new();
        let mut cur: Vec<char> = Vec::new();
        let mut i: usize = 0;
        while i < n
            invariant
                i <= n,
                view_lines(lines@).push(cur@) == split_lines(data@.take(i as int)),
            decreases n - i,
        {
            let c = chars[i];
            let ghost lines_before = view_lines(lines@);
            let ghost cur_before = cur@;
            if c == '\n' {
                lines.push(cur);
                cur = Vec::new();
            } else {
                cur.push(c);
            }
            i = i + 1;
            proof {
                let pre = data@.take(i as int - 1);
                let now = data@.take(i as int);
                assert(now.drop_last() =~= pre);
                assert(now.last() == data@[i as int - 1]);
                if c == '\n' {
                    assert(view_lines(lines@) =~= lines_before.push(cur_before));
                    assert(view_lines(lines@).push(cur@) =~= split_lines(pre).push(
                        Seq::<char>::empty(),
                    ));
                } else {
                    assert(view_lines(lines@) =~= lines_before);
                    assert(split_lines(pre).drop_last() =~= lines_before);
                    assert(view_lines(lines@).push(cur@) =~= split_lines(pre).drop_last().push(
                        split_lines(pre).last().push(c),
                    ));
                }
            }
        }
        lines.push(cur);
        proof {
            assert(data@.take(n as int) =~= data@);
            assert(view_lines(lines@) =~= split_lines(data@));
        }

        let ghost ls = split_lines(data@);
        let mut glyphs: Vec<HersheyGlyph> = Vec::new();
        let mut top: i32 = i32::MAX;
        let mut right: i32 = i32::MIN;
        let mut bottom: i32 = i32::MIN;
        let mut left: i32 = i32::MAX;
        let mut j: usize = 0;
        while j < lines.len()
            invariant
                j <= lines@.len(),
                forall|t: int| 0 <= t < j ==> (#[trigger] ls[t]).len() == 0 || line_valid(ls[t]),
                glyphs@.len() == nonempty_lines(ls.take(j as int)).len(),
                forall|k: int|
                    0 <= k < glyphs@.len() ==> line_valid(
                        #[trigger] nonempty_lines(ls.take(j as int))[k],
                    ) && glyph_matches(glyphs@[k], nonempty_lines(ls.take(j as int))[k]),
                top as int == font_min_y(glyphs@),
                right as int == font_max_x(glyphs@),
                bottom as int == font_max_y(glyphs@),
                left as int == font_min_x(glyphs@),
            decreases lines@.len() - j,
        {
            let line = &lines[j];
            proof {
                assert(ls[j as int] == line@);
            }
            if line.len() > 0 {
                match glyph_from_chars(line) {
                    Ok(g) => {
                        let ext = paths_extents(&g.paths);
                        if ext.0 < top {
                            top = ext.0;
                        }
                        if ext.1 > right {
                            right = ext.1;
                        }
                        if ext.2 > bottom {
                            bottom = ext.2;
                        }
                        if ext.3 < left {
                            left = ext.3;
                        }
                        let ghost gv = g;
                        let ghost old_glyphs = glyphs@;
                        glyphs.push(g);
                        proof {
                            assert(glyphs@.drop_last() =~= old_glyphs);
                            assert(glyphs@.last() == gv);
                        }
                    },
                    Err(e) => {
                        return Err(HersheyFontNewError::ParseError(e, j + 1));
                    },
                }
            }
            j = j + 1;
            proof {
                let pre = ls.take(j as int - 1);
                let now = ls.take(j as int);
                assert(now.drop_last() =~= pre);
                assert(now.last() == ls[j as int - 1]);
            }
        }
        proof {
            assert(ls.take(lines@.len() as int) =~= ls);
        }

        if glyphs.len() == 0 {
            // No non-empty line means no glyph at all: a parse failure.
            return Err(
                HersheyFontNewError::ParseError(HersheyGlyphError::InvalidGlyphData, 1),
            );
        }

        Ok(HersheyFont { top, right, bottom, left, glyphs })
    }

    /// Look up the glyph of `glyph`: slot `code - 32` of the table, so
    /// the space character sits in slot 0.
    pub fn get_glyph(&self, glyph: char) -> (r: Result<&HersheyGlyph, HersheyFontGetGlyphError>)
        ensures
            match r {
                Ok(g) => {
                    &&& 32 <= glyph as int
                    &&& (glyph as int) < 32 + self.glyphs@.len()
                    &&& *g == self.glyphs@[glyph as int - 32]
                },
                Err(e) => {
                    &&& ((glyph as int) < 32 || (glyph as int) >= 32 + self.glyphs@.len())
                    &&& e == (HersheyFontGetGlyphError::GlyphNotFound(glyph))
                },
            },
    {
        let code = char_code(glyph);
        if code < 32 || (code - 32) as usize >= self.glyphs.len() {
            return Err(HersheyFontGetGlyphError::GlyphNotFound(glyph));
        }
        Ok(&self.glyphs[(code - 32) as usize])
    }
}

} // verus!
