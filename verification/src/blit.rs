//! Cross-grid compositing: copy a sub-rectangle of one console onto
//! another, blending each channel independently at fractional alphas.
//!
//! The background channel is a plain blend (with an optional key color that
//! skips a source cell entirely). The glyph cannot be blended, so the
//! foreground channel crossfades: the old glyph first dissolves toward the
//! destination background, then the new glyph fades in from it, switching
//! over at alpha one half.

use vstd::prelude::*;
use crate::color::{spec_color_blend, color_blend, Color};
use crate::console::{CellContent, Cells, Console, CHAR_SPACE};

verus! {

/// One destination cell after compositing the source cell `s` over it.
/// `fnum / fden` is the foreground alpha, `bnum / bden` the background
/// alpha; a zero alpha leaves the channel alone, and a source background
/// equal to `key` skips the whole cell.
pub open spec fn blit_cell(
    s: CellContent,
    d: CellContent,
    fnum: int,
    fden: int,
    bnum: int,
    bden: int,
    key: Option<Color>,
) -> CellContent {
    if bnum > 0 && key == Some(s.back) {
        d
    } else {
        let b1 = if bnum > 0 {
            spec_color_blend(d.back, s.back, bnum, bden)
        } else {
            d.back
        };
        if fnum <= 0 {
            CellContent { glyph: d.glyph, fore: d.fore, back: b1 }
        } else if fnum >= fden {
            CellContent { glyph: s.glyph, fore: s.fore, back: b1 }
        } else if s.glyph == CHAR_SPACE as u32 {
            CellContent {
                glyph: d.glyph,
                fore: spec_color_blend(d.fore, s.back, bnum, bden),
                back: b1,
            }
        } else if d.glyph == CHAR_SPACE as u32 {
            CellContent { glyph: s.glyph, fore: spec_color_blend(b1, s.fore, fnum, fden), back: b1 }
        } else if d.glyph == s.glyph {
            CellContent {
                glyph: d.glyph,
                fore: spec_color_blend(d.fore, s.fore, fnum, fden),
                back: b1,
            }
        } else if 2 * fnum < fden {
            CellContent {
                glyph: d.glyph,
                fore: spec_color_blend(d.fore, b1, 2 * fnum, fden),
                back: b1,
            }
        } else {
            CellContent {
                glyph: s.glyph,
                fore: spec_color_blend(b1, s.fore, 2 * fnum - fden, fden),
                back: b1,
            }
        }
    }
}

/// A fully opaque source cell composited at alpha one on both channels
/// replaces the destination cell outright.
pub proof fn lemma_blit_cell_opaque(s: CellContent, d: CellContent, fden: int, bden: int)
    requires
        s.back.3 == 255,
        fden >= 1,
        bden >= 1,
    ensures
        blit_cell(s, d, fden, fden, bden, bden, None) == s,
{
    crate::color::lemma_blend_full(d.back, s.back, bden);
}

fn blit_cell_exec(
    sg: u32,
    sf: Color,
    sb: Color,
    dg: u32,
    df: Color,
    db: Color,
    fnum: u32,
    fden: u32,
    bnum: u32,
    bden: u32,
    key: Option<Color>,
) -> (r: (u32, Color, Color))
    requires
        1 <= fden <= 0x8000_0000,
        fnum <= fden,
        1 <= bden,
        bnum <= bden,
    ensures
        ({
            let c = blit_cell(
                CellContent { glyph: sg, fore: sf, back: sb },
                CellContent { glyph: dg, fore: df, back: db },
                fnum as int,
                fden as int,
                bnum as int,
                bden as int,
                key,
            );
            r.0 == c.glyph && r.1 == c.fore && r.2 == c.back
        }),
{
    if bnum > 0 {
        if let Some(k) = key {
            if k.0 == sb.0 && k.1 == sb.1 && k.2 == sb.2 && k.3 == sb.3 {
                return (dg, df, db);
            }
        }
    }
    let b1: Color = if bnum > 0 {
        color_blend(db, sb, bnum, bden)
    } else {
        db
    };
    if fnum == 0 {
        (dg, df, b1)
    } else if fnum >= fden {
        (sg, sf, b1)
    } else if sg == CHAR_SPACE as u32 {
        (dg, color_blend(df, sb, bnum, bden), b1)
    } else if dg == CHAR_SPACE as u32 {
        (sg, color_blend(b1, sf, fnum, fden), b1)
    } else if dg == sg {
        (dg, color_blend(df, sf, fnum, fden), b1)
    } else if 2 * fnum < fden {
        (dg, color_blend(df, b1, 2 * fnum, fden), b1)
    } else {
        (sg, color_blend(b1, sf, 2 * fnum - fden, fden), b1)
    }
}

/// Destination cell `i` receives source content when both its own
/// coordinate and the corresponding source coordinate lie inside the
/// requested rectangle and on their grids.
pub open spec fn blit_covers(
    src: Console,
    dst: Console,
    i: int,
    xsrc: int,
    ysrc: int,
    wsrc: int,
    hsrc: int,
    xdst: int,
    ydst: int,
) -> bool {
    let pw = dst.pot_width as int;
    let cx = i % pw;
    let cy = i / pw;
    let sx = cx - xdst + xsrc;
    let sy = cy - ydst + ysrc;
    &&& xsrc <= sx < wsrc
    &&& ysrc <= sy < hsrc
    &&& 0 <= sx < src.width
    &&& 0 <= sy < src.height
    &&& 0 <= cx < dst.width
    &&& 0 <= cy < dst.height
}

/// The source cell composited onto destination cell `i`.
pub open spec fn blit_src_cell(src: Console, dst: Console, i: int, xsrc: int, ysrc: int, xdst: int, ydst: int) -> CellContent {
    let pw = dst.pot_width as int;
    let sx = i % pw - xdst + xsrc;
    let sy = i / pw - ydst + ysrc;
    src.cells().at(src.idx(sx, sy))
}

/// The destination grid `c` after the blit: every covered cell composited,
/// every other cell untouched.
pub open spec fn blit_op(
    src: Console,
    dst: Console,
    c: Cells,
    xsrc: int,
    ysrc: int,
    wsrc: int,
    hsrc: int,
    xdst: int,
    ydst: int,
    fnum: int,
    fden: int,
    bnum: int,
    bden: int,
    key: Option<Color>,
) -> Cells {
    Cells {
        ascii: Seq::new(
            c.ascii.len(),
            |i: int|
                if blit_covers(src, dst, i, xsrc, ysrc, wsrc, hsrc, xdst, ydst) {
                    blit_cell(
                        blit_src_cell(src, dst, i, xsrc, ysrc, xdst, ydst),
                        c.at(i),
                        fnum,
                        fden,
                        bnum,
                        bden,
                        key,
                    ).glyph
                } else {
                    c.ascii[i]
                },
        ),
        fore: Seq::new(
            c.fore.len(),
            |i: int|
                if blit_covers(src, dst, i, xsrc, ysrc, wsrc, hsrc, xdst, ydst) {
                    blit_cell(
                        blit_src_cell(src, dst, i, xsrc, ysrc, xdst, ydst),
                        c.at(i),
                        fnum,
                        fden,
                        bnum,
                        bden,
                        key,
                    ).fore
                } else {
                    c.fore[i]
                },
        ),
        back: Seq::new(
            c.back.len(),
            |i: int|
                if blit_covers(src, dst, i, xsrc, ysrc, wsrc, hsrc, xdst, ydst) {
                    blit_cell(
                        blit_src_cell(src, dst, i, xsrc, ysrc, xdst, ydst),
                        c.at(i),
                        fnum,
                        fden,
                        bnum,
                        bden,
                        key,
                    ).back
                } else {
                    c.back[i]
                },
        ),
    }
}

/// Compositing a fully opaque source at alpha one on both channels equals
/// an unconditional field-by-field overwrite of the covered rectangle.
pub proof fn lemma_blit_opaque_overwrite(
    src: Console,
    dst: Console,
    xsrc: int,
    ysrc: int,
    wsrc: int,
    hsrc: int,
    xdst: int,
    ydst: int,
    fden: int,
    bden: int,
)
    requires
        src.wf(),
        dst.wf(),
        fden >= 1,
        bden >= 1,
        forall|j: int| 0 <= j < src.back@.len() ==> (#[trigger] src.back@[j]).3 == 255,
    ensures
        ({
            let r = blit_op(
                src,
                dst,
                dst.cells(),
                xsrc,
                ysrc,
                wsrc,
                hsrc,
                xdst,
                ydst,
                fden,
                fden,
                bden,
                bden,
                None,
            );
            forall|i: int|
                0 <= i < dst.cells().len() ==> #[trigger] r.at(i) == if blit_covers(
                    src,
                    dst,
                    i,
                    xsrc,
                    ysrc,
                    wsrc,
                    hsrc,
                    xdst,
                    ydst,
                ) {
                    blit_src_cell(src, dst, i, xsrc, ysrc, xdst, ydst)
                } else {
                    dst.cells().at(i)
                }
        }),
{
    let r = blit_op(src, dst, dst.cells(), xsrc, ysrc, wsrc, hsrc, xdst, ydst, fden, fden, bden,
        bden, None);
    assert forall|i: int| 0 <= i < dst.cells().len() implies #[trigger] r.at(i) == (if blit_covers(
        src,
        dst,
        i,
        xsrc,
        ysrc,
        wsrc,
        hsrc,
        xdst,
        ydst,
    ) {
        blit_src_cell(src, dst, i, xsrc, ysrc, xdst, ydst)
    } else {
        dst.cells().at(i)
    }) by {
        if blit_covers(src, dst, i, xsrc, ysrc, wsrc, hsrc, xdst, ydst) {
            let pw = dst.pot_width as int;
            let sx = i % pw - xdst + xsrc;
            let sy = i / pw - ydst + ysrc;
            src.lemma_idx(sx, sy);
            let s = blit_src_cell(src, dst, i, xsrc, ysrc, xdst, ydst);
            assert(s.back == src.back@[src.idx(sx, sy)]);
            lemma_blit_cell_opaque(s, dst.cells().at(i), fden, bden);
        }
    }
}

impl Console {
    /// Composite source cells of row `sy` onto destination row `dy`,
    /// destination columns `c0` (inclusive) to `c1` (exclusive).
    fn blit_row(
        &self,
        destination: &mut Console,
        sy: i64,
        dy: i64,
        xsrc: i64,
        xdst: i64,
        c0: i64,
        c1: i64,
        fnum: u32,
        fden: u32,
        bnum: u32,
        bden: u32,
        key: Option<Color>,
    )
        requires
            self.wf(),
            old(destination).wf(),
            1 <= fden <= 0x8000_0000,
            fnum <= fden,
            1 <= bden,
            bnum <= bden,
            0 <= sy < self.height,
            0 <= dy < old(destination).height,
            0 <= c0 <= c1 <= old(destination).width,
            -0x100_0000_0000 <= xsrc <= 0x100_0000_0000,
            -0x100_0000_0000 <= xdst <= 0x100_0000_0000,
            0 <= c0 - xdst + xsrc,
            c1 - xdst + xsrc <= self.width,
        ensures
            final(destination).wf(),
            old(destination).same_dims(*final(destination)),
            old(destination).same_palette(*final(destination)),
            forall|i: int|
                0 <= i < old(destination).cells().len()
                    ==> #[trigger] final(destination).cells().at(i) == (if i / (
                old(destination).pot_width as int) == dy && c0 <= i % (
                old(destination).pot_width as int) < c1 {
                    blit_cell(
                        blit_src_cell(*self, *old(destination), i, xsrc as int, sy - dy, xdst as int, 0),
                        old(destination).cells().at(i),
                        fnum as int,
                        fden as int,
                        bnum as int,
                        bden as int,
                        key,
                    )
                } else {
                    old(destination).cells().at(i)
                }),
    {
        proof {
            self.lemma_dims_bounds();
            old(destination).lemma_dims_bounds();
        }
        let mut cx: i64 = c0;
        while cx < c1
            invariant
                self.wf(),
                destination.wf(),
                old(destination).wf(),
                old(destination).same_dims(*destination),
                old(destination).same_palette(*destination),
                1 <= fden <= 0x8000_0000,
                fnum <= fden,
                1 <= bden,
                bnum <= bden,
                0 <= sy < self.height,
                0 <= dy < old(destination).height,
                0 <= c0 <= cx <= c1 <= old(destination).width,
                -0x100_0000_0000 <= xsrc <= 0x100_0000_0000,
                -0x100_0000_0000 <= xdst <= 0x100_0000_0000,
                0 <= c0 - xdst + xsrc,
                c1 - xdst + xsrc <= self.width,
                forall|i: int|
                    0 <= i < old(destination).cells().len()
                        ==> #[trigger] destination.cells().at(i) == (if i / (
                    old(destination).pot_width as int) == dy && c0 <= i % (
                    old(destination).pot_width as int) < cx {
                        blit_cell(
                            blit_src_cell(*self, *old(destination), i, xsrc as int, sy - dy, xdst as int, 0),
                            old(destination).cells().at(i),
                            fnum as int,
                            fden as int,
                            bnum as int,
                            bden as int,
                            key,
                        )
                    } else {
                        old(destination).cells().at(i)
                    }),
            decreases c1 - cx,
        {
            let ghost prev = *destination;
            proof {
                self.lemma_dims_bounds();
                destination.lemma_dims_bounds();
                destination.lemma_idx(cx as int, dy as int);
                self.lemma_idx(cx - xdst + xsrc, sy as int);
            }
            let sx: i64 = cx - xdst + xsrc;
            let sxi: i32 = sx as i32;
            let syi: i32 = sy as i32;
            let dxi: i32 = cx as i32;
            let dyi: i32 = dy as i32;
            let sg = self.glyph_word(sxi, syi);
            let sf = self.unsafe_get_fore(sxi, syi);
            let sb = self.unsafe_get_back(sxi, syi);
            let dg = destination.glyph_word(dxi, dyi);
            let df = destination.unsafe_get_fore(dxi, dyi);
            let db = destination.unsafe_get_back(dxi, dyi);
            let r = blit_cell_exec(sg, sf, sb, dg, df, db, fnum, fden, bnum, bden, key);
            destination.set_glyph_word(dxi, dyi, r.0);
            destination.unsafe_fore(dxi, dyi, r.1);
            destination.unsafe_back(dxi, dyi, r.2);
            proof {
                let pw = old(destination).pot_width as int;
                let target = prev.idx(cx as int, dy as int);
                assert(prev.cells().at(target) == old(destination).cells().at(target));
                assert(old(destination).cells().at(target) == CellContent {
                    glyph: dg,
                    fore: df,
                    back: db,
                });
                assert(blit_src_cell(*self, *old(destination), target, xsrc as int, sy - dy,
                    xdst as int, 0) == CellContent { glyph: sg, fore: sf, back: sb });
                assert forall|i: int| 0 <= i < old(destination).cells().len() implies
                    #[trigger] destination.cells().at(i) == (if i / pw == dy && c0 <= i % pw < cx
                        + 1 {
                        blit_cell(
                            blit_src_cell(*self, *old(destination), i, xsrc as int, sy - dy,
                            xdst as int, 0),
                            old(destination).cells().at(i),
                            fnum as int,
                            fden as int,
                            bnum as int,
                            bden as int,
                            key,
                        )
                    } else {
                        old(destination).cells().at(i)
                    }) by {
                    vstd::arithmetic::div_mod::lemma_fundamental_div_mod(i, pw);
                    vstd::arithmetic::mul::lemma_mul_is_commutative(pw, i / pw);
                    if i != target {
                        assert(prev.cells().at(i) == destination.cells().at(i));
                    }
                }
            }
            cx += 1;
        }
    }
}

impl Console {
    fn blit_at(
        &self,
        destination: &mut Console,
        xsrc: i64,
        ysrc: i64,
        wsrc: i64,
        hsrc: i64,
        xdst: i64,
        ydst: i64,
        fnum: u32,
        fden: u32,
        bnum: u32,
        bden: u32,
        key: Option<Color>,
    )
        requires
            self.wf(),
            old(destination).wf(),
            1 <= fden <= 0x8000_0000,
            fnum <= fden,
            1 <= bden,
            bnum <= bden,
            -0x1_0000_0000 <= xsrc <= 0x1_0000_0000,
            -0x1_0000_0000 <= ysrc <= 0x1_0000_0000,
            -0x1_0000_0000 <= wsrc <= 0x1_0000_0000,
            -0x1_0000_0000 <= hsrc <= 0x1_0000_0000,
            -0x1_0000_0000 <= xdst <= 0x1_0000_0000,
            -0x1_0000_0000 <= ydst <= 0x1_0000_0000,
        ensures
            final(destination).cells() == blit_op(
                *self,
                *old(destination),
                old(destination).cells(),
                xsrc as int,
                ysrc as int,
                wsrc as int,
                hsrc as int,
                xdst as int,
                ydst as int,
                fnum as int,
                fden as int,
                bnum as int,
                bden as int,
                key,
            ),
            old(destination).same_dims(*final(destination)),
            old(destination).same_palette(*final(destination)),
            final(destination).wf(),
    {
        proof {
            self.lemma_dims_bounds();
            old(destination).lemma_dims_bounds();
        }
        let sw: i64 = self.width as i64;
        let sh: i64 = self.height as i64;
        let dw: i64 = destination.width as i64;
        let dh: i64 = destination.height as i64;
        let mut c0: i64 = if xdst > 0 { xdst } else { 0 };
        if c0 < xdst - xsrc { c0 = xdst - xsrc; }
        let mut c1: i64 = dw;
        if c1 > xdst + (wsrc - xsrc) { c1 = xdst + (wsrc - xsrc); }
        if c1 > xdst - xsrc + sw { c1 = xdst - xsrc + sw; }
        let mut r0: i64 = if ydst > 0 { ydst } else { 0 };
        if r0 < ydst - ysrc { r0 = ydst - ysrc; }
        let mut r1: i64 = dh;
        if r1 > ydst + (hsrc - ysrc) { r1 = ydst + (hsrc - ysrc); }
        if r1 > ydst - ysrc + sh { r1 = ydst - ysrc + sh; }
        let ghost orig = *old(destination);
        if c0 < c1 && r0 < r1 {
            let mut dy: i64 = r0;
            while dy < r1
                invariant
                    self.wf(),
                    destination.wf(),
                    orig == *old(destination),
                    orig.wf(),
                    orig.same_dims(*destination),
                    orig.same_palette(*destination),
                    1 <= fden <= 0x8000_0000,
                    fnum <= fden,
                    1 <= bden,
                    bnum <= bden,
                    -0x1_0000_0000 <= xsrc <= 0x1_0000_0000,
                    -0x1_0000_0000 <= ysrc <= 0x1_0000_0000,
                    -0x1_0000_0000 <= xdst <= 0x1_0000_0000,
                    -0x1_0000_0000 <= ydst <= 0x1_0000_0000,
                    0 <= c0 < c1 <= orig.width,
                    0 <= c0 - xdst + xsrc,
                    c1 - xdst + xsrc <= self.width,
                    c0 >= xdst,
                    c1 <= xdst + (wsrc - xsrc),
                    0 <= r0 <= dy <= r1 <= orig.height,
                    0 <= r0 - ydst + ysrc,
                    r1 - ydst + ysrc <= self.height,
                    r0 >= ydst,
                    r1 <= ydst + (hsrc - ysrc),
                    c0 == vstd::math::max(vstd::math::max(xdst as int, 0), xdst - xsrc),
                    c1 == vstd::math::min(
                        vstd::math::min(orig.width as int, xdst + (wsrc - xsrc)),
                        xdst - xsrc + self.width,
                    ),
                    r0 == vstd::math::max(vstd::math::max(ydst as int, 0), ydst - ysrc),
                    r1 == vstd::math::min(
                        vstd::math::min(orig.height as int, ydst + (hsrc - ysrc)),
                        ydst - ysrc + self.height,
                    ),
                    forall|i: int|
                        0 <= i < orig.cells().len() ==> #[trigger] destination.cells().at(i) == (
                        if blit_covers(*self, orig, i, xsrc as int, ysrc as int, wsrc as int,
                            hsrc as int, xdst as int, ydst as int) && i / (orig.pot_width as int)
                            < dy {
                            blit_cell(
                                blit_src_cell(*self, orig, i, xsrc as int, ysrc as int,
                                xdst as int, ydst as int),
                                orig.cells().at(i),
                                fnum as int,
                                fden as int,
                                bnum as int,
                                bden as int,
                                key,
                            )
                        } else {
                            orig.cells().at(i)
                        }),
                decreases r1 - dy,
            {
                let ghost prev = *destination;
                let sy: i64 = dy - ydst + ysrc;
                self.blit_row(destination, sy, dy, xsrc, xdst, c0, c1, fnum, fden, bnum, bden,
                    key);
                proof {
                    orig.lemma_dims_bounds();
                    self.lemma_dims_bounds();
                    let pw = orig.pot_width as int;
                    assert forall|i: int| 0 <= i < orig.cells().len() implies
                        #[trigger] destination.cells().at(i) == (if blit_covers(*self, orig, i,
                            xsrc as int, ysrc as int, wsrc as int, hsrc as int, xdst as int,
                            ydst as int) && i / pw < dy + 1 {
                            blit_cell(
                                blit_src_cell(*self, orig, i, xsrc as int, ysrc as int,
                                xdst as int, ydst as int),
                                orig.cells().at(i),
                                fnum as int,
                                fden as int,
                                bnum as int,
                                bden as int,
                                key,
                            )
                        } else {
                            orig.cells().at(i)
                        }) by {
                        vstd::arithmetic::div_mod::lemma_mod_bound(i, pw);
                        vstd::arithmetic::div_mod::lemma_div_pos_is_pos(i, pw);
                        assert(blit_src_cell(*self, orig, i, xsrc as int, sy - dy, xdst as int, 0)
                            == blit_src_cell(*self, orig, i, xsrc as int, ysrc as int,
                            xdst as int, ydst as int));
                        if i / pw == dy {
                            assert(blit_covers(*self, orig, i, xsrc as int, ysrc as int,
                                wsrc as int, hsrc as int, xdst as int, ydst as int) == (c0 <= i
                                % pw < c1));
                        } else {
                            assert(prev.cells().at(i) == destination.cells().at(i));
                        }
                    }
                }
                dy += 1;
            }
            proof {
                orig.lemma_dims_bounds();
                let pw = orig.pot_width as int;
                let r = blit_op(*self, orig, orig.cells(), xsrc as int, ysrc as int, wsrc as int,
                    hsrc as int, xdst as int, ydst as int, fnum as int, fden as int, bnum as int,
                    bden as int, key);
                assert forall|i: int| 0 <= i < orig.cells().len() implies #[trigger] r.at(i)
                    == destination.cells().at(i) by {
                    vstd::arithmetic::div_mod::lemma_mod_bound(i, pw);
                    vstd::arithmetic::div_mod::lemma_div_pos_is_pos(i, pw);
                }
                assert forall|i: int| 0 <= i < orig.cells().len() implies r.ascii[i]
                    == destination.ascii@[i] && r.fore[i] == destination.fore@[i] && r.back[i]
                    == destination.back@[i] by {
                    assert(r.at(i) == destination.cells().at(i));
                }
                assert(r.ascii =~= destination.ascii@);
                assert(r.fore =~= destination.fore@);
                assert(r.back =~= destination.back@);
            }
        } else {
            proof {
                orig.lemma_dims_bounds();
                let pw = orig.pot_width as int;
                let r = blit_op(*self, orig, orig.cells(), xsrc as int, ysrc as int, wsrc as int,
                    hsrc as int, xdst as int, ydst as int, fnum as int, fden as int, bnum as int,
                    bden as int, key);
                assert forall|i: int| 0 <= i < orig.cells().len() implies !blit_covers(*self,
                    orig, i, xsrc as int, ysrc as int, wsrc as int, hsrc as int, xdst as int,
                    ydst as int) by {
                    vstd::arithmetic::div_mod::lemma_mod_bound(i, pw);
                    vstd::arithmetic::div_mod::lemma_div_pos_is_pos(i, pw);
                }
                assert(r.ascii =~= destination.ascii@);
                assert(r.fore =~= destination.fore@);
                assert(r.back =~= destination.back@);
            }
        }
    }

    /// blit a region of this console onto another one; see [`Console::blit`].
    /// `(xsrc, ysrc)` and `(wsrc, hsrc)` are the corners of the source
    /// region; the foreground and background alphas are the fractions
    /// `fore_num / fore_den` and `back_num / back_den`.
    pub fn blit_ex(
        &self,
        xsrc: i32,
        ysrc: i32,
        wsrc: i32,
        hsrc: i32,
        destination: &mut Console,
        xdst: i32,
        ydst: i32,
        fore_num: u32,
        fore_den: u32,
        back_num: u32,
        back_den: u32,
        key_color: Option<Color>,
    )
        requires
            self.wf(),
            old(destination).wf(),
            1 <= fore_den <= 0x8000_0000,
            fore_num <= fore_den,
            1 <= back_den,
            back_num <= back_den,
        ensures
            final(destination).cells() == blit_op(
                *self,
                *old(destination),
                old(destination).cells(),
                xsrc as int,
                ysrc as int,
                wsrc as int,
                hsrc as int,
                xdst as int,
                ydst as int,
                fore_num as int,
                fore_den as int,
                back_num as int,
                back_den as int,
                key_color,
            ),
            old(destination).same_dims(*final(destination)),
            old(destination).same_palette(*final(destination)),
            final(destination).wf(),
    {
        self.blit_at(destination, xsrc as i64, ysrc as i64, wsrc as i64, hsrc as i64, xdst as i64,
            ydst as i64, fore_num, fore_den, back_num, back_den, key_color);
    }

    /// blit (draw) this console onto another one. The alphas blend this
    /// console with the existing content of the destination; cells whose
    /// background equals `key_color` are skipped, which makes it possible
    /// to blit non-rectangular zones.
    pub fn blit(
        &self,
        x: i32,
        y: i32,
        destination: &mut Console,
        fore_num: u32,
        fore_den: u32,
        back_num: u32,
        back_den: u32,
        key_color: Option<Color>,
    )
        requires
            self.wf(),
            old(destination).wf(),
            1 <= fore_den <= 0x8000_0000,
            fore_num <= fore_den,
            1 <= back_den,
            back_num <= back_den,
        ensures
            final(destination).cells() == blit_op(
                *self,
                *old(destination),
                old(destination).cells(),
                0,
                0,
                self.width as int,
                self.height as int,
                x as int,
                y as int,
                fore_num as int,
                fore_den as int,
                back_num as int,
                back_den as int,
                key_color,
            ),
            old(destination).same_dims(*final(destination)),
            old(destination).same_palette(*final(destination)),
            final(destination).wf(),
    {
        proof {
            self.lemma_dims_bounds();
        }
        let w: i64 = self.width as i64;
        let h: i64 = self.height as i64;
        self.blit_at(destination, 0, 0, w, h, x as i64, y as i64, fore_num, fore_den, back_num,
            back_den, key_color);
    }
}

} // verus!
