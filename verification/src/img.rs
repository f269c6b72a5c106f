//! Images on the console: a decoded RGBA pixel buffer, a background-only
//! 1:1 blit, and the sub-cell rasterizer that quantizes 2x2 pixel blocks
//! into one glyph plus two colors.

use vstd::prelude::*;
use vstd::arithmetic::mul::{lemma_mul_inequality, lemma_mul_nonnegative};
use crate::color::{spec_color_blend, spec_color_dist, color_blend, color_dist, Color};
use crate::console::{
    CellContent, Cells, Console, CHAR_SUBP_DIAG, CHAR_SUBP_E, CHAR_SUBP_N, CHAR_SUBP_NE,
    CHAR_SUBP_NW, CHAR_SUBP_SE, CHAR_SUBP_SW,
};

verus! {

/// What `image::load_from_memory` decodes a byte payload to, as RGBA:
/// width, height and the raw byte buffer, or nothing when the payload is
/// not a decodable image. Decoding depends on the bytes alone.
pub uninterp spec fn image_decode(bytes: Seq<u8>) -> Option<(nat, nat, Seq<u8>)>;

/// Relies on `image::load_from_memory` (the format is guessed from the
/// bytes themselves), `DynamicImage::to_rgba8` and `ImageBuffer`'s
/// `width`, `height` and `into_raw`: the raw RGBA buffer is row-major with
/// four bytes per pixel and holds at least `width * height * 4` bytes.
#[verifier::external_body]
fn decode_image_bytes(buf: &[u8]) -> (r: Result<(u32, u32, Vec<u8>), String>)
    ensures
        match r {
            Ok(d) => image_decode(buf@) == Some((d.0 as nat, d.1 as nat, d.2@)) && d.2@.len() >= 4
                * d.0 * d.1,
            Err(_) => image_decode(buf@) is None,
        },
{
    match image::load_from_memory(buf) {
        Ok(img) => {
            let rgba = img.to_rgba8();
            Ok((rgba.width(), rgba.height(), rgba.into_raw()))
        },
        Err(e) => Err(format!("{}", e)),
    }
}

/// A decoded RGBA pixel buffer, row-major.
pub struct ImageData {
    /// width in pixels
    pub width: u32,
    /// height in pixels
    pub height: u32,
    /// pixel colors, row-major with stride `width`
    pub pixels: Vec<Color>,
}

impl ImageData {
    pub open spec fn wf(self) -> bool {
        self.pixels.len() == self.width * self.height
    }

    /// Pixel at `(x, y)`.
    pub open spec fn at(self, x: int, y: int) -> Color {
        self.pixels@[y * self.width + x]
    }

    pub proof fn lemma_at(self, x: int, y: int)
        requires
            self.wf(),
            0 <= x < self.width,
            0 <= y < self.height,
        ensures
            0 <= y * self.width + x < self.pixels.len(),
    {
        lemma_mul_nonnegative(y, self.width as int);
        lemma_mul_inequality(y, self.height - 1, self.width as int);
        assert((self.height - 1) * self.width == self.height * self.width - self.width)
            by (nonlinear_arith);
        assert(self.height * self.width == self.width * self.height) by (nonlinear_arith);
    }
}

/// An optional decoded image: the pixel buffer is present once a payload
/// has been decoded. The loading of the payload bytes themselves is the
/// caller's business; the core only decodes and draws.
pub struct Image {
    /// the decoded pixels, present once loaded
    pub data: Option<ImageData>,
}

impl Image {
    pub open spec fn wf(self) -> bool {
        match self.data {
            Some(d) => d.wf(),
            None => true,
        }
    }

    /// An image whose pixel buffer has not been decoded yet.
    pub fn new() -> (r: Image)
        ensures
            r.data is None,
            r.wf(),
    {
        Image { data: None }
    }

    /// Create an empty image: every pixel fully transparent black.
    pub fn new_empty(width: u32, height: u32) -> (r: Image)
        requires
            width * height <= usize::MAX,
        ensures
            r.wf(),
            r.data is Some,
            r.data->Some_0.width == width,
            r.data->Some_0.height == height,
            forall|i: int|
                0 <= i < width * height ==> r.data->Some_0.pixels@[i] == (0u8, 0u8, 0u8, 0u8),
    {
        proof {
            lemma_mul_nonnegative(width as int, height as int);
        }
        let n: usize = width as usize * height as usize;
        let mut pixels: Vec<Color> = Vec::new();
        let mut i: usize = 0;
        while i < n
            invariant
                i <= n,
                pixels.len() == i,
                forall|j: int| 0 <= j < i ==> pixels@[j] == (0u8, 0u8, 0u8, 0u8),
            decreases n - i,
        {
            pixels.push((0, 0, 0, 0));
            i += 1;
        }
        Image { data: Some(ImageData { width, height, pixels }) }
    }

    /// Returns the image's width in pixels, or 0 if no payload has been
    /// decoded yet.
    pub fn width(&self) -> (r: u32)
        ensures
            r == match self.data {
                Some(d) => d.width,
                None => 0u32,
            },
    {
        match &self.data {
            Some(d) => d.width,
            None => 0,
        }
    }

    /// Returns the image's height in pixels, or 0 if no payload has been
    /// decoded yet.
    pub fn height(&self) -> (r: u32)
        ensures
            r == match self.data {
                Some(d) => d.height,
                None => 0u32,
            },
    {
        match &self.data {
            Some(d) => d.height,
            None => 0,
        }
    }

    /// If the image has been decoded, return its size.
    pub fn try_get_size(&self) -> (r: Option<(u32, u32)>)
        ensures
            r == match self.data {
                Some(d) => Some((d.width, d.height)),
                None => None::<(u32, u32)>,
            },
    {
        match &self.data {
            Some(d) => Some((d.width, d.height)),
            None => None,
        }
    }

    /// get the color of a specific pixel inside the image
    pub fn pixel(&self, x: u32, y: u32) -> (r: Option<Color>)
        requires
            self.wf(),
            self.data is Some ==> x < self.data->Some_0.width && y < self.data->Some_0.height,
        ensures
            r == match self.data {
                Some(d) => Some(d.at(x as int, y as int)),
                None => None::<Color>,
            },
    {
        match &self.data {
            Some(d) => {
                proof {
                    d.lemma_at(x as int, y as int);
                }
                let off: usize = y as usize * d.width as usize + x as usize;
                Some(d.pixels[off])
            },
            None => None,
        }
    }

    /// sets the color of a specific pixel inside the image
    pub fn put_pixel(&mut self, x: u32, y: u32, color: Color)
        requires
            old(self).wf(),
            old(self).data is Some ==> x < old(self).data->Some_0.width && y < old(
                self,
            ).data->Some_0.height,
        ensures
            final(self).wf(),
            match old(self).data {
                Some(d) => (final(self).data matches Some(d2) && d2.width == d.width && d2.height
                    == d.height && d2.pixels@ == d.pixels@.update(y * d.width + x, color)),
                None => final(self).data is None,
            },
    {
        match &mut self.data {
            Some(d) => {
                proof {
                    d.lemma_at(x as int, y as int);
                }
                let off: usize = y as usize * d.width as usize + x as usize;
                d.pixels.set(off, color);
            },
            None => {},
        }
    }

    /// Decode an image payload and keep its pixels. A payload that is not
    /// a decodable image is a fatal error, surfaced to the caller; the
    /// image then stays as it was.
    pub fn load_bytes(&mut self, buf: &[u8]) -> (r: Result<(), String>)
        ensures
            match image_decode(buf@) {
                Some(d) => r is Ok && final(self).wf() && (final(self).data matches Some(img)
                    && img.width == d.0 && img.height == d.1 && img.pixels@.len() == d.0 * d.1
                    && (forall|j: int|
                    0 <= j < d.0 * d.1 ==> #[trigger] img.pixels@[j] == (
                        d.2[4 * j],
                        d.2[4 * j + 1],
                        d.2[4 * j + 2],
                        d.2[4 * j + 3],
                    ))),
                None => r is Err && *final(self) == *old(self),
            },
    {
        match decode_image_bytes(buf) {
            Ok((w, h, bytes)) => {
                proof {
                    lemma_mul_nonnegative(w as int, h as int);
                    assert(4 * (w as int) * (h as int) == 4 * ((w as int) * (h as int)))
                        by (nonlinear_arith);
                }
                let blen: usize = bytes.len();
                proof {
                    assert(4 * ((w as int) * (h as int)) <= blen);
                }
                let count: usize = w as usize * h as usize;
                let mut pixels: Vec<Color> = Vec::new();
                let mut i: usize = 0;
                while i < count
                    invariant
                        i <= count,
                        4 * count <= bytes.len(),
                        pixels.len() == i,
                        forall|j: int|
                            0 <= j < i ==> #[trigger] pixels@[j] == (
                                bytes@[4 * j],
                                bytes@[4 * j + 1],
                                bytes@[4 * j + 2],
                                bytes@[4 * j + 3],
                            ),
                    decreases count - i,
                {
                    let p: Color = (
                        bytes[4 * i],
                        bytes[4 * i + 1],
                        bytes[4 * i + 2],
                        bytes[4 * i + 3],
                    );
                    pixels.push(p);
                    i += 1;
                }
                self.data = Some(ImageData { width: w, height: h, pixels });
                Ok(())
            },
            Err(e) => Err(e),
        }
    }
}

/// Console cell `i` is covered by an image of `img`'s size whose top-left
/// pixel sits at console coordinate `(x, y)`.
pub open spec fn img_covers(con: Console, img: ImageData, i: int, x: int, y: int) -> bool {
    let pw = con.pot_width as int;
    let cx = i % pw;
    let cy = i / pw;
    &&& x <= cx < x + img.width
    &&& 0 <= cx < con.width
    &&& y <= cy < y + img.height
    &&& 0 <= cy < con.height
}

/// The grid `c` after a 1:1 image blit at `(x, y)`: only the background
/// channel of covered cells changes, and pixels equal to the transparent
/// key are skipped, so images always sit visually under text.
pub open spec fn img_blit_op(
    img: ImageData,
    con: Console,
    c: Cells,
    x: int,
    y: int,
    transparent: Option<Color>,
) -> Cells {
    let pw = con.pot_width as int;
    Cells {
        ascii: c.ascii,
        fore: c.fore,
        back: Seq::new(
            c.back.len(),
            |i: int|
                if img_covers(con, img, i, x, y) && transparent != Some(
                    img.at(i % pw - x, i / pw - y),
                ) {
                    img.at(i % pw - x, i / pw - y)
                } else {
                    c.back[i]
                },
        ),
    }
}

fn img_blit_row(
    con: &mut Console,
    img: &ImageData,
    cy: i64,
    x: i64,
    y: i64,
    c0: i64,
    c1: i64,
    transparent: Option<Color>,
)
    requires
        old(con).wf(),
        img.wf(),
        0 <= cy < old(con).height,
        0 <= c0 <= c1 <= old(con).width,
        -0x100_0000_0000 <= x <= 0x100_0000_0000,
        -0x100_0000_0000 <= y <= 0x100_0000_0000,
        0 <= c0 - x,
        c1 - x <= img.width,
        0 <= cy - y < img.height,
    ensures
        final(con).wf(),
        old(con).same_dims(*final(con)),
        old(con).same_palette(*final(con)),
        final(con).ascii == old(con).ascii,
        final(con).fore == old(con).fore,
        forall|i: int|
            0 <= i < old(con).back@.len() ==> final(con).back@[i] == (if i / (
            old(con).pot_width as int) == cy && c0 <= i % (old(con).pot_width as int) < c1
                && transparent != Some(
                img.at(i % (old(con).pot_width as int) - x, cy - y),
            ) {
                img.at(i % (old(con).pot_width as int) - x, cy - y)
            } else {
                old(con).back@[i]
            }),
{
    proof {
        old(con).lemma_dims_bounds();
    }
    let mut cx: i64 = c0;
    while cx < c1
        invariant
            con.wf(),
            old(con).wf(),
            img.wf(),
            old(con).same_dims(*con),
            old(con).same_palette(*con),
            con.ascii == old(con).ascii,
            con.fore == old(con).fore,
            0 <= cy < old(con).height,
            0 <= c0 <= cx <= c1 <= old(con).width,
            -0x100_0000_0000 <= x <= 0x100_0000_0000,
            -0x100_0000_0000 <= y <= 0x100_0000_0000,
            0 <= c0 - x,
            c1 - x <= img.width,
            0 <= cy - y < img.height,
            forall|i: int|
                0 <= i < old(con).back@.len() ==> con.back@[i] == (if i / (
                old(con).pot_width as int) == cy && c0 <= i % (old(con).pot_width as int) < cx
                    && transparent != Some(
                    img.at(i % (old(con).pot_width as int) - x, cy - y),
                ) {
                    img.at(i % (old(con).pot_width as int) - x, cy - y)
                } else {
                    old(con).back@[i]
                }),
        decreases c1 - cx,
    {
        let ghost prev = *con;
        proof {
            con.lemma_dims_bounds();
            con.lemma_idx(cx as int, cy as int);
            img.lemma_at(cx - x, cy - y);
        }
        let px: usize = (cx - x) as usize;
        let py: usize = (cy - y) as usize;
        let off: usize = py * img.width as usize + px;
        let color = img.pixels[off];
        let skip: bool = match transparent {
            Some(t) => t.0 == color.0 && t.1 == color.1 && t.2 == color.2 && t.3 == color.3,
            None => false,
        };
        if !skip {
            con.unsafe_back(cx as i32, cy as i32, color);
        }
        proof {
            let pw = old(con).pot_width as int;
            let target = prev.idx(cx as int, cy as int);
            assert(img.at(cx - x, cy - y) == color);
            assert forall|i: int| 0 <= i < old(con).back@.len() implies con.back@[i] == (if i / pw
                == cy && c0 <= i % pw < cx + 1 && transparent != Some(img.at(i % pw - x, cy - y)) {
                img.at(i % pw - x, cy - y)
            } else {
                old(con).back@[i]
            }) by {
                vstd::arithmetic::div_mod::lemma_fundamental_div_mod(i, pw);
                vstd::arithmetic::mul::lemma_mul_is_commutative(pw, i / pw);
            }
        }
        cx += 1;
    }
}

impl Image {
    /// blit the image on a console: `(x, y)` is the console coordinate of
    /// the top-left image pixel, and pixels equal to the transparent color
    /// are skipped. Only cell backgrounds change; before a payload has
    /// been decoded this draws nothing.
    pub fn blit(&self, con: &mut Console, x: i32, y: i32, transparent: Option<Color>)
        requires
            self.wf(),
            old(con).wf(),
        ensures
            final(con).cells() == match self.data {
                Some(d) => img_blit_op(d, *old(con), old(con).cells(), x as int, y as int,
                transparent),
                None => old(con).cells(),
            },
            old(con).same_dims(*final(con)),
            old(con).same_palette(*final(con)),
            final(con).wf(),
    {
        proof {
            old(con).lemma_dims_bounds();
        }
        let d = match &self.data {
            Some(d) => d,
            None => {
                return ;
            },
        };
        let ghost orig = *old(con);
        let xl: i64 = x as i64;
        let yl: i64 = y as i64;
        let c0: i64 = if xl > 0 { xl } else { 0 };
        let mut c1: i64 = con.get_width() as i64;
        if c1 > xl + d.width as i64 {
            c1 = xl + d.width as i64;
        }
        let r0: i64 = if yl > 0 { yl } else { 0 };
        let mut r1: i64 = con.get_height() as i64;
        if r1 > yl + d.height as i64 {
            r1 = yl + d.height as i64;
        }
        if c0 < c1 && r0 < r1 {
            let mut cy: i64 = r0;
            while cy < r1
                invariant
                    con.wf(),
                    orig.wf(),
                    orig == *old(con),
                    d.wf(),
                    d == self.data->Some_0,
                    orig.same_dims(*con),
                    orig.same_palette(*con),
                    con.ascii == orig.ascii,
                    con.fore == orig.fore,
                    0 <= c0 < c1 <= orig.width,
                    0 <= r0 <= cy <= r1 <= orig.height,
                    c0 == vstd::math::max(xl as int, 0),
                    c1 == vstd::math::min(xl + d.width, orig.width as int),
                    r0 == vstd::math::max(yl as int, 0),
                    r1 == vstd::math::min(yl + d.height, orig.height as int),
                    xl == x as int,
                    yl == y as int,
                    forall|i: int|
                        0 <= i < orig.back@.len() ==> con.back@[i] == (if img_covers(orig, *d, i,
                            xl as int, yl as int) && i / (orig.pot_width as int) < cy
                            && transparent != Some(
                            d.at(i % (orig.pot_width as int) - xl, i / (orig.pot_width as int)
                                - yl),
                        ) {
                            d.at(i % (orig.pot_width as int) - xl, i / (orig.pot_width as int)
                                - yl)
                        } else {
                            orig.back@[i]
                        }),
                decreases r1 - cy,
            {
                let ghost prev = *con;
                img_blit_row(con, d, cy, xl, yl, c0, c1, transparent);
                proof {
                    orig.lemma_dims_bounds();
                    let pw = orig.pot_width as int;
                    assert forall|i: int| 0 <= i < orig.back@.len() implies con.back@[i] == (if
                        img_covers(orig, *d, i, xl as int, yl as int) && i / pw < cy + 1
                        && transparent != Some(d.at(i % pw - xl, i / pw - yl)) {
                        d.at(i % pw - xl, i / pw - yl)
                    } else {
                        orig.back@[i]
                    }) by {
                        vstd::arithmetic::div_mod::lemma_mod_bound(i, pw);
                        vstd::arithmetic::div_mod::lemma_div_pos_is_pos(i, pw);
                        if i / pw == cy {
                            assert(img_covers(orig, *d, i, xl as int, yl as int) == (c0 <= i % pw
                                < c1));
                        } else {
                            assert(prev.back@[i] == con.back@[i]);
                        }
                    }
                }
                cy += 1;
            }
            proof {
                orig.lemma_dims_bounds();
                let pw = orig.pot_width as int;
                let r = img_blit_op(*d, orig, orig.cells(), xl as int, yl as int, transparent);
                assert forall|i: int| 0 <= i < orig.back@.len() implies r.back[i] == con.back@[i]
                    by {
                    vstd::arithmetic::div_mod::lemma_mod_bound(i, pw);
                    vstd::arithmetic::div_mod::lemma_div_pos_is_pos(i, pw);
                }
                assert(r.back =~= con.back@);
                assert(r.ascii =~= con.ascii@);
                assert(r.fore =~= con.fore@);
            }
        } else {
            proof {
                orig.lemma_dims_bounds();
                let pw = orig.pot_width as int;
                let r = img_blit_op(*d, orig, orig.cells(), xl as int, yl as int, transparent);
                assert forall|i: int| 0 <= i < orig.back@.len() implies !img_covers(orig, *d, i,
                    xl as int, yl as int) by {
                    vstd::arithmetic::div_mod::lemma_mod_bound(i, pw);
                    vstd::arithmetic::div_mod::lemma_div_pos_is_pos(i, pw);
                }
                assert(r.back =~= con.back@);
                assert(r.ascii =~= con.ascii@);
                assert(r.fore =~= con.fore@);
            }
        }
    }
}

/// Two colors agree on their red, green and blue channels; the quantizer
/// compares colors this way, ignoring alpha.
pub open spec fn rgb_eq(a: Color, b: Color) -> bool {
    a.0 == b.0 && a.1 == b.1 && a.2 == b.2
}

/// Running state of the quantizer's scan: the two candidate colors, their
/// tallies, and the bit pattern of pixels assigned to `front`.
pub ghost struct QState {
    pub back: Color,
    pub front: Color,
    pub w0: int,
    pub w1: int,
    pub flag: int,
}

/// Fold one more pixel into the quantizer state. `bit` is the flag bit of
/// this pixel. An exact red-green-blue match tallies toward `back` or
/// `front`; a third distinct color is merged greedily by nearest squared
/// distance: into `back`, into `front`, or `back` and `front` fold
/// together and the new color restarts `front`.
pub open spec fn q_merge(st: QState, c: Color, bit: int) -> QState {
    if rgb_eq(c, st.back) {
        QState { w0: st.w0 + 1, ..st }
    } else if rgb_eq(c, st.front) {
        QState { w1: st.w1 + 1, flag: st.flag + bit, ..st }
    } else {
        let d0i = spec_color_dist(c, st.back);
        let d1i = spec_color_dist(c, st.front);
        let d01 = spec_color_dist(st.back, st.front);
        if d0i < d1i {
            if d0i <= d01 {
                QState {
                    back: spec_color_blend(c, st.back, st.w0, st.w0 + 1),
                    w0: st.w0 + 1,
                    ..st
                }
            } else {
                QState {
                    back: spec_color_blend(st.back, st.front, st.w1, st.w0 + st.w1),
                    w0: st.w0 + 1,
                    front: c,
                    flag: bit,
                    ..st
                }
            }
        } else if d1i <= d01 {
            QState {
                front: spec_color_blend(c, st.front, st.w1, st.w1 + 1),
                w1: st.w1 + 1,
                flag: st.flag + bit,
                ..st
            }
        } else {
            QState {
                back: spec_color_blend(st.back, st.front, st.w1, st.w0 + st.w1),
                w0: st.w0 + 1,
                front: c,
                flag: bit,
                ..st
            }
        }
    }
}

/// The fixed 8-entry table from the 3-bit "which pixels use `front`"
/// pattern to a sub-cell glyph index; a negative index means the cell must
/// store the two colors swapped and use the absolute value as glyph.
pub open spec fn flag_to_ascii(flag: int) -> int {
    if flag == 1 {
        CHAR_SUBP_NE as int
    } else if flag == 2 {
        CHAR_SUBP_SW as int
    } else if flag == 3 {
        -(CHAR_SUBP_DIAG as int)
    } else if flag == 4 {
        CHAR_SUBP_SE as int
    } else if flag == 5 {
        CHAR_SUBP_E as int
    } else if flag == 6 {
        -(CHAR_SUBP_N as int)
    } else {
        -(CHAR_SUBP_NW as int)
    }
}

/// Quantize one 2x2 pixel block (north-west, north-east, south-west,
/// south-east) to a background color, an optional foreground color, and a
/// signed glyph index. A block of one red-green-blue color is background
/// only, with a space glyph.
pub open spec fn quantize(desired: Seq<Color>) -> (Color, Option<Color>, int) {
    let b0 = desired[0];
    if rgb_eq(desired[1], b0) && rgb_eq(desired[2], b0) && rgb_eq(desired[3], b0) {
        (b0, None, 32)
    } else {
        let st = if !rgb_eq(desired[1], b0) {
            let st1 = QState { back: b0, front: desired[1], w0: 1, w1: 1, flag: 1 };
            q_merge(q_merge(st1, desired[2], 2), desired[3], 4)
        } else if !rgb_eq(desired[2], b0) {
            let st1 = QState { back: b0, front: desired[2], w0: 2, w1: 1, flag: 2 };
            q_merge(st1, desired[3], 4)
        } else {
            QState { back: b0, front: desired[3], w0: 3, w1: 1, flag: 4 }
        };
        (st.back, Some(st.front), flag_to_ascii(st.flag))
    }
}

fn q_merge_exec(
    back: &mut Color,
    front: &mut Color,
    w0: &mut u32,
    w1: &mut u32,
    flag: &mut u32,
    c: Color,
    bit: u32,
) -> (r: ())
    requires
        1 <= *old(w0) <= 3,
        1 <= *old(w1) <= 3,
        *old(flag) + bit <= 7,
        bit == 2 || bit == 4,
    ensures
        ({
            let st = q_merge(
                QState {
                    back: *old(back),
                    front: *old(front),
                    w0: *old(w0) as int,
                    w1: *old(w1) as int,
                    flag: *old(flag) as int,
                },
                c,
                bit as int,
            );
            *final(back) == st.back && *final(front) == st.front && *final(w0) == st.w0
                && *final(w1) == st.w1 && *final(flag) == st.flag
        }),
        *final(w0) <= *old(w0) + 1,
        *final(w1) <= *old(w1) + 1,
        *final(flag) <= *old(flag) + bit,
{
    if c.0 == back.0 && c.1 == back.1 && c.2 == back.2 {
        *w0 = *w0 + 1;
    } else if c.0 == front.0 && c.1 == front.1 && c.2 == front.2 {
        *w1 = *w1 + 1;
        *flag = *flag + bit;
    } else {
        let d0i = color_dist(c, *back);
        let d1i = color_dist(c, *front);
        let d01 = color_dist(*back, *front);
        if d0i < d1i {
            if d0i <= d01 {
                *back = color_blend(c, *back, *w0, *w0 + 1);
                *w0 = *w0 + 1;
            } else {
                *back = color_blend(*back, *front, *w1, *w0 + *w1);
                *w0 = *w0 + 1;
                *front = c;
                *flag = bit;
            }
        } else if d1i <= d01 {
            *front = color_blend(c, *front, *w1, *w1 + 1);
            *w1 = *w1 + 1;
            *flag = *flag + bit;
        } else {
            *back = color_blend(*back, *front, *w1, *w0 + *w1);
            *w0 = *w0 + 1;
            *front = c;
            *flag = bit;
        }
    }
}

/// analyse a 2x2 pixel block: pick a background color, possibly a
/// foreground color, and the sub-cell glyph that renders the block, as
/// [`quantize`] describes.
pub fn compute_pattern(
    desired: &[Color; 4],
    back: &mut Color,
    front: &mut Option<Color>,
    ascii: &mut i32,
)
    ensures
        ({
            let q = quantize(desired@);
            *final(back) == q.0 && *final(front) == q.1 && *final(ascii) == q.2
        }),
{
    let d0 = desired[0];
    let d1 = desired[1];
    let d2 = desired[2];
    let d3 = desired[3];
    let e1 = d1.0 == d0.0 && d1.1 == d0.1 && d1.2 == d0.2;
    let e2 = d2.0 == d0.0 && d2.1 == d0.1 && d2.2 == d0.2;
    let e3 = d3.0 == d0.0 && d3.1 == d0.1 && d3.2 == d0.2;
    if e1 && e2 && e3 {
        *back = d0;
        *front = None;
        *ascii = 32;
        return ;
    }
    let mut b: Color = d0;
    let mut f: Color;
    let mut w0: u32;
    let mut w1: u32 = 1;
    let mut flag: u32;
    if !e1 {
        f = d1;
        w0 = 1;
        flag = 1;
        q_merge_exec(&mut b, &mut f, &mut w0, &mut w1, &mut flag, d2, 2);
        q_merge_exec(&mut b, &mut f, &mut w0, &mut w1, &mut flag, d3, 4);
    } else if !e2 {
        f = d2;
        w0 = 2;
        flag = 2;
        q_merge_exec(&mut b, &mut f, &mut w0, &mut w1, &mut flag, d3, 4);
    } else {
        f = d3;
        w0 = 3;
        flag = 4;
    }
    *back = b;
    *front = Some(f);
    *ascii = if flag == 1 {
        CHAR_SUBP_NE as i32
    } else if flag == 2 {
        CHAR_SUBP_SW as i32
    } else if flag == 3 {
        -(CHAR_SUBP_DIAG as i32)
    } else if flag == 4 {
        CHAR_SUBP_SE as i32
    } else if flag == 5 {
        CHAR_SUBP_E as i32
    } else if flag == 6 {
        -(CHAR_SUBP_N as i32)
    } else {
        -(CHAR_SUBP_NW as i32)
    };
}

/// The flag pattern a sub-cell glyph index stands for: the inverse of the
/// fixed glyph table.
pub open spec fn ascii_to_flag(a: int) -> int {
    if a == CHAR_SUBP_NE as int {
        1
    } else if a == CHAR_SUBP_SW as int {
        2
    } else if a == -(CHAR_SUBP_DIAG as int) {
        3
    } else if a == CHAR_SUBP_SE as int {
        4
    } else if a == CHAR_SUBP_E as int {
        5
    } else if a == -(CHAR_SUBP_N as int) {
        6
    } else if a == -(CHAR_SUBP_NW as int) {
        7
    } else {
        0
    }
}

/// The 2x2 block a quantizer result renders as, via the fixed pattern
/// table: the north-west pixel shows `back`, and each other pixel shows
/// `front` or `back` as its flag bit says.
pub open spec fn expand_pattern(back: Color, front: Color, ascii: int) -> Seq<Color> {
    let flag = ascii_to_flag(ascii);
    seq![
        back,
        if flag % 2 == 1 {
            front
        } else {
            back
        },
        if (flag / 2) % 2 == 1 {
            front
        } else {
            back
        },
        if (flag / 4) % 2 == 1 {
            front
        } else {
            back
        },
    ]
}

/// A block of four equal colors quantizes to that color as background
/// alone, with a space glyph and no foreground.
pub proof fn lemma_quantize_uniform(c: Color)
    ensures
        quantize(seq![c, c, c, c]) == (c, None::<Color>, 32int),
{
    let s = seq![c, c, c, c];
    assert(s[0] == c && s[1] == c && s[2] == c && s[3] == c);
}

/// A block with exactly two distinct red-green-blue values re-expands,
/// through the fixed pattern table, to the original 2x2 arrangement
/// (color equality up to the alpha channel, which the quantizer ignores).
pub proof fn lemma_quantize_two_colors(desired: Seq<Color>)
    requires
        desired.len() == 4,
        exists|j: int| 1 <= j < 4 && !rgb_eq(desired[j], desired[0]),
        forall|j: int, k: int|
            1 <= j < 4 && 1 <= k < 4 && !rgb_eq(desired[j], desired[0]) && !rgb_eq(
                desired[k],
                desired[0],
            ) ==> rgb_eq(desired[j], desired[k]),
    ensures
        ({
            let q = quantize(desired);
            &&& q.1 is Some
            &&& q.0 == desired[0]
            &&& forall|k: int|
                0 <= k < 4 ==> rgb_eq(#[trigger] expand_pattern(q.0, q.1->Some_0, q.2)[k], desired[k])
        }),
{
    let b0 = desired[0];
    let q = quantize(desired);
    let j0 = choose|j: int| 1 <= j < 4 && !rgb_eq(desired[j], b0);
    if !rgb_eq(desired[1], b0) {
        assert(rgb_eq(desired[2], b0) || rgb_eq(desired[2], desired[1]));
        assert(rgb_eq(desired[3], b0) || rgb_eq(desired[3], desired[1]));
    } else if !rgb_eq(desired[2], b0) {
        assert(rgb_eq(desired[3], b0) || rgb_eq(desired[3], desired[2]));
    } else {
        assert(!rgb_eq(desired[3], b0));
    }
}

/// The clipped source-pixel region of a sub-cell blit:
/// `(minx, miny, maxx, maxy)` in image pixels.
pub open spec fn blit2x_region(
    img: ImageData,
    con: Console,
    dx: int,
    dy: int,
    sx: int,
    sy: int,
    w: Option<i32>,
    h: Option<i32>,
) -> (int, int, int, int) {
    let width = img.width as int;
    let height = img.height as int;
    let bw0 = match w {
        Some(v) => v as int,
        None => width,
    };
    let bh0 = match h {
        Some(v) => v as int,
        None => height,
    };
    let minx = vstd::math::max(sx, 0);
    let miny = vstd::math::max(sy, 0);
    let bw = vstd::math::min(bw0, width - minx);
    let bh = vstd::math::min(bh0, height - miny);
    let mx = if bw < 0 {
        bw
    } else if dx + bw / 2 <= con.width {
        bw
    } else {
        (con.width - dx) * 2
    };
    let my = if bh < 0 {
        bh
    } else if dy + bh / 2 <= con.height {
        bh
    } else {
        (con.height - dy) * 2
    };
    (minx, miny, minx + mx, miny + my)
}

/// Every cell the sub-cell blit would write lies on the destination grid.
pub open spec fn blit2x_writes_ok(
    con: Console,
    dx: int,
    dy: int,
    minx: int,
    miny: int,
    maxx: int,
    maxy: int,
) -> bool {
    (minx < maxx && miny < maxy) ==> (0 <= dx && 0 <= dy && dx + (maxx - minx - 1) / 2 < con.width
        && dy + (maxy - miny - 1) / 2 < con.height)
}

/// Console cell `i` is written by the sub-cell blit.
pub open spec fn blit2x_covers(
    con: Console,
    i: int,
    dx: int,
    dy: int,
    minx: int,
    miny: int,
    maxx: int,
    maxy: int,
) -> bool {
    let pw = con.pot_width as int;
    let k = i % pw - dx;
    let l = i / pw - dy;
    &&& 0 <= k && minx + 2 * k < maxx
    &&& 0 <= l && miny + 2 * l < maxy
    &&& 0 <= i % pw < con.width
    &&& 0 <= i / pw < con.height
}

/// A source pixel, with any pixel matching the transparency key replaced
/// by the destination cell's current background.
pub open spec fn sub_key(p: Color, t: Option<Color>, back: Color) -> Color {
    if t == Some(p) {
        back
    } else {
        p
    }
}

/// The 2x2 pixel block quantized for the cell whose top-left source pixel
/// is `(cx, cy)`: image edges and indices past the clipped region use the
/// destination cell's current background as a stand-in pixel.
pub open spec fn block_of(
    img: ImageData,
    conback: Color,
    cx: int,
    cy: int,
    maxx: int,
    maxy: int,
    t: Option<Color>,
) -> Seq<Color> {
    seq![
        sub_key(img.at(cx, cy), t, conback),
        if cx < maxx - 1 {
            sub_key(img.at(cx + 1, cy), t, conback)
        } else {
            conback
        },
        if cy < maxy - 1 {
            sub_key(img.at(cx, cy + 1), t, conback)
        } else {
            conback
        },
        if cx < maxx - 1 && cy < maxy - 1 {
            sub_key(img.at(cx + 1, cy + 1), t, conback)
        } else {
            conback
        },
    ]
}

/// What the quantizer result stores in a cell: a negative glyph index
/// swaps the stored foreground and background; a block of one color keeps
/// the cell's foreground.
pub open spec fn quant_glyph(q: (Color, Option<Color>, int)) -> u32 {
    (if q.2 >= 0 {
        q.2
    } else {
        -q.2
    }) as u32
}

pub open spec fn quant_fore(q: (Color, Option<Color>, int), old_fore: Color) -> Color {
    match q.1 {
        Some(f) => if q.2 >= 0 {
            f
        } else {
            q.0
        },
        None => old_fore,
    }
}

pub open spec fn quant_back(q: (Color, Option<Color>, int)) -> Color {
    match q.1 {
        Some(f) => if q.2 >= 0 {
            q.0
        } else {
            f
        },
        None => q.0,
    }
}

/// The quantizer result for console cell `i`.
pub open spec fn blit2x_quant(
    img: ImageData,
    con: Console,
    c: Cells,
    i: int,
    dx: int,
    dy: int,
    minx: int,
    miny: int,
    maxx: int,
    maxy: int,
    t: Option<Color>,
) -> (Color, Option<Color>, int) {
    let pw = con.pot_width as int;
    let cx = minx + 2 * (i % pw - dx);
    let cy = miny + 2 * (i / pw - dy);
    quantize(block_of(img, c.back[i], cx, cy, maxx, maxy, t))
}

/// The grid `c` after a sub-cell image blit.
pub open spec fn blit2x_op(
    img: ImageData,
    con: Console,
    c: Cells,
    dx: int,
    dy: int,
    minx: int,
    miny: int,
    maxx: int,
    maxy: int,
    t: Option<Color>,
) -> Cells {
    Cells {
        ascii: Seq::new(
            c.ascii.len(),
            |i: int|
                if blit2x_covers(con, i, dx, dy, minx, miny, maxx, maxy) {
                    quant_glyph(blit2x_quant(img, con, c, i, dx, dy, minx, miny, maxx, maxy, t))
                } else {
                    c.ascii[i]
                },
        ),
        fore: Seq::new(
            c.fore.len(),
            |i: int|
                if blit2x_covers(con, i, dx, dy, minx, miny, maxx, maxy) {
                    quant_fore(
                        blit2x_quant(img, con, c, i, dx, dy, minx, miny, maxx, maxy, t),
                        c.fore[i],
                    )
                } else {
                    c.fore[i]
                },
        ),
        back: Seq::new(
            c.back.len(),
            |i: int|
                if blit2x_covers(con, i, dx, dy, minx, miny, maxx, maxy) {
                    quant_back(blit2x_quant(img, con, c, i, dx, dy, minx, miny, maxx, maxy, t))
                } else {
                    c.back[i]
                },
        ),
    }
}

/// blit an image on a console, using the sub-cell glyphs to achieve twice
/// the normal resolution: the source is scanned two pixels at a time and
/// each 2x2 block is quantized to one glyph plus two colors.
pub fn blit_2x_image(
    img: &ImageData,
    con: &mut Console,
    dx: i32,
    dy: i32,
    sx: i32,
    sy: i32,
    w: Option<i32>,
    h: Option<i32>,
    transparent: Option<Color>,
)
    requires
        img.wf(),
        old(con).wf(),
        ({
            let r = blit2x_region(*img, *old(con), dx as int, dy as int, sx as int, sy as int, w,
                h);
            blit2x_writes_ok(*old(con), dx as int, dy as int, r.0, r.1, r.2, r.3)
        }),
    ensures
        ({
            let r = blit2x_region(*img, *old(con), dx as int, dy as int, sx as int, sy as int, w,
                h);
            final(con).cells() == blit2x_op(*img, *old(con), old(con).cells(), dx as int,
            dy as int, r.0, r.1, r.2, r.3, transparent)
        }),
        old(con).same_dims(*final(con)),
        old(con).same_palette(*final(con)),
        final(con).wf(),
{
    let ghost orig = *old(con);
    proof {
        orig.lemma_dims_bounds();
    }
    let ghost region = blit2x_region(*img, orig, dx as int, dy as int, sx as int, sy as int, w, h);
    let width: i64 = img.width as i64;
    let height: i64 = img.height as i64;
    let cw: i64 = con.get_width() as i64;
    let ch: i64 = con.get_height() as i64;
    let bw0: i64 = match w {
        Some(v) => v as i64,
        None => width,
    };
    let bh0: i64 = match h {
        Some(v) => v as i64,
        None => height,
    };
    let minx: i64 = if sx > 0 { sx as i64 } else { 0 };
    let miny: i64 = if sy > 0 { sy as i64 } else { 0 };
    let bw: i64 = if bw0 < width - minx { bw0 } else { width - minx };
    let bh: i64 = if bh0 < height - miny { bh0 } else { height - miny };
    if bw <= 0 || bh <= 0 {
        proof {
            let pw = orig.pot_width as int;
            let r = blit2x_op(*img, orig, orig.cells(), dx as int, dy as int, region.0, region.1,
                region.2, region.3, transparent);
            assert(region.2 <= region.0 || region.3 <= region.1);
            assert forall|i: int| 0 <= i < orig.cells().len() implies !blit2x_covers(orig, i,
                dx as int, dy as int, region.0, region.1, region.2, region.3) by {}
            assert(r.ascii =~= con.ascii@);
            assert(r.fore =~= con.fore@);
            assert(r.back =~= con.back@);
        }
        return ;
    }
    let half_w: i64 = (bw as u64 / 2) as i64;
    let half_h: i64 = (bh as u64 / 2) as i64;
    let mx: i64 = if (dx as i64) + half_w <= cw { bw } else { (cw - dx as i64) * 2 };
    let my: i64 = if (dy as i64) + half_h <= ch { bh } else { (ch - dy as i64) * 2 };
    let maxx: i64 = minx + mx;
    let maxy: i64 = miny + my;
    proof {
        assert(region == (minx as int, miny as int, maxx as int, maxy as int));
    }
    if mx <= 0 || my <= 0 {
        proof {
            let r = blit2x_op(*img, orig, orig.cells(), dx as int, dy as int, region.0, region.1,
                region.2, region.3, transparent);
            assert forall|i: int| 0 <= i < orig.cells().len() implies !blit2x_covers(orig, i,
                dx as int, dy as int, region.0, region.1, region.2, region.3) by {}
            assert(r.ascii =~= con.ascii@);
            assert(r.fore =~= con.fore@);
            assert(r.back =~= con.back@);
        }
        return ;
    }
    let kx: i64 = (mx + 1) / 2;
    let ky: i64 = (my + 1) / 2;
    proof {
        assert(kx - 1 == (maxx - minx - 1) / 2);
        assert(ky - 1 == (maxy - miny - 1) / 2);
        assert(mx <= bw && my <= bh);
    }
    let mut k: i64 = 0;
    while k < kx
        invariant
            img.wf(),
            con.wf(),
            orig.wf(),
            orig == *old(con),
            orig.same_dims(*con),
            orig.same_palette(*con),
            0 <= k <= kx,
            1 <= kx,
            1 <= ky,
            kx == (region.2 - region.0 + 1) / 2,
            ky == (region.3 - region.1 + 1) / 2,
            region == (minx as int, miny as int, maxx as int, maxy as int),
            minx < maxx,
            miny < maxy,
            maxx <= img.width,
            maxy <= img.height,
            0 <= minx,
            0 <= miny,
            0 <= dx,
            0 <= dy,
            dx + kx <= orig.width,
            dy + ky <= orig.height,
            forall|i: int|
                0 <= i < orig.cells().len() ==> #[trigger] con.cells().at(i) == (if blit2x_covers(
                    orig, i, dx as int, dy as int, region.0, region.1, region.2, region.3)
                    && i % (orig.pot_width as int) - dx < k {
                    CellContent {
                        glyph: quant_glyph(blit2x_quant(*img, orig, orig.cells(), i, dx as int,
                        dy as int, region.0, region.1, region.2, region.3, transparent)),
                        fore: quant_fore(blit2x_quant(*img, orig, orig.cells(), i, dx as int,
                        dy as int, region.0, region.1, region.2, region.3, transparent),
                        orig.fore@[i]),
                        back: quant_back(blit2x_quant(*img, orig, orig.cells(), i, dx as int,
                        dy as int, region.0, region.1, region.2, region.3, transparent)),
                    }
                } else {
                    orig.cells().at(i)
                }),
        decreases kx - k,
    {
        let mut l: i64 = 0;
        while l < ky
            invariant
                img.wf(),
                con.wf(),
                orig.wf(),
                orig == *old(con),
                orig.same_dims(*con),
                orig.same_palette(*con),
                0 <= k < kx,
                0 <= l <= ky,
                1 <= kx,
                1 <= ky,
                kx == (region.2 - region.0 + 1) / 2,
                ky == (region.3 - region.1 + 1) / 2,
                region == (minx as int, miny as int, maxx as int, maxy as int),
                minx < maxx,
                miny < maxy,
                maxx <= img.width,
                maxy <= img.height,
                0 <= minx,
                0 <= miny,
                0 <= dx,
                0 <= dy,
                dx + kx <= orig.width,
                dy + ky <= orig.height,
                forall|i: int|
                    0 <= i < orig.cells().len() ==> #[trigger] con.cells().at(i) == (if
                        blit2x_covers(orig, i, dx as int, dy as int, region.0, region.1, region.2,
                        region.3) && (i % (orig.pot_width as int) - dx < k || (i % (
                        orig.pot_width as int) - dx == k && i / (orig.pot_width as int) - dy
                        < l)) {
                        CellContent {
                            glyph: quant_glyph(blit2x_quant(*img, orig, orig.cells(), i,
                            dx as int, dy as int, region.0, region.1, region.2, region.3,
                            transparent)),
                            fore: quant_fore(blit2x_quant(*img, orig, orig.cells(), i, dx as int,
                            dy as int, region.0, region.1, region.2, region.3, transparent),
                            orig.fore@[i]),
                            back: quant_back(blit2x_quant(*img, orig, orig.cells(), i, dx as int,
                            dy as int, region.0, region.1, region.2, region.3, transparent)),
                        }
                    } else {
                        orig.cells().at(i)
                    }),
            decreases ky - l,
        {
            let ghost prev = *con;
            let cx: i64 = minx + 2 * k;
            let cy: i64 = miny + 2 * l;
            let conx: i64 = dx as i64 + k;
            let cony: i64 = dy as i64 + l;
            proof {
                con.lemma_dims_bounds();
                con.lemma_idx(conx as int, cony as int);
                img.lemma_at(cx as int, cy as int);
                if cx < maxx - 1 {
                    img.lemma_at(cx + 1, cy as int);
                }
                if cy < maxy - 1 {
                    img.lemma_at(cx as int, cy + 1);
                }
                if cx < maxx - 1 && cy < maxy - 1 {
                    img.lemma_at(cx + 1, cy + 1);
                }
            }
            let ghost target = prev.idx(conx as int, cony as int);
            let conxi: i32 = conx as i32;
            let conyi: i32 = cony as i32;
            let console_back = con.unsafe_get_back(conxi, conyi);
            proof {
                assert(prev.cells().at(target) == orig.cells().at(target));
                assert(console_back == orig.back@[target]);
            }
            let iw: usize = img.width as usize;
            let g0 = sub_pixel(img, cx as usize, cy as usize, transparent, console_back);
            let g1 = if cx < maxx - 1 {
                sub_pixel(img, cx as usize + 1, cy as usize, transparent, console_back)
            } else {
                console_back
            };
            let g2 = if cy < maxy - 1 {
                sub_pixel(img, cx as usize, cy as usize + 1, transparent, console_back)
            } else {
                console_back
            };
            let g3 = if cx < maxx - 1 && cy < maxy - 1 {
                sub_pixel(img, cx as usize + 1, cy as usize + 1, transparent, console_back)
            } else {
                console_back
            };
            let grid: [Color; 4] = [g0, g1, g2, g3];
            proof {
                assert(grid@ =~= block_of(*img, orig.back@[target], cx as int, cy as int,
                    maxx as int, maxy as int, transparent));
            }
            let mut back: Color = (0, 0, 0, 0);
            let mut front: Option<Color> = None;
            let mut ascii: i32 = 0;
            compute_pattern(&grid, &mut back, &mut front, &mut ascii);
            let ghost q = quantize(grid@);
            match front {
                Some(f) => {
                    if ascii >= 0 {
                        con.unsafe_back(conxi, conyi, back);
                        con.unsafe_fore(conxi, conyi, f);
                        con.unsafe_ascii(conxi, conyi, ascii as u16);
                    } else {
                        con.unsafe_back(conxi, conyi, f);
                        con.unsafe_fore(conxi, conyi, back);
                        con.unsafe_ascii(conxi, conyi, (-ascii) as u16);
                    }
                },
                None => {
                    con.unsafe_back(conxi, conyi, back);
                    con.unsafe_ascii(conxi, conyi, ascii as u16);
                },
            }
            proof {
                let pw = orig.pot_width as int;
                assert(blit2x_quant(*img, orig, orig.cells(), target, dx as int, dy as int,
                    region.0, region.1, region.2, region.3, transparent) == q);
                assert forall|i: int| 0 <= i < orig.cells().len() implies
                    #[trigger] con.cells().at(i) == (if blit2x_covers(orig, i, dx as int,
                        dy as int, region.0, region.1, region.2, region.3) && (i % pw - dx < k || (
                        i % pw - dx == k && i / pw - dy < l + 1)) {
                        CellContent {
                            glyph: quant_glyph(blit2x_quant(*img, orig, orig.cells(), i,
                            dx as int, dy as int, region.0, region.1, region.2, region.3,
                            transparent)),
                            fore: quant_fore(blit2x_quant(*img, orig, orig.cells(), i, dx as int,
                            dy as int, region.0, region.1, region.2, region.3, transparent),
                            orig.fore@[i]),
                            back: quant_back(blit2x_quant(*img, orig, orig.cells(), i, dx as int,
                            dy as int, region.0, region.1, region.2, region.3, transparent)),
                        }
                    } else {
                        orig.cells().at(i)
                    }) by {
                    vstd::arithmetic::div_mod::lemma_fundamental_div_mod(i, pw);
                    vstd::arithmetic::mul::lemma_mul_is_commutative(pw, i / pw);
                    if i != target {
                        assert(prev.cells().at(i) == con.cells().at(i));
                    }
                }
            }
            l += 1;
        }
        k += 1;
    }
    proof {
        let pw = orig.pot_width as int;
        let r = blit2x_op(*img, orig, orig.cells(), dx as int, dy as int, region.0, region.1,
            region.2, region.3, transparent);
        assert forall|i: int| 0 <= i < orig.cells().len() implies r.at(i) == con.cells().at(i)
            by {
            vstd::arithmetic::div_mod::lemma_mod_bound(i, pw);
            vstd::arithmetic::div_mod::lemma_div_pos_is_pos(i, pw);
            assert(con.cells().at(i) == (if blit2x_covers(orig, i, dx as int, dy as int, region.0,
                region.1, region.2, region.3) && (i % pw - dx < kx || (i % pw - dx == kx && i / pw
                - dy < 0)) {
                CellContent {
                    glyph: quant_glyph(blit2x_quant(*img, orig, orig.cells(), i, dx as int,
                    dy as int, region.0, region.1, region.2, region.3, transparent)),
                    fore: quant_fore(blit2x_quant(*img, orig, orig.cells(), i, dx as int,
                    dy as int, region.0, region.1, region.2, region.3, transparent),
                    orig.fore@[i]),
                    back: quant_back(blit2x_quant(*img, orig, orig.cells(), i, dx as int,
                    dy as int, region.0, region.1, region.2, region.3, transparent)),
                }
            } else {
                orig.cells().at(i)
            }));
        }
        assert forall|i: int| 0 <= i < orig.cells().len() implies r.ascii[i] == con.ascii@[i]
            && r.fore[i] == con.fore@[i] && r.back[i] == con.back@[i] by {
            assert(r.at(i) == con.cells().at(i));
        }
        assert(r.ascii =~= con.ascii@);
        assert(r.fore =~= con.fore@);
        assert(r.back =~= con.back@);
    }
}

/// One source pixel with the transparency key applied.
fn sub_pixel(img: &ImageData, x: usize, y: usize, t: Option<Color>, back: Color) -> (r: Color)
    requires
        img.wf(),
        x < img.width,
        y < img.height,
    ensures
        r == sub_key(img.at(x as int, y as int), t, back),
{
    proof {
        img.lemma_at(x as int, y as int);
    }
    let off: usize = y * img.width as usize + x;
    let p = img.pixels[off];
    match t {
        Some(tc) => {
            if tc.0 == p.0 && tc.1 == p.1 && tc.2 == p.2 && tc.3 == p.3 {
                back
            } else {
                p
            }
        },
        None => p,
    }
}

impl Image {
    /// blit the image on the console at sub-cell resolution; `(dx, dy)` is
    /// the destination cell, `(sx, sy)` the source pixel origin, `w` and
    /// `h` an optional pixel size. Before a payload has been decoded this
    /// draws nothing.
    pub fn blit_2x(
        &self,
        con: &mut Console,
        dx: i32,
        dy: i32,
        sx: i32,
        sy: i32,
        w: Option<i32>,
        h: Option<i32>,
        transparent: Option<Color>,
    )
        requires
            self.wf(),
            old(con).wf(),
            ({
                match self.data {
                    Some(d) => {
                        let r = blit2x_region(d, *old(con), dx as int, dy as int, sx as int,
                            sy as int, w, h);
                        blit2x_writes_ok(*old(con), dx as int, dy as int, r.0, r.1, r.2, r.3)
                    },
                    None => true,
                }
            }),
        ensures
            final(con).cells() == match self.data {
                Some(d) => {
                    let r = blit2x_region(d, *old(con), dx as int, dy as int, sx as int,
                        sy as int, w, h);
                    blit2x_op(d, *old(con), old(con).cells(), dx as int, dy as int, r.0, r.1, r.2,
                    r.3, transparent)
                },
                None => old(con).cells(),
            },
            old(con).same_dims(*final(con)),
            old(con).same_palette(*final(con)),
            final(con).wf(),
    {
        match &self.data {
            Some(d) => {
                blit_2x_image(d, con, dx, dy, sx, sy, w, h, transparent);
            },
            None => {},
        }
    }
}

} // verus!
