//! The cell grid: glyph, foreground and background buffers with
//! bounds-checked and unchecked accessors, resize and area fill.
//!
//! The three buffers are parallel, each sized `pot_width * pot_height`
//! where the pot ("power of two") dimensions are the smallest powers of two
//! at least as large as the logical `width` and `height` (a texture-friendly
//! layout). The cell at logical coordinate `(x, y)` lives at index
//! `x + y * pot_width`: the stride is always `pot_width`.

use vstd::prelude::*;
use vstd::arithmetic::div_mod::lemma_fundamental_div_mod_converse;
use vstd::arithmetic::mul::{lemma_mul_inequality, lemma_mul_nonnegative};
use crate::color::Color;

verus! {

// rectangle drawing kit
pub const CHAR_CORNER_NW: u16 = 218;
pub const CHAR_CORNER_SW: u16 = 192;
pub const CHAR_CORNER_SE: u16 = 217;
pub const CHAR_CORNER_NE: u16 = 191;
pub const CHAR_LINE_H: u16 = 196;
pub const CHAR_LINE_V: u16 = 179;

// sub-cell resolution kit
pub const CHAR_SUBP_NW: u16 = 226;
pub const CHAR_SUBP_NE: u16 = 227;
pub const CHAR_SUBP_N: u16 = 228;
pub const CHAR_SUBP_SE: u16 = 229;
pub const CHAR_SUBP_DIAG: u16 = 230;
pub const CHAR_SUBP_E: u16 = 231;
pub const CHAR_SUBP_SW: u16 = 232;

/// The glyph code of a default (blank) cell: a space.
pub const CHAR_SPACE: u16 = 32;

/// Default foreground color of a cell: opaque white.
pub const DEFAULT_FORE: Color = (255, 255, 255, 255);

/// Default background color of a cell: opaque black.
pub const DEFAULT_BACK: Color = (0, 0, 0, 255);

/// Horizontal placement of a line of text relative to its anchor column.
#[derive(Copy, Clone)]
pub enum TextAlign {
    Left,
    Right,
    Center,
}

/// `p` is a power of two.
pub open spec fn is_pot(p: int) -> bool
    decreases p,
{
    if p <= 0 {
        false
    } else if p == 1 {
        true
    } else {
        p % 2 == 0 && is_pot(p / 2)
    }
}

/// The smallest power of two at least as large as `w` (and at least 1).
pub open spec fn pot_spec(w: int) -> int
    decreases w,
{
    if w <= 1 {
        1
    } else {
        2 * pot_spec((w + 1) / 2)
    }
}

pub proof fn lemma_pot_spec_props(w: int)
    ensures
        is_pot(pot_spec(w)),
        pot_spec(w) >= 1,
        pot_spec(w) >= w,
        w >= 1 ==> pot_spec(w) < 2 * w,
    decreases w,
{
    if w >= 2 {
        let m = (w + 1) / 2;
        lemma_pot_spec_props(m);
        let p = pot_spec(m);
        // pot_spec(w) == 2 * p, and m >= 1, p >= m, p < 2 * m <= w + 1
        if w % 2 == 0 {
            assert(2 * m == w);
        } else {
            assert(2 * m == w + 1);
            // p < 2 * m == w + 1 and, for m >= 2, p is even while w is odd
            if m >= 2 {
                assert(p % 2 == 0);
            }
        }
    }
}

/// No power of two below `w` reaches `pot_spec(w)`: the next one after a
/// power of two `p < w` is still at most `pot_spec(w)`.
pub proof fn lemma_pot_above(p: int, w: int)
    requires
        is_pot(p),
        p < w,
    ensures
        2 * p <= pot_spec(w),
    decreases w,
{
    let m = (w + 1) / 2;
    lemma_pot_spec_props(m);
    if p == 1 {
        assert(pot_spec(w) == 2 * pot_spec(m));
    } else {
        assert(p % 2 == 0 && is_pot(p / 2));
        assert(p / 2 < m);
        lemma_pot_above(p / 2, m);
    }
}

/// `pot_spec(w)` is minimal: no power of two at least `w` is below it.
pub proof fn lemma_pot_min(p: int, w: int)
    requires
        is_pot(p),
        p >= w,
    ensures
        pot_spec(w) <= p,
    decreases w,
{
    if w >= 2 {
        let m = (w + 1) / 2;
        assert(p >= 2);
        assert(p % 2 == 0 && is_pot(p / 2));
        assert(p / 2 >= m);
        lemma_pot_min(p / 2, m);
    } else {
        if p > 0 {
        } else {
        }
    }
}

/// Powers of two are at least a factor two apart.
pub proof fn lemma_pot_gap(p: int, q: int)
    requires
        is_pot(p),
        is_pot(q),
        p > q,
    ensures
        p >= 2 * q,
    decreases q,
{
    if q >= 2 {
        lemma_pot_gap(p / 2, q / 2);
    }
}

/// The smallest power of two at least as large as `value`.
pub fn get_pot_value(value: u32) -> (r: u32)
    requires
        value <= 0x8000_0000,
    ensures
        r == pot_spec(value as int),
{
    let mut pot_value: u32 = 1;
    proof {
        lemma_pot_spec_props(value as int);
    }
    while pot_value < value
        invariant
            value <= 0x8000_0000,
            1 <= pot_value,
            is_pot(pot_value as int),
            pot_value <= pot_spec(value as int),
            pot_value >= value ==> pot_value == pot_spec(value as int),
        decreases 2 * value - pot_value,
    {
        proof {
            lemma_pot_spec_props(value as int);
            lemma_pot_above(pot_value as int, value as int);
            if 2 * (pot_value as int) >= value {
                lemma_pot_min(2 * pot_value as int, value as int);
            }
        }
        pot_value *= 2;
    }
    pot_value
}

/// One grid cell's stored content: glyph code, foreground, background.
pub ghost struct CellContent {
    pub glyph: u32,
    pub fore: Color,
    pub back: Color,
}

/// The mathematical content of the three parallel buffers.
pub ghost struct Cells {
    pub ascii: Seq<u32>,
    pub fore: Seq<Color>,
    pub back: Seq<Color>,
}

impl Cells {
    pub open spec fn len(self) -> int {
        self.ascii.len() as int
    }

    pub open spec fn at(self, i: int) -> CellContent {
        CellContent { glyph: self.ascii[i], fore: self.fore[i], back: self.back[i] }
    }
}

/// The data for a console: a grid of cells and methods to draw on it.
pub struct Console {
    /// logical width in cells
    pub width: u32,
    /// logical height in cells
    pub height: u32,
    /// backing width: smallest power of two >= width
    pub pot_width: u32,
    /// backing height: smallest power of two >= height
    pub pot_height: u32,
    /// glyph codes, row-major with stride `pot_width`
    pub ascii: Vec<u32>,
    /// foreground colors, same layout
    pub fore: Vec<Color>,
    /// background colors, same layout
    pub back: Vec<Color>,
    /// named-color registry used by styled text
    pub colors: Vec<(Vec<char>, Color)>,
    /// transient color stack of the styled-text parser
    pub color_stack: Vec<Color>,
}

impl Console {
    /// The structural invariant of the grid: pot dimensions are the smallest
    /// powers of two covering the logical ones, their product fits `u32`,
    /// and all three buffers have exactly that many cells.
    pub open spec fn wf(self) -> bool {
        &&& self.pot_width == pot_spec(self.width as int)
        &&& self.pot_height == pot_spec(self.height as int)
        &&& self.pot_width * self.pot_height <= u32::MAX
        &&& self.ascii.len() == self.pot_width * self.pot_height
        &&& self.fore.len() == self.pot_width * self.pot_height
        &&& self.back.len() == self.pot_width * self.pot_height
    }

    /// Buffer index of logical cell `(x, y)`: the stride is `pot_width`.
    pub open spec fn idx(self, x: int, y: int) -> int {
        x + y * self.pot_width
    }

    /// `(x, y)` lies on the logical grid.
    pub open spec fn in_bounds(self, x: int, y: int) -> bool {
        0 <= x < self.width && 0 <= y < self.height
    }

    pub open spec fn cells(self) -> Cells {
        Cells { ascii: self.ascii@, fore: self.fore@, back: self.back@ }
    }

    /// The logical and backing dimensions of `other` equal those of `self`.
    pub open spec fn same_dims(self, other: Console) -> bool {
        &&& other.width == self.width
        &&& other.height == self.height
        &&& other.pot_width == self.pot_width
        &&& other.pot_height == self.pot_height
    }

    /// The color registry and parse stack of `other` equal those of `self`.
    pub open spec fn same_palette(self, other: Console) -> bool {
        &&& other.colors@ == self.colors@
        &&& other.color_stack@ == self.color_stack@
    }

    /// A well-formed grid has logical dimensions of at most `2^31`, covered
    /// by its backing dimensions.
    pub proof fn lemma_dims_bounds(self)
        requires
            self.wf(),
        ensures
            self.width <= 0x8000_0000,
            self.height <= 0x8000_0000,
            self.width <= self.pot_width,
            self.height <= self.pot_height,
            1 <= self.pot_width,
            1 <= self.pot_height,
    {
        lemma_pot_spec_props(self.width as int);
        lemma_pot_spec_props(self.height as int);
        assert(is_pot(0x8000_0000)) by {
            reveal_with_fuel(is_pot, 33);
        }
        if self.pot_width > 0x8000_0000 {
            lemma_pot_gap(self.pot_width as int, 0x8000_0000);
            lemma_mul_inequality(1, self.pot_height as int, self.pot_width as int);
            assert(self.pot_width * self.pot_height >= self.pot_width) by (nonlinear_arith)
                requires self.pot_height >= 1;
        }
        if self.pot_height > 0x8000_0000 {
            lemma_pot_gap(self.pot_height as int, 0x8000_0000);
            assert(self.pot_width * self.pot_height >= self.pot_height) by (nonlinear_arith)
                requires self.pot_width >= 1;
        }
    }

    /// An in-bounds coordinate has an in-range buffer index, and the index
    /// decomposes back into the coordinate.
    pub proof fn lemma_idx(self, x: int, y: int)
        requires
            self.wf(),
            self.in_bounds(x, y),
        ensures
            0 <= self.idx(x, y) < self.pot_width * self.pot_height,
            self.idx(x, y) % (self.pot_width as int) == x,
            self.idx(x, y) / (self.pot_width as int) == y,
    {
        let pw = self.pot_width as int;
        let ph = self.pot_height as int;
        lemma_pot_spec_props(self.width as int);
        lemma_pot_spec_props(self.height as int);
        lemma_mul_nonnegative(y, pw);
        lemma_mul_inequality(y, ph - 1, pw);
        assert(self.idx(x, y) <= (pw - 1) + (ph - 1) * pw);
        assert((ph - 1) * pw == ph * pw - pw) by (nonlinear_arith);
        assert(ph * pw == pw * ph) by (nonlinear_arith);
        lemma_fundamental_div_mod_converse(self.idx(x, y), pw, y, x);
    }

    /// Create a new offscreen console; `width` and `height` are in cells.
    /// Every cell starts as a space glyph over opaque white foreground and
    /// opaque black background. The backing buffers must fit in a `u32`
    /// count of cells.
    pub fn new(width: u32, height: u32) -> (r: Console)
        requires
            width <= 0x8000_0000,
            height <= 0x8000_0000,
            pot_spec(width as int) * pot_spec(height as int) <= u32::MAX,
        ensures
            r.wf(),
            r.width == width,
            r.height == height,
            r.colors@ =~= Seq::<(Vec<char>, Color)>::empty(),
            r.color_stack@ =~= Seq::<Color>::empty(),
            forall|i: int| 0 <= i < r.cells().len() ==> r.cells().at(i) == blank_cell(),
    {
        proof {
            lemma_pot_spec_props(width as int);
            lemma_pot_spec_props(height as int);
            lemma_mul_nonnegative(pot_spec(width as int), pot_spec(height as int));
            lemma_mul_inequality(1, pot_spec(height as int), pot_spec(width as int));
            assert(pot_spec(width as int) * pot_spec(height as int)
                == pot_spec(height as int) * pot_spec(width as int)) by (nonlinear_arith);
            lemma_mul_inequality(1, pot_spec(width as int), pot_spec(height as int));
        }
        let pot_width = get_pot_value(width);
        let pot_height = get_pot_value(height);
        let n: u32 = pot_width * pot_height;
        let (ascii, fore, back) = blank_buffers(n);
        Console {
            width,
            height,
            pot_width,
            pot_height,
            ascii,
            fore,
            back,
            colors: Vec::new(),
            color_stack: Vec::new(),
        }
    }

    /// Resize the console. All cell content is destroyed: every cell of the
    /// resized grid is a blank cell again. The color registry and the parse
    /// stack are kept.
    pub fn resize(&mut self, width: u32, height: u32)
        requires
            width <= 0x8000_0000,
            height <= 0x8000_0000,
            pot_spec(width as int) * pot_spec(height as int) <= u32::MAX,
        ensures
            final(self).wf(),
            final(self).width == width,
            final(self).height == height,
            old(self).same_palette(*final(self)),
            forall|i: int|
                0 <= i < final(self).cells().len() ==> final(self).cells().at(i) == blank_cell(),
    {
        proof {
            lemma_pot_spec_props(width as int);
            lemma_pot_spec_props(height as int);
            lemma_mul_nonnegative(pot_spec(width as int), pot_spec(height as int));
            lemma_mul_inequality(1, pot_spec(height as int), pot_spec(width as int));
            assert(pot_spec(width as int) * pot_spec(height as int)
                == pot_spec(height as int) * pot_spec(width as int)) by (nonlinear_arith);
            lemma_mul_inequality(1, pot_spec(width as int), pot_spec(height as int));
        }
        self.width = width;
        self.height = height;
        self.pot_width = get_pot_value(width);
        self.pot_height = get_pot_value(height);
        let n: u32 = self.pot_width * self.pot_height;
        let (ascii, fore, back) = blank_buffers(n);
        self.ascii = ascii;
        self.fore = fore;
        self.back = back;
    }

    /// Associate a name with a color for this console; the name can then be
    /// used in [`Console::print_color`]. Registering a name again replaces
    /// its color.
    pub fn register_color(&mut self, name: &str, value: Color)
        ensures
            final(self).palette() =~= old(self).palette().insert(name@, value),
            old(self).same_dims(*final(self)),
            final(self).cells() == old(self).cells(),
            final(self).color_stack@ == old(self).color_stack@,
            final(self).wf() == old(self).wf(),
    {
        let key = crate::text::str_chars(name);
        crate::text::registry_insert(&mut self.colors, key, value);
    }

    pub fn get_width(&self) -> (r: u32)
        ensures
            r == self.width,
    {
        self.width
    }

    pub fn get_height(&self) -> (r: u32)
        ensures
            r == self.height,
    {
        self.height
    }

    pub fn get_pot_width(&self) -> (r: u32)
        ensures
            r == self.pot_width,
    {
        self.pot_width
    }

    pub fn get_pot_height(&self) -> (r: u32)
        ensures
            r == self.pot_height,
    {
        self.pot_height
    }

    /// for fast reading of the characters values
    pub fn borrow_ascii(&self) -> (r: &Vec<u32>)
        ensures
            r@ == self.ascii@,
    {
        &self.ascii
    }

    /// for fast reading of the characters colors
    pub fn borrow_foreground(&self) -> (r: &Vec<Color>)
        ensures
            r@ == self.fore@,
    {
        &self.fore
    }

    /// for fast reading of the background colors
    pub fn borrow_background(&self) -> (r: &Vec<Color>)
        ensures
            r@ == self.back@,
    {
        &self.back
    }

    /// for fast writing of the characters values
    pub fn borrow_mut_ascii(&mut self) -> (r: &mut Vec<u32>)
        ensures
            *r == old(self).ascii,
            final(self).ascii == *final(r),
            old(self).same_dims(*final(self)),
            old(self).same_palette(*final(self)),
            final(self).fore == old(self).fore,
            final(self).back == old(self).back,
    {
        &mut self.ascii
    }

    /// for fast writing of the characters colors
    pub fn borrow_mut_foreground(&mut self) -> (r: &mut Vec<Color>)
        ensures
            *r == old(self).fore,
            final(self).fore == *final(r),
            old(self).same_dims(*final(self)),
            old(self).same_palette(*final(self)),
            final(self).ascii == old(self).ascii,
            final(self).back == old(self).back,
    {
        &mut self.fore
    }

    /// for fast writing of the background colors
    pub fn borrow_mut_background(&mut self) -> (r: &mut Vec<Color>)
        ensures
            *r == old(self).back,
            final(self).back == *final(r),
            old(self).same_dims(*final(self)),
            old(self).same_palette(*final(self)),
            final(self).ascii == old(self).ascii,
            final(self).fore == old(self).fore,
    {
        &mut self.back
    }

    fn check_coords(&self, x: i32, y: i32) -> (r: bool)
        ensures
            r == self.in_bounds(x as int, y as int),
    {
        x >= 0 && (x as u32) < self.width && y >= 0 && (y as u32) < self.height
    }

    fn offset(&self, x: i32, y: i32) -> (r: usize)
        requires
            self.wf(),
            self.in_bounds(x as int, y as int),
        ensures
            r == self.idx(x as int, y as int),
            r < self.ascii.len(),
    {
        proof {
            self.lemma_idx(x as int, y as int);
        }
        x as usize + y as usize * self.pot_width as usize
    }

    /// get the background color of a cell (if x,y inside the console)
    pub fn get_back(&self, x: i32, y: i32) -> (r: Option<Color>)
        requires
            self.wf(),
        ensures
            r == if self.in_bounds(x as int, y as int) {
                Some(self.back@[self.idx(x as int, y as int)])
            } else {
                None::<Color>
            },
    {
        if self.check_coords(x, y) {
            return Some(self.unsafe_get_back(x, y));
        }
        None
    }

    /// get the foreground color of a cell (if x,y inside the console)
    pub fn get_fore(&self, x: i32, y: i32) -> (r: Option<Color>)
        requires
            self.wf(),
        ensures
            r == if self.in_bounds(x as int, y as int) {
                Some(self.fore@[self.idx(x as int, y as int)])
            } else {
                None::<Color>
            },
    {
        if self.check_coords(x, y) {
            return Some(self.unsafe_get_fore(x, y));
        }
        None
    }

    /// get the ascii code of a cell (if x,y inside the console)
    pub fn get_ascii(&self, x: i32, y: i32) -> (r: Option<u16>)
        requires
            self.wf(),
        ensures
            r == if self.in_bounds(x as int, y as int) {
                Some((self.ascii@[self.idx(x as int, y as int)] % 0x10000) as u16)
            } else {
                None::<u16>
            },
    {
        if self.check_coords(x, y) {
            return Some(self.unsafe_get_ascii(x, y));
        }
        None
    }

    /// get the background color of a cell (the caller must have checked that
    /// x,y are inside the console)
    pub fn unsafe_get_back(&self, x: i32, y: i32) -> (r: Color)
        requires
            self.wf(),
            self.in_bounds(x as int, y as int),
        ensures
            r == self.back@[self.idx(x as int, y as int)],
    {
        let off = self.offset(x, y);
        self.back[off]
    }

    /// get the foreground color of a cell (the caller must have checked that
    /// x,y are inside the console)
    pub fn unsafe_get_fore(&self, x: i32, y: i32) -> (r: Color)
        requires
            self.wf(),
            self.in_bounds(x as int, y as int),
        ensures
            r == self.fore@[self.idx(x as int, y as int)],
    {
        let off = self.offset(x, y);
        self.fore[off]
    }

    /// get the ascii code of a cell (the caller must have checked that
    /// x,y are inside the console)
    pub fn unsafe_get_ascii(&self, x: i32, y: i32) -> (r: u16)
        requires
            self.wf(),
            self.in_bounds(x as int, y as int),
        ensures
            r == (self.ascii@[self.idx(x as int, y as int)] % 0x10000) as u16,
    {
        let off = self.offset(x, y);
        (self.ascii[off] % 0x10000) as u16
    }

    /// set the character at a specific position (doesn't change the color)
    pub fn ascii(&mut self, x: i32, y: i32, ascii: u16)
        requires
            old(self).wf(),
        ensures
            final(self).cells() == old(self).cell_op(old(self).cells(), x as int, y as int, Some(ascii), None, None),
            old(self).same_dims(*final(self)),
            old(self).same_palette(*final(self)),
            final(self).wf(),
    {
        if self.check_coords(x, y) {
            self.unsafe_ascii(x, y, ascii);
        }
    }

    /// set the character color at a specific position
    pub fn fore(&mut self, x: i32, y: i32, col: Color)
        requires
            old(self).wf(),
        ensures
            final(self).cells() == old(self).cell_op(old(self).cells(), x as int, y as int, None, Some(col), None),
            old(self).same_dims(*final(self)),
            old(self).same_palette(*final(self)),
            final(self).wf(),
    {
        if self.check_coords(x, y) {
            self.unsafe_fore(x, y, col);
        }
    }

    /// set the background color at a specific position
    pub fn back(&mut self, x: i32, y: i32, col: Color)
        requires
            old(self).wf(),
        ensures
            final(self).cells() == old(self).cell_op(old(self).cells(), x as int, y as int, None, None, Some(col)),
            old(self).same_dims(*final(self)),
            old(self).same_palette(*final(self)),
            final(self).wf(),
    {
        if self.check_coords(x, y) {
            self.unsafe_back(x, y, col);
        }
    }

    /// The grid `c` after a bounds-checked write of any subset of the three
    /// channels at `(x, y)`: `None` means "leave that channel unchanged",
    /// and nothing changes when `(x, y)` is off the logical grid.
    pub open spec fn cell_op(
        self,
        c: Cells,
        x: int,
        y: int,
        ascii: Option<u16>,
        fore: Option<Color>,
        back: Option<Color>,
    ) -> Cells {
        if self.in_bounds(x, y) {
            let i = self.idx(x, y);
            Cells {
                ascii: match ascii {
                    Some(v) => c.ascii.update(i, v as u32),
                    None => c.ascii,
                },
                fore: match fore {
                    Some(v) => c.fore.update(i, v),
                    None => c.fore,
                },
                back: match back {
                    Some(v) => c.back.update(i, v),
                    None => c.back,
                },
            }
        } else {
            c
        }
    }

    /// read one stored glyph word as is (the caller must have checked that
    /// x,y are inside the console)
    pub(crate) fn glyph_word(&self, x: i32, y: i32) -> (r: u32)
        requires
            self.wf(),
            self.in_bounds(x as int, y as int),
        ensures
            r == self.ascii@[self.idx(x as int, y as int)],
    {
        let off = self.offset(x, y);
        self.ascii[off]
    }

    /// write one stored glyph word as is (the caller must have checked that
    /// x,y are inside the console)
    pub(crate) fn set_glyph_word(&mut self, x: i32, y: i32, g: u32)
        requires
            old(self).wf(),
            old(self).in_bounds(x as int, y as int),
        ensures
            final(self).ascii@ == old(self).ascii@.update(old(self).idx(x as int, y as int), g),
            final(self).fore == old(self).fore,
            final(self).back == old(self).back,
            old(self).same_dims(*final(self)),
            old(self).same_palette(*final(self)),
            final(self).wf(),
    {
        let off = self.offset(x, y);
        self.ascii.set(off, g);
    }

    /// set the character at a specific position (the caller must have
    /// checked that x,y are inside the console)
    pub fn unsafe_ascii(&mut self, x: i32, y: i32, ascii: u16)
        requires
            old(self).wf(),
            old(self).in_bounds(x as int, y as int),
        ensures
            final(self).ascii@ == old(self).ascii@.update(
                old(self).idx(x as int, y as int),
                ascii as u32,
            ),
            final(self).fore == old(self).fore,
            final(self).back == old(self).back,
            old(self).same_dims(*final(self)),
            old(self).same_palette(*final(self)),
            final(self).wf(),
    {
        let off = self.offset(x, y);
        self.ascii.set(off, ascii as u32);
    }

    /// set the character color at a specific position (the caller must have
    /// checked that x,y are inside the console)
    pub fn unsafe_fore(&mut self, x: i32, y: i32, col: Color)
        requires
            old(self).wf(),
            old(self).in_bounds(x as int, y as int),
        ensures
            final(self).fore@ == old(self).fore@.update(old(self).idx(x as int, y as int), col),
            final(self).ascii == old(self).ascii,
            final(self).back == old(self).back,
            old(self).same_dims(*final(self)),
            old(self).same_palette(*final(self)),
            final(self).wf(),
    {
        let off = self.offset(x, y);
        self.fore.set(off, col);
    }

    /// set the background color at a specific position (the caller must have
    /// checked that x,y are inside the console)
    pub fn unsafe_back(&mut self, x: i32, y: i32, col: Color)
        requires
            old(self).wf(),
            old(self).in_bounds(x as int, y as int),
        ensures
            final(self).back@ == old(self).back@.update(old(self).idx(x as int, y as int), col),
            final(self).ascii == old(self).ascii,
            final(self).fore == old(self).fore,
            old(self).same_dims(*final(self)),
            old(self).same_palette(*final(self)),
            final(self).wf(),
    {
        let off = self.offset(x, y);
        self.back.set(off, col);
    }
}

/// A blank cell: space glyph, opaque white foreground, opaque black
/// background.
pub open spec fn blank_cell() -> CellContent {
    CellContent { glyph: CHAR_SPACE as u32, fore: DEFAULT_FORE, back: DEFAULT_BACK }
}

fn blank_buffers(n: u32) -> (r: (Vec<u32>, Vec<Color>, Vec<Color>))
    ensures
        r.0.len() == n && r.1.len() == n && r.2.len() == n,
        forall|i: int|
            0 <= i < n ==> r.0@[i] == CHAR_SPACE as u32 && r.1@[i] == DEFAULT_FORE && r.2@[i]
                == DEFAULT_BACK,
{
    let mut ascii: Vec<u32> = Vec::new();
    let mut fore: Vec<Color> = Vec::new();
    let mut back: Vec<Color> = Vec::new();
    let mut i: u32 = 0;
    while i < n
        invariant
            i <= n,
            ascii.len() == i && fore.len() == i && back.len() == i,
            forall|j: int|
                0 <= j < i ==> ascii@[j] == CHAR_SPACE as u32 && fore@[j] == DEFAULT_FORE
                    && back@[j] == DEFAULT_BACK,
        decreases n - i,
    {
        ascii.push(CHAR_SPACE as u32);
        fore.push(DEFAULT_FORE);
        back.push(DEFAULT_BACK);
        i += 1;
    }
    (ascii, fore, back)
}


/// `i` lies in row `cy`, columns `x0` (inclusive) to `x1` (exclusive), of
/// `con`'s backing buffer.
pub open spec fn row_covers(con: Console, i: int, cy: int, x0: int, x1: int) -> bool {
    let pw = con.pot_width as int;
    i / pw == cy && x0 <= i % pw < x1
}

/// The value of one glyph cell after an optional masked write.
pub open spec fn masked_u32(old_v: u32, o: Option<u16>, covered: bool) -> u32 {
    if covered {
        match o {
            Some(v) => v as u32,
            None => old_v,
        }
    } else {
        old_v
    }
}

/// The value of one color cell after an optional masked write.
pub open spec fn masked_color(old_v: Color, o: Option<Color>, covered: bool) -> Color {
    if covered {
        match o {
            Some(v) => v,
            None => old_v,
        }
    } else {
        old_v
    }
}

impl Console {
    /// Cell `i` of the backing buffer lies in the rectangle of width `w` and
    /// height `h` anchored at `(x, y)`, clipped to the logical grid.
    pub open spec fn area_covers(self, i: int, x: int, y: int, w: int, h: int) -> bool {
        let pw = self.pot_width as int;
        let cx = i % pw;
        let cy = i / pw;
        x <= cx < x + w && cx < self.width && y <= cy < y + h && cy < self.height
    }

    /// The grid `c` after an area fill: inside the clipped rectangle every
    /// channel given as `Some` is overwritten, everything else is kept.
    pub open spec fn area_op(
        self,
        c: Cells,
        x: int,
        y: int,
        w: int,
        h: int,
        fore: Option<Color>,
        back: Option<Color>,
        fill: Option<u16>,
    ) -> Cells {
        Cells {
            ascii: Seq::new(
                c.ascii.len(),
                |i: int| masked_u32(c.ascii[i], fill, self.area_covers(i, x, y, w, h)),
            ),
            fore: Seq::new(
                c.fore.len(),
                |i: int| masked_color(c.fore[i], fore, self.area_covers(i, x, y, w, h)),
            ),
            back: Seq::new(
                c.back.len(),
                |i: int| masked_color(c.back[i], back, self.area_covers(i, x, y, w, h)),
            ),
        }
    }

    /// An area with no width or no height covers nothing.
    pub proof fn lemma_area_op_empty(
        self,
        c: Cells,
        x: int,
        y: int,
        w: int,
        h: int,
        fore: Option<Color>,
        back: Option<Color>,
        fill: Option<u16>,
    )
        requires
            w <= 0 || h <= 0,
        ensures
            self.area_op(c, x, y, w, h, fore, back, fill) == c,
    {
        let r = self.area_op(c, x, y, w, h, fore, back, fill);
        assert(r.ascii =~= c.ascii);
        assert(r.fore =~= c.fore);
        assert(r.back =~= c.back);
    }

    /// Dimensions alone decide what `cell_op` does.
    pub proof fn lemma_cell_op_dims(
        self,
        other: Console,
        c: Cells,
        x: int,
        y: int,
        ascii: Option<u16>,
        fore: Option<Color>,
        back: Option<Color>,
    )
        requires
            self.same_dims(other),
        ensures
            self.cell_op(c, x, y, ascii, fore, back) == other.cell_op(c, x, y, ascii, fore, back),
    {
    }

    /// Dimensions alone decide what `area_op` does.
    pub proof fn lemma_area_op_dims(
        self,
        other: Console,
        c: Cells,
        x: int,
        y: int,
        w: int,
        h: int,
        fore: Option<Color>,
        back: Option<Color>,
        fill: Option<u16>,
    )
        requires
            self.same_dims(other),
        ensures
            self.area_op(c, x, y, w, h, fore, back, fill) == other.area_op(
                c,
                x,
                y,
                w,
                h,
                fore,
                back,
                fill,
            ),
    {
        let r1 = self.area_op(c, x, y, w, h, fore, back, fill);
        let r2 = other.area_op(c, x, y, w, h, fore, back, fill);
        assert(r1.ascii =~= r2.ascii);
        assert(r1.fore =~= r2.fore);
        assert(r1.back =~= r2.back);
    }

    fn cell_at(
        &mut self,
        x: i64,
        y: i64,
        ascii: Option<u16>,
        fore: Option<Color>,
        back: Option<Color>,
    )
        requires
            old(self).wf(),
        ensures
            final(self).cells() == old(self).cell_op(
                old(self).cells(),
                x as int,
                y as int,
                ascii,
                fore,
                back,
            ),
            old(self).same_dims(*final(self)),
            old(self).same_palette(*final(self)),
            final(self).wf(),
    {
        if x >= 0 && x < self.width as i64 && y >= 0 && y < self.height as i64 {
            proof {
                self.lemma_dims_bounds();
            }
            let xi: i32 = x as i32;
            let yi: i32 = y as i32;
            if let Some(a) = ascii {
                self.unsafe_ascii(xi, yi, a);
            }
            if let Some(f) = fore {
                self.unsafe_fore(xi, yi, f);
            }
            if let Some(b) = back {
                self.unsafe_back(xi, yi, b);
            }
        }
    }

    /// can change all properties of a console cell at once;
    /// `None` channels are left unchanged, and coordinates off the logical
    /// grid change nothing.
    pub fn cell(
        &mut self,
        x: i32,
        y: i32,
        ascii: Option<u16>,
        fore: Option<Color>,
        back: Option<Color>,
    )
        requires
            old(self).wf(),
        ensures
            final(self).cells() == old(self).cell_op(
                old(self).cells(),
                x as int,
                y as int,
                ascii,
                fore,
                back,
            ),
            old(self).same_dims(*final(self)),
            old(self).same_palette(*final(self)),
            final(self).wf(),
    {
        self.cell_at(x as i64, y as i64, ascii, fore, back);
    }

    fn area_row(
        &mut self,
        cy: i64,
        x0: i64,
        x1: i64,
        fore: Option<Color>,
        back: Option<Color>,
        fill: Option<u16>,
    )
        requires
            old(self).wf(),
            0 <= cy < old(self).height,
            0 <= x0 <= x1,
            x1 <= old(self).width,
        ensures
            final(self).wf(),
            old(self).same_dims(*final(self)),
            old(self).same_palette(*final(self)),
            forall|i: int|
                0 <= i < old(self).ascii@.len() ==> final(self).ascii@[i] == masked_u32(
                    old(self).ascii@[i],
                    fill,
                    row_covers(*old(self), i, cy as int, x0 as int, x1 as int),
                ),
            forall|i: int|
                0 <= i < old(self).fore@.len() ==> final(self).fore@[i] == masked_color(
                    old(self).fore@[i],
                    fore,
                    row_covers(*old(self), i, cy as int, x0 as int, x1 as int),
                ),
            forall|i: int|
                0 <= i < old(self).back@.len() ==> final(self).back@[i] == masked_color(
                    old(self).back@[i],
                    back,
                    row_covers(*old(self), i, cy as int, x0 as int, x1 as int),
                ),
    {
        let mut cx = x0;
        while cx < x1
            invariant
                old(self).wf(),
                self.wf(),
                old(self).same_dims(*self),
                old(self).same_palette(*self),
                0 <= cy < old(self).height,
                0 <= x0 <= cx <= x1,
                x1 <= old(self).width,
                forall|i: int|
                    0 <= i < old(self).ascii@.len() ==> self.ascii@[i] == masked_u32(
                        old(self).ascii@[i],
                        fill,
                        row_covers(*old(self), i, cy as int, x0 as int, cx as int),
                    ),
                forall|i: int|
                    0 <= i < old(self).fore@.len() ==> self.fore@[i] == masked_color(
                        old(self).fore@[i],
                        fore,
                        row_covers(*old(self), i, cy as int, x0 as int, cx as int),
                    ),
                forall|i: int|
                    0 <= i < old(self).back@.len() ==> self.back@[i] == masked_color(
                        old(self).back@[i],
                        back,
                        row_covers(*old(self), i, cy as int, x0 as int, cx as int),
                    ),
            decreases x1 - cx,
        {
            let ghost prev = *self;
            proof {
                self.lemma_dims_bounds();
                self.lemma_idx(cx as int, cy as int);
            }
            let xi: i32 = cx as i32;
            let yi: i32 = cy as i32;
            if let Some(fc) = fill {
                self.unsafe_ascii(xi, yi, fc);
            }
            if let Some(f) = fore {
                self.unsafe_fore(xi, yi, f);
            }
            if let Some(b) = back {
                self.unsafe_back(xi, yi, b);
            }
            proof {
                let pw = old(self).pot_width as int;
                let target = prev.idx(cx as int, cy as int);
                assert forall|i: int| 0 <= i < old(self).ascii@.len() && i != target implies
                    row_covers(*old(self), i, cy as int, x0 as int, cx + 1 as int) == row_covers(
                        *old(self),
                        i,
                        cy as int,
                        x0 as int,
                        cx as int,
                    ) by {
                    vstd::arithmetic::div_mod::lemma_fundamental_div_mod(i, pw);
                    vstd::arithmetic::mul::lemma_mul_is_commutative(pw, i / pw);
                }
            }
            cx += 1;
        }
    }

    fn area_at(
        &mut self,
        x: i64,
        y: i64,
        w: i64,
        h: i64,
        fore: Option<Color>,
        back: Option<Color>,
        fill: Option<u16>,
    )
        requires
            old(self).wf(),
            -0x100_0000_0000 <= x <= 0x100_0000_0000,
            -0x100_0000_0000 <= y <= 0x100_0000_0000,
            0 <= w <= 0x100_0000_0000,
            0 <= h <= 0x100_0000_0000,
        ensures
            final(self).cells() == old(self).area_op(
                old(self).cells(),
                x as int,
                y as int,
                w as int,
                h as int,
                fore,
                back,
                fill,
            ),
            old(self).same_dims(*final(self)),
            old(self).same_palette(*final(self)),
            final(self).wf(),
    {
        let x0: i64 = if x > 0 { x } else { 0 };
        let y0: i64 = if y > 0 { y } else { 0 };
        let xw: i64 = x + w;
        let yh: i64 = y + h;
        let wi: i64 = self.width as i64;
        let hi: i64 = self.height as i64;
        let x1: i64 = if xw < wi { xw } else { wi };
        let y1: i64 = if yh < hi { yh } else { hi };
        if x0 < x1 && y0 < y1 {
            let mut cy = y0;
            while cy < y1
                invariant
                    old(self).wf(),
                    self.wf(),
                    old(self).same_dims(*self),
                    old(self).same_palette(*self),
                    y0 <= cy <= y1,
                    0 <= x0 < x1 <= old(self).width,
                    0 <= y0 < y1 <= old(self).height,
                    x0 == vstd::math::max(x as int, 0),
                    y0 == vstd::math::max(y as int, 0),
                    x1 == vstd::math::min(x + w, old(self).width as int),
                    y1 == vstd::math::min(y + h, old(self).height as int),
                    forall|i: int|
                        0 <= i < old(self).ascii@.len() ==> self.ascii@[i] == masked_u32(
                            old(self).ascii@[i],
                            fill,
                            strip_covers(*old(self), i, x0 as int, x1 as int, y0 as int, cy as int),
                        ),
                    forall|i: int|
                        0 <= i < old(self).fore@.len() ==> self.fore@[i] == masked_color(
                            old(self).fore@[i],
                            fore,
                            strip_covers(*old(self), i, x0 as int, x1 as int, y0 as int, cy as int),
                        ),
                    forall|i: int|
                        0 <= i < old(self).back@.len() ==> self.back@[i] == masked_color(
                            old(self).back@[i],
                            back,
                            strip_covers(*old(self), i, x0 as int, x1 as int, y0 as int, cy as int),
                        ),
                decreases y1 - cy,
            {
                let ghost prev = *self;
                self.area_row(cy, x0, x1, fore, back, fill);
                cy += 1;
            }
            proof {
                self.lemma_area_finish(*old(self), x as int, y as int, w as int, h as int,
                    x0 as int, x1 as int, y0 as int, y1 as int, fore, back, fill);
            }
        } else {
            proof {
                old(self).lemma_dims_bounds();
                let pw = old(self).pot_width as int;
                let r = old(self).area_op(old(self).cells(), x as int, y as int, w as int,
                    h as int, fore, back, fill);
                assert forall|i: int| 0 <= i < old(self).ascii@.len() implies !old(self).area_covers(
                    i,
                    x as int,
                    y as int,
                    w as int,
                    h as int,
                ) by {
                    vstd::arithmetic::div_mod::lemma_mod_bound(i, pw);
                    vstd::arithmetic::div_mod::lemma_div_pos_is_pos(i, pw);
                }
                assert(r.ascii =~= self.ascii@);
                assert(r.fore =~= self.fore@);
                assert(r.back =~= self.back@);
            }
        }
    }

    /// After the strip from `y0` to `y1` is filled, the grid equals the area
    /// operation.
    proof fn lemma_area_finish(
        self,
        orig: Console,
        x: int,
        y: int,
        w: int,
        h: int,
        x0: int,
        x1: int,
        y0: int,
        y1: int,
        fore: Option<Color>,
        back: Option<Color>,
        fill: Option<u16>,
    )
        requires
            orig.wf(),
            orig.same_dims(self),
            self.wf(),
            x0 == vstd::math::max(x, 0),
            y0 == vstd::math::max(y, 0),
            x1 == vstd::math::min(x + w, orig.width as int),
            y1 == vstd::math::min(y + h, orig.height as int),
            forall|i: int|
                0 <= i < orig.ascii@.len() ==> self.ascii@[i] == masked_u32(
                    orig.ascii@[i],
                    fill,
                    strip_covers(orig, i, x0, x1, y0, y1),
                ),
            forall|i: int|
                0 <= i < orig.fore@.len() ==> self.fore@[i] == masked_color(
                    orig.fore@[i],
                    fore,
                    strip_covers(orig, i, x0, x1, y0, y1),
                ),
            forall|i: int|
                0 <= i < orig.back@.len() ==> self.back@[i] == masked_color(
                    orig.back@[i],
                    back,
                    strip_covers(orig, i, x0, x1, y0, y1),
                ),
        ensures
            self.cells() == orig.area_op(orig.cells(), x, y, w, h, fore, back, fill),
    {
        orig.lemma_dims_bounds();
        let pw = orig.pot_width as int;
        let r = orig.area_op(orig.cells(), x, y, w, h, fore, back, fill);
        assert forall|i: int| 0 <= i < orig.ascii@.len() implies strip_covers(orig, i, x0, x1, y0, y1)
            == orig.area_covers(i, x, y, w, h) by {
            vstd::arithmetic::div_mod::lemma_mod_bound(i, pw);
            vstd::arithmetic::div_mod::lemma_div_pos_is_pos(i, pw);
        }
        assert(r.ascii =~= self.ascii@);
        assert(r.fore =~= self.fore@);
        assert(r.back =~= self.back@);
    }

    /// fill an area with values; `None` channels are left unchanged, and the
    /// rectangle is clipped to the logical grid.
    pub fn area(
        &mut self,
        x: i32,
        y: i32,
        w: u32,
        h: u32,
        fore: Option<Color>,
        back: Option<Color>,
        fillchar: Option<u16>,
    )
        requires
            old(self).wf(),
        ensures
            final(self).cells() == old(self).area_op(
                old(self).cells(),
                x as int,
                y as int,
                w as int,
                h as int,
                fore,
                back,
                fillchar,
            ),
            old(self).same_dims(*final(self)),
            old(self).same_palette(*final(self)),
            final(self).wf(),
    {
        self.area_at(x as i64, y as i64, w as i64, h as i64, fore, back, fillchar);
    }

    /// fill the whole console with values
    pub fn clear(&mut self, fore: Option<Color>, back: Option<Color>, fillchar: Option<u16>)
        requires
            old(self).wf(),
        ensures
            final(self).cells() == old(self).area_op(
                old(self).cells(),
                0,
                0,
                old(self).width as int,
                old(self).height as int,
                fore,
                back,
                fillchar,
            ),
            old(self).same_dims(*final(self)),
            old(self).same_palette(*final(self)),
            final(self).wf(),
    {
        let w = self.width;
        let h = self.height;
        self.area(0, 0, w, h, fore, back, fillchar);
    }

    /// The grid after drawing a rectangle: four fixed corner glyphs, two
    /// horizontal and two vertical line edges (empty when the rectangle is
    /// narrower or lower than 2), and an optional interior fill.
    pub open spec fn spec_rectangle(
        self,
        x: int,
        y: int,
        w: int,
        h: int,
        fore: Option<Color>,
        back: Option<Color>,
        fill: Option<u16>,
    ) -> Cells {
        let right = x + w - 1;
        let down = y + h - 1;
        let w2 = if w >= 2 { w - 2 } else { 0 };
        let h2 = if h >= 2 { h - 2 } else { 0 };
        let c1 = self.cell_op(self.cells(), x, y, Some(CHAR_CORNER_NW), fore, back);
        let c2 = self.cell_op(c1, right, down, Some(CHAR_CORNER_SE), fore, back);
        let c3 = self.cell_op(c2, right, y, Some(CHAR_CORNER_NE), fore, back);
        let c4 = self.cell_op(c3, x, down, Some(CHAR_CORNER_SW), fore, back);
        let c5 = self.area_op(c4, x + 1, y, w2, 1, fore, back, Some(CHAR_LINE_H));
        let c6 = self.area_op(c5, x + 1, down, w2, 1, fore, back, Some(CHAR_LINE_H));
        let c7 = self.area_op(c6, x, y + 1, 1, h2, fore, back, Some(CHAR_LINE_V));
        let c8 = self.area_op(c7, right, y + 1, 1, h2, fore, back, Some(CHAR_LINE_V));
        if fill is Some {
            self.area_op(c8, x + 1, y + 1, w2, h2, fore, back, fill)
        } else {
            c8
        }
    }

    /// draw a rectangle, possibly filling it with a character.
    pub fn rectangle(
        &mut self,
        x: i32,
        y: i32,
        w: u32,
        h: u32,
        fore: Option<Color>,
        back: Option<Color>,
        fill: Option<u16>,
    )
        requires
            old(self).wf(),
        ensures
            final(self).cells() == old(self).spec_rectangle(
                x as int,
                y as int,
                w as int,
                h as int,
                fore,
                back,
                fill,
            ),
            old(self).same_dims(*final(self)),
            old(self).same_palette(*final(self)),
            final(self).wf(),
    {
        let xl: i64 = x as i64;
        let yl: i64 = y as i64;
        let right: i64 = xl + w as i64 - 1;
        let down: i64 = yl + h as i64 - 1;
        let w2: i64 = if w >= 2 { w as i64 - 2 } else { 0 };
        let h2: i64 = if h >= 2 { h as i64 - 2 } else { 0 };
        let ghost orig = *self;
        self.cell_at(xl, yl, Some(CHAR_CORNER_NW), fore, back);
        proof { orig.lemma_cell_op_dims(*self, self.cells(), right as int, down as int, Some(CHAR_CORNER_SE), fore, back); }
        self.cell_at(right, down, Some(CHAR_CORNER_SE), fore, back);
        proof { orig.lemma_cell_op_dims(*self, self.cells(), right as int, yl as int, Some(CHAR_CORNER_NE), fore, back); }
        self.cell_at(right, yl, Some(CHAR_CORNER_NE), fore, back);
        proof { orig.lemma_cell_op_dims(*self, self.cells(), xl as int, down as int, Some(CHAR_CORNER_SW), fore, back); }
        self.cell_at(xl, down, Some(CHAR_CORNER_SW), fore, back);
        proof { orig.lemma_area_op_dims(*self, self.cells(), xl + 1, yl as int, w2 as int, 1, fore, back, Some(CHAR_LINE_H)); }
        self.area_at(xl + 1, yl, w2, 1, fore, back, Some(CHAR_LINE_H));
        proof { orig.lemma_area_op_dims(*self, self.cells(), xl + 1, down as int, w2 as int, 1, fore, back, Some(CHAR_LINE_H)); }
        self.area_at(xl + 1, down, w2, 1, fore, back, Some(CHAR_LINE_H));
        proof { orig.lemma_area_op_dims(*self, self.cells(), xl as int, yl + 1, 1, h2 as int, fore, back, Some(CHAR_LINE_V)); }
        self.area_at(xl, yl + 1, 1, h2, fore, back, Some(CHAR_LINE_V));
        proof { orig.lemma_area_op_dims(*self, self.cells(), right as int, yl + 1, 1, h2 as int, fore, back, Some(CHAR_LINE_V)); }
        self.area_at(right, yl + 1, 1, h2, fore, back, Some(CHAR_LINE_V));
        if fill.is_some() {
            proof { orig.lemma_area_op_dims(*self, self.cells(), xl + 1, yl + 1, w2 as int, h2 as int, fore, back, fill); }
            self.area_at(xl + 1, yl + 1, w2, h2, fore, back, fill);
        }
    }
}

/// `i` lies in columns `x0..x1` of rows `y0..ycap` of `con`'s backing
/// buffer.
pub open spec fn strip_covers(con: Console, i: int, x0: int, x1: int, y0: int, ycap: int) -> bool {
    let pw = con.pot_width as int;
    y0 <= i / pw < ycap && x0 <= i % pw < x1
}

impl Console {
    /// An area fill given only a background color changes exactly the
    /// background of the covered region: glyphs and foregrounds are
    /// untouched everywhere.
    pub proof fn lemma_area_back_only(self, x: int, y: int, w: int, h: int, c: Color)
        ensures
            ({
                let r = self.area_op(self.cells(), x, y, w, h, None, Some(c), None);
                &&& r.ascii == self.ascii@
                &&& r.fore == self.fore@
                &&& r.back.len() == self.back@.len()
                &&& forall|i: int|
                    0 <= i < self.back@.len() ==> r.back[i] == (if self.area_covers(i, x, y, w, h) {
                        c
                    } else {
                        self.back@[i]
                    })
            }),
    {
        let r = self.area_op(self.cells(), x, y, w, h, None, Some(c), None);
        assert(r.ascii =~= self.ascii@);
        assert(r.fore =~= self.fore@);
    }

    /// A 2 by 2 rectangle draws exactly the four corner glyphs: the edge
    /// and interior fills are empty, no other cell changes, and each
    /// in-bounds corner receives its fixed corner glyph.
    pub proof fn lemma_rectangle_two_by_two(
        self,
        x: int,
        y: int,
        fore: Option<Color>,
        back: Option<Color>,
        fill: Option<u16>,
    )
        requires
            self.wf(),
        ensures
            ({
                let r = self.spec_rectangle(x, y, 2, 2, fore, back, fill);
                let corners = self.cell_op(
                    self.cell_op(
                        self.cell_op(
                            self.cell_op(self.cells(), x, y, Some(CHAR_CORNER_NW), fore, back),
                            x + 1,
                            y + 1,
                            Some(CHAR_CORNER_SE),
                            fore,
                            back,
                        ),
                        x + 1,
                        y,
                        Some(CHAR_CORNER_NE),
                        fore,
                        back,
                    ),
                    x,
                    y + 1,
                    Some(CHAR_CORNER_SW),
                    fore,
                    back,
                );
                &&& r == corners
                &&& forall|i: int|
                    0 <= i < self.cells().len() && i != self.idx(x, y) && i != self.idx(x + 1, y)
                        && i != self.idx(x, y + 1) && i != self.idx(x + 1, y + 1)
                        ==> #[trigger] r.at(i) == self.cells().at(i)
                &&& self.in_bounds(x, y) ==> r.ascii[self.idx(x, y)] == CHAR_CORNER_NW as u32
                &&& self.in_bounds(x + 1, y) ==> r.ascii[self.idx(x + 1, y)] == CHAR_CORNER_NE
                    as u32
                &&& self.in_bounds(x, y + 1) ==> r.ascii[self.idx(x, y + 1)] == CHAR_CORNER_SW
                    as u32
                &&& self.in_bounds(x + 1, y + 1) ==> r.ascii[self.idx(x + 1, y + 1)]
                    == CHAR_CORNER_SE as u32
            }),
    {
        self.lemma_dims_bounds();
        let c1 = self.cell_op(self.cells(), x, y, Some(CHAR_CORNER_NW), fore, back);
        let c2 = self.cell_op(c1, x + 1, y + 1, Some(CHAR_CORNER_SE), fore, back);
        let c3 = self.cell_op(c2, x + 1, y, Some(CHAR_CORNER_NE), fore, back);
        let c4 = self.cell_op(c3, x, y + 1, Some(CHAR_CORNER_SW), fore, back);
        self.lemma_area_op_empty(c4, x + 1, y, 0, 1, fore, back, Some(CHAR_LINE_H));
        self.lemma_area_op_empty(c4, x + 1, y + 1, 0, 1, fore, back, Some(CHAR_LINE_H));
        self.lemma_area_op_empty(c4, x, y + 1, 1, 0, fore, back, Some(CHAR_LINE_V));
        self.lemma_area_op_empty(c4, x + 1, y + 1, 1, 0, fore, back, Some(CHAR_LINE_V));
        if fill is Some {
            self.lemma_area_op_empty(c4, x + 1, y + 1, 0, 0, fore, back, fill);
        }
        if self.in_bounds(x, y) {
            self.lemma_idx(x, y);
        }
        if self.in_bounds(x + 1, y) {
            self.lemma_idx(x + 1, y);
        }
        if self.in_bounds(x, y + 1) {
            self.lemma_idx(x, y + 1);
        }
        if self.in_bounds(x + 1, y + 1) {
            self.lemma_idx(x + 1, y + 1);
        }
    }
}

} // verus!
