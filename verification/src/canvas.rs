//! The pixel type and the canvas that owns the frame's pixels.

use vstd::prelude::*;
use crate::ieee::{is_nan, is_zero};
use crate::math::{Num, lemma_from_int_exact, lemma_mul_one, lemma_mul_zero};

verus! {

/// One pixel: four independent 8-bit channels.
#[derive(Clone, Copy, Debug, PartialEq, Eq, Structural)]
pub struct Color {
    pub b: u8,
    pub g: u8,
    pub r: u8,
    pub a: u8,
}

impl Color {
    /// The pixel as one 32-bit word, `0xAARRGGBB`: stored little-endian, its
    /// bytes are blue, green, red, alpha.
    pub open spec fn word(self) -> u32 {
        (self.b + 0x100 * self.g + 0x1_0000 * self.r + 0x100_0000 * self.a) as u32
    }

    /// The pixel that a 32-bit word `0xAARRGGBB` holds.
    pub open spec fn of_word(w: u32) -> Color {
        Color {
            b: (w % 0x100) as u8,
            g: ((w / 0x100) % 0x100) as u8,
            r: ((w / 0x1_0000) % 0x100) as u8,
            a: (w / 0x100_0000) as u8,
        }
    }

    /// Packing and unpacking are inverse to each other.
    pub proof fn lemma_word_round_trip(c: Color, w: u32)
        ensures
            Color::of_word(c.word()) == c,
            Color::of_word(w).word() == w,
    {
        let b = c.b;
        let g = c.g;
        let r = c.r;
        let a = c.a;
        assert({
            let v = (b + 0x100 * g + 0x1_0000 * r + 0x100_0000 * a) as u32;
            &&& (v % 0x100) as u8 == b
            &&& ((v / 0x100) % 0x100) as u8 == g
            &&& ((v / 0x1_0000) % 0x100) as u8 == r
            &&& (v / 0x100_0000) as u8 == a
        }) by (bit_vector);
        assert({
            let b = (w % 0x100) as u8;
            let g = ((w / 0x100) % 0x100) as u8;
            let r = ((w / 0x1_0000) % 0x100) as u8;
            let a = (w / 0x100_0000) as u8;
            (b + 0x100 * g + 0x1_0000 * r + 0x100_0000 * a) as u32 == w
        }) by (bit_vector);
    }

    /// Packs the pixel into its 32-bit word.
    pub fn to_word(self) -> (w: u32)
        ensures
            w == self.word(),
    {
        let b: u32 = self.b as u32;
        let g: u32 = self.g as u32;
        let r: u32 = self.r as u32;
        let a: u32 = self.a as u32;
        b + 0x100 * g + 0x1_0000 * r + 0x100_0000 * a
    }

    /// Unpacks a 32-bit word into the pixel it holds.
    pub fn from_word(w: u32) -> (c: Color)
        ensures
            c == Color::of_word(w),
    {
        Color {
            b: (w % 0x100) as u8,
            g: ((w / 0x100) % 0x100) as u8,
            r: ((w / 0x1_0000) % 0x100) as u8,
            a: (w / 0x100_0000) as u8,
        }
    }
}

/// `x` held to the range from `lo` to `hi`; a NaN stays a NaN.
pub open spec fn spec_clamp(x: Num, lo: Num, hi: Num) -> Num {
    if x.spec_lt(lo) {
        lo
    } else if hi.spec_lt(x) {
        hi
    } else {
        x
    }
}

/// Holds `x` to the range from `lo` to `hi`.
pub fn clamp(x: Num, lo: Num, hi: Num) -> (y: Num)
    ensures
        y == spec_clamp(x, lo, hi),
{
    if x.lt(lo) {
        lo
    } else if hi.lt(x) {
        hi
    } else {
        x
    }
}

/// The channel `c` at intensity `i`: their product, cut off toward zero.
pub open spec fn spec_channel_intensity(c: u8, i: Num) -> u8 {
    Num::spec_from_int(c as int).spec_mul(i).spec_to_int(0, 255) as u8
}

/// The color `c` at intensity `i`: `i` is held to the range from 0 to 1,
/// each of blue, green and red is scaled by it, and alpha stays.
pub open spec fn spec_set_intensity(c: Color, i: Num) -> Color {
    let f = spec_clamp(i, Num::spec_zero(), Num::spec_from_int(1));
    Color {
        b: spec_channel_intensity(c.b, f),
        g: spec_channel_intensity(c.g, f),
        r: spec_channel_intensity(c.r, f),
        a: c.a,
    }
}

/// At an intensity of one or more, a color stays as it is.
pub proof fn lemma_full_intensity(c: Color, i: Num)
    requires
        Num::spec_from_int(1).spec_le(i),
    ensures
        spec_set_intensity(c, i) == c,
{
    let one = Num::spec_from_int(1);
    lemma_from_int_exact(1);
    let f = spec_clamp(i, Num::spec_zero(), one);
    assert(f == one) by {
        reveal(Num::spec_from_int);
        if !one.spec_lt(i) {
            assert(crate::math::order_key(i.bits) == crate::math::order_key(one.bits));
            assert(i.bits == one.bits);
        }
    }
    lemma_channel_at_one(c.b);
    lemma_channel_at_one(c.g);
    lemma_channel_at_one(c.r);
}

proof fn lemma_channel_at_one(c: u8)
    ensures
        spec_channel_intensity(c, Num::spec_from_int(1)) == c,
{
    lemma_from_int_exact(c as int);
    lemma_mul_one(Num::spec_from_int(c as int));
}

/// At an intensity of zero or less, or one that is no number, a color is
/// black; its alpha stays.
pub proof fn lemma_no_intensity(c: Color, i: Num)
    requires
        i.spec_le(Num::spec_zero()) || is_nan(i.bits),
    ensures
        spec_set_intensity(c, i) == (Color { b: 0, g: 0, r: 0, a: c.a }),
{
    let one = Num::spec_from_int(1);
    lemma_from_int_exact(1);
    let f = spec_clamp(i, Num::spec_zero(), one);
    assert(is_nan(f.bits) || is_zero(f.bits)) by {
        reveal(Num::spec_from_int);
    }
    lemma_channel_at_nothing(c.b, f);
    lemma_channel_at_nothing(c.g, f);
    lemma_channel_at_nothing(c.r, f);
}

proof fn lemma_channel_at_nothing(c: u8, f: Num)
    requires
        is_nan(f.bits) || is_zero(f.bits),
    ensures
        spec_channel_intensity(c, f) == 0,
{
    lemma_from_int_exact(c as int);
    let x = Num::spec_from_int(c as int);
    reveal(Num::spec_to_int);
    if is_nan(f.bits) {
        reveal(Num::spec_mul);
    } else {
        lemma_mul_zero(x, f);
        vstd::arithmetic::power2::lemma_pow2_pos(1074);
        vstd::arithmetic::div_mod::lemma_basic_div(0, vstd::arithmetic::power2::pow2(1074) as int);
    }
}

/// The channel `c` at intensity `i`.
fn set_channel_intensity(c: u8, i: Num) -> (scaled: u8)
    ensures
        scaled == spec_channel_intensity(c, i),
{
    Num::from_u8(c).mul(i).to_u8()
}

/// Dims the color `c` to intensity `i`, which is held to the range from
/// 0 to 1.
pub fn set_intensity(c: Color, i: Num) -> (dimmed: Color)
    ensures
        dimmed == spec_set_intensity(c, i),
        dimmed.a == c.a,
{
    let f = clamp(i, Num::zero(), Num::from_u8(1));
    Color {
        b: set_channel_intensity(c.b, f),
        g: set_channel_intensity(c.g, f),
        r: set_channel_intensity(c.r, f),
        a: c.a,
    }
}

/// Why a canvas of the requested size cannot be made.
#[derive(Clone, Copy, Debug, PartialEq, Eq, Structural)]
pub enum AllocationError {
    /// The width or the height is zero.
    ZeroSized,
    /// The pixels would take more bytes than one allocation can hold.
    TooLarge,
}

/// The number of bytes that one pixel takes in the buffer.
pub const BYTES_PER_PIXEL: usize = 4;

/// An owned grid of pixels, row-major, origin at the top left.
#[derive(Debug)]
pub struct Canvas {
    width: usize,
    height: usize,
    data: Vec<u32>,
}

impl View for Canvas {
    type V = Seq<Color>;

    /// The pixels in row-major order.
    closed spec fn view(&self) -> Seq<Color> {
        Seq::new(self.data@.len(), |i: int| Color::of_word(self.data@[i]))
    }
}

impl Canvas {
    /// Well-formedness: both dimensions are positive and the buffer holds
    /// exactly one word per pixel.
    pub closed spec fn wf(&self) -> bool {
        &&& self.width > 0
        &&& self.height > 0
        &&& Canvas::fits(self.width, self.height)
        &&& self.data@.len() == self.width * self.height
    }

    /// What well-formedness says of the model.
    pub proof fn lemma_wf(&self)
        requires
            self.wf(),
        ensures
            0 < self.spec_width() <= isize::MAX,
            0 < self.spec_height() <= isize::MAX,
            self@.len() == self.spec_width() * self.spec_height(),
            self.words().len() == self@.len(),
            forall|i: int| 0 <= i < self@.len() ==> #[trigger] self@[i] == Color::of_word(self.words()[i]),
    {
        lemma_factor_bounds(self.width as int, self.height as int, isize::MAX as int);
    }

    /// Whether the two canvases have the same dimensions.
    pub open spec fn same_size(&self, other: &Canvas) -> bool {
        self.spec_width() == other.spec_width() && self.spec_height() == other.spec_height()
    }

    /// Whether `self` is `before` with `color` written on exactly the pixels
    /// that `on` selects.
    pub open spec fn is_painted(
        &self,
        before: &Canvas,
        on: spec_fn(int, int) -> bool,
        color: Color,
    ) -> bool {
        &&& self.same_size(before)
        &&& forall|x: int, y: int|
            self.contains(x, y) ==> #[trigger] self.pixel(x, y) == if on(x, y) {
                color
            } else {
                before.pixel(x, y)
            }
    }

    /// The number of columns.
    pub closed spec fn spec_width(&self) -> nat {
        self.width as nat
    }

    /// The number of rows.
    pub closed spec fn spec_height(&self) -> nat {
        self.height as nat
    }

    /// The buffer as the display reads it: one word per pixel, row-major.
    pub closed spec fn words(&self) -> Seq<u32> {
        self.data@
    }

    /// Whether `(x, y)` names a pixel of this canvas.
    pub open spec fn contains(&self, x: int, y: int) -> bool {
        0 <= x < self.spec_width() && 0 <= y < self.spec_height()
    }

    /// The place of pixel `(x, y)` in the row-major buffer.
    pub open spec fn index_of(&self, x: int, y: int) -> int {
        x + self.spec_width() * y
    }

    /// The pixel at `(x, y)`.
    pub open spec fn pixel(&self, x: int, y: int) -> Color {
        self@[self.index_of(x, y)]
    }

    /// Whether a canvas of `width` by `height` pixels fits in one allocation.
    pub open spec fn fits(width: usize, height: usize) -> bool {
        BYTES_PER_PIXEL * (width * height) <= isize::MAX
    }

    /// Makes a canvas of `width` by `height` pixels, every channel zero.
    pub fn new(width: usize, height: usize) -> (made: Result<Canvas, AllocationError>)
        ensures
            match made {
                Ok(canvas) => {
                    &&& canvas.wf()
                    &&& width > 0 && height > 0 && Canvas::fits(width, height)
                    &&& canvas.spec_width() == width
                    &&& canvas.spec_height() == height
                    &&& canvas@.len() == width * height
                    &&& forall|i: int|
                        0 <= i < canvas@.len() ==> #[trigger] canvas@[i] == (Color {
                            b: 0,
                            g: 0,
                            r: 0,
                            a: 0,
                        })
                },
                Err(AllocationError::ZeroSized) => width == 0 || height == 0,
                Err(AllocationError::TooLarge) => width > 0 && height > 0 && !Canvas::fits(
                    width,
                    height,
                ),
            },
    {
        if width == 0 || height == 0 {
            return Err(AllocationError::ZeroSized);
        }
        let limit: usize = isize::MAX as usize / BYTES_PER_PIXEL;
        if width > limit / height {
            proof {
                lemma_product_exceeds(width as int, height as int, limit as int);
            }
            return Err(AllocationError::TooLarge);
        }
        proof {
            lemma_product_within(width as int, height as int, limit as int);
        }
        let data: Vec<u32> = vec![0u32; width * height];
        let canvas = Canvas { width, height, data };
        Ok(canvas)
    }

    /// The number of columns.
    pub fn width(&self) -> (w: usize)
        ensures
            w == self.spec_width(),
    {
        self.width
    }

    /// The number of rows.
    pub fn height(&self) -> (h: usize)
        ensures
            h == self.spec_height(),
    {
        self.height
    }

    /// The whole buffer, borrowed for reading: one word `0xAARRGGBB` per
    /// pixel, rows from top to bottom.
    pub fn data(&self) -> (words: &[u32])
        ensures
            words@ == self.words(),
    {
        self.data.as_slice()
    }

    /// Reads the pixel at `(x, y)`.
    pub fn get(&self, at: (usize, usize)) -> (pxl: Color)
        requires
            self.wf(),
            self.contains(at.0 as int, at.1 as int),
        ensures
            pxl == self.pixel(at.0 as int, at.1 as int),
    {
        proof {
            lemma_index_in_range(at.0 as int, at.1 as int, self.width as int, self.height as int);
        }
        Color::from_word(self.data[at.0 + self.width * at.1])
    }

    /// Writes `pxl` at `(x, y)` and leaves every other pixel as it was.
    pub fn set(&mut self, at: (usize, usize), pxl: Color)
        requires
            old(self).wf(),
            old(self).contains(at.0 as int, at.1 as int),
        ensures
            final(self).wf(),
            final(self).spec_width() == old(self).spec_width(),
            final(self).spec_height() == old(self).spec_height(),
            final(self)@ == old(self)@.update(old(self).index_of(at.0 as int, at.1 as int), pxl),
            final(self).pixel(at.0 as int, at.1 as int) == pxl,
            forall|x: int, y: int|
                final(self).contains(x, y) && (x, y) != (at.0 as int, at.1 as int)
                    ==> #[trigger] final(self).pixel(x, y) == old(self).pixel(x, y),
    {
        proof {
            lemma_index_in_range(at.0 as int, at.1 as int, self.width as int, self.height as int);
            Color::lemma_word_round_trip(pxl, 0);
        }
        let i: usize = at.0 + self.width * at.1;
        self.data.set(i, pxl.to_word());
        assert(self@ =~= old(self)@.update(i as int, pxl));
        assert forall|x: int, y: int|
            self.contains(x, y) && (x, y) != (at.0 as int, at.1 as int) implies #[trigger] self.pixel(
            x,
            y,
        ) == old(self).pixel(x, y) by {
            lemma_index_in_range(x, y, self.width as int, self.height as int);
            if x + self.width * y == at.0 + self.width * at.1 {
                lemma_index_injective(self.width as int, x, y, at.0 as int, at.1 as int);
            }
        }
    }

    /// Writes `pxl` on every pixel.
    pub fn fill(&mut self, pxl: Color)
        requires
            old(self).wf(),
        ensures
            final(self).wf(),
            final(self).same_size(old(self)),
            final(self)@.len() == old(self)@.len(),
            forall|i: int| 0 <= i < final(self)@.len() ==> #[trigger] final(self)@[i] == pxl,
            forall|x: int, y: int| final(self).contains(x, y) ==> #[trigger] final(self).pixel(x, y) == pxl,
    {
        let word: u32 = pxl.to_word();
        let n: usize = self.data.len();
        let mut i: usize = 0;
        proof {
            Color::lemma_word_round_trip(pxl, 0);
        }
        while i < n
            invariant
                self.wf(),
                self.same_size(old(self)),
                n == self.data@.len(),
                i <= n,
                word == pxl.word(),
                Color::of_word(word) == pxl,
                forall|j: int| 0 <= j < i ==> #[trigger] self.data@[j] == word,
            decreases n - i,
        {
            self.data.set(i, word);
            i = i + 1;
        }
        assert forall|x: int, y: int| self.contains(x, y) implies #[trigger] self.pixel(x, y)
            == pxl by {
            lemma_index_in_range(x, y, self.width as int, self.height as int);
        }
    }
}

/// A pixel inside a `w` by `h` grid has its row-major index inside the buffer.
pub proof fn lemma_index_in_range(x: int, y: int, w: int, h: int)
    requires
        0 <= x < w,
        0 <= y < h,
    ensures
        0 <= x + w * y < w * h,
        w * y <= w * (h - 1),
{
    assert(w * y <= w * (h - 1)) by (nonlinear_arith)
        requires
            0 <= y <= h - 1,
            0 < w,
    ;
    assert(w * (h - 1) == w * h - w) by (nonlinear_arith);
    assert(0 <= w * y) by (nonlinear_arith)
        requires
            0 <= y,
            0 < w,
    ;
}

/// Two pixels of a grid `w` wide with the same row-major index are the same.
pub proof fn lemma_index_injective(w: int, x: int, y: int, x2: int, y2: int)
    requires
        0 <= x < w,
        0 <= x2 < w,
        0 <= y,
        0 <= y2,
        x + w * y == x2 + w * y2,
    ensures
        x == x2,
        y == y2,
{
    if y < y2 {
        assert(w * y2 >= w * y + w) by (nonlinear_arith)
            requires
                y2 >= y + 1,
                w > 0,
        ;
    } else if y > y2 {
        assert(w * y >= w * y2 + w) by (nonlinear_arith)
            requires
                y >= y2 + 1,
                w > 0,
        ;
    }
}

/// Painting one set of pixels and then another, in the same color, paints
/// the pixels that are in either.
pub proof fn lemma_painted_again(
    before: &Canvas,
    middle: &Canvas,
    after: &Canvas,
    first: spec_fn(int, int) -> bool,
    second: spec_fn(int, int) -> bool,
    both: spec_fn(int, int) -> bool,
    color: Color,
)
    requires
        middle.is_painted(before, first, color),
        after.is_painted(middle, second, color),
        forall|x: int, y: int| #[trigger] both(x, y) == (first(x, y) || second(x, y)),
    ensures
        after.is_painted(before, both, color),
{
    assert forall|x: int, y: int| after.contains(x, y) implies #[trigger] after.pixel(x, y) == if both(
        x,
        y,
    ) {
        color
    } else {
        before.pixel(x, y)
    } by {
        assert(both(x, y) == (first(x, y) || second(x, y)));
        assert(middle.contains(x, y));
        assert(middle.pixel(x, y) == if first(x, y) {
            color
        } else {
            before.pixel(x, y)
        });
    }
}

proof fn lemma_factor_bounds(w: int, h: int, limit: int)
    requires
        w > 0,
        h > 0,
        BYTES_PER_PIXEL * (w * h) <= limit,
    ensures
        w <= limit,
        h <= limit,
{
    assert(w * h >= w && w * h >= h) by (nonlinear_arith)
        requires
            w > 0,
            h > 0,
    ;
}

proof fn lemma_product_exceeds(w: int, h: int, limit: int)
    requires
        h > 0,
        limit >= 0,
        w > limit / h,
    ensures
        w * h > limit,
{
    vstd::arithmetic::div_mod::lemma_fundamental_div_mod(limit, h);
    vstd::arithmetic::div_mod::lemma_mod_bound(limit, h);
    assert(w * h > limit) by (nonlinear_arith)
        requires
            h > 0,
            limit >= 0,
            w >= limit / h + 1,
            limit == h * (limit / h) + limit % h,
            0 <= limit % h < h,
    ;
}

proof fn lemma_product_within(w: int, h: int, limit: int)
    requires
        h > 0,
        w >= 0,
        limit >= 0,
        w <= limit / h,
    ensures
        w * h <= limit,
{
    vstd::arithmetic::div_mod::lemma_fundamental_div_mod(limit, h);
    vstd::arithmetic::div_mod::lemma_mod_bound(limit, h);
    assert(w * h <= limit) by (nonlinear_arith)
        requires
            h > 0,
            w >= 0,
            w <= limit / h,
            limit == h * (limit / h) + limit % h,
            0 <= limit % h < h,
    ;
}

} // verus!
