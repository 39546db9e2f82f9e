//! The text overlay: the coverage samples of rasterized glyphs, written to
//! the canvas as shades of gray.

use vstd::prelude::*;
use crate::canvas::{Canvas, Color};
use crate::single::Single;

verus! {

/// The gray of level `n`: every channel, alpha too, is `n`.
pub open spec fn spec_gray(n: u8) -> Color {
    Color { b: n, g: n, r: n, a: n }
}

/// The level of gray that a coverage stands for: 255 times the coverage,
/// cut off toward zero.
pub open spec fn spec_coverage_level(coverage: Single) -> u8 {
    Single::spec_from_int(255).spec_mul(coverage).spec_to_int(0, 255) as u8
}

/// The gray that a coverage stands for.
pub fn coverage_color(coverage: Single) -> (color: Color)
    ensures
        color == spec_gray(spec_coverage_level(coverage)),
{
    let n: u8 = Single::from_u32(255).mul(coverage).to_u8();
    Color { b: n, g: n, r: n, a: n }
}

/// Where on the canvas the sample `at` of a glyph lies, whose bounding box
/// has its least corner at `corner`, in a font of the given ascent: across,
/// the corner's `x` plus the sample's; down, the ascent plus the corner's
/// `y` plus the sample's; each sum cut off toward zero, and at zero.
pub open spec fn spec_sample_place(corner: (i32, i32), ascent: Single, at: (u32, u32)) -> (int, int) {
    (
        Single::spec_from_int(corner.0 as int).spec_add(
            Single::spec_from_int(at.0 as int),
        ).spec_to_int(0, usize::MAX as int),
        ascent.spec_add(Single::spec_from_int(corner.1 as int)).spec_add(
            Single::spec_from_int(at.1 as int),
        ).spec_to_int(0, usize::MAX as int),
    )
}

/// Where on the canvas the sample `at` of a glyph lies.
pub fn sample_place(corner: (i32, i32), ascent: Single, at: (u32, u32)) -> (place: (usize, usize))
    ensures
        (place.0 as int, place.1 as int) == spec_sample_place(corner, ascent, at),
{
    (
        Single::from_i32(corner.0).add(Single::from_u32(at.0)).to_usize(),
        ascent.add(Single::from_i32(corner.1)).add(Single::from_u32(at.1)).to_usize(),
    )
}

/// Writes one coverage sample of a glyph to the canvas, as the gray that
/// it stands for.
pub fn draw_coverage(
    canvas: &mut Canvas,
    corner: (i32, i32),
    ascent: Single,
    at: (u32, u32),
    coverage: Single,
)
    requires
        old(canvas).wf(),
        old(canvas).contains(
            spec_sample_place(corner, ascent, at).0,
            spec_sample_place(corner, ascent, at).1,
        ),
    ensures
        final(canvas).wf(),
        final(canvas).is_painted(
            old(canvas),
            |x: int, y: int| (x, y) == spec_sample_place(corner, ascent, at),
            spec_gray(spec_coverage_level(coverage)),
        ),
{
    let place = sample_place(corner, ascent, at);
    canvas.set(place, coverage_color(coverage));
}

/// Writes one coverage sample of a glyph to the canvas if its place is on
/// the canvas, and says whether it did.
pub fn try_draw_coverage(
    canvas: &mut Canvas,
    corner: (i32, i32),
    ascent: Single,
    at: (u32, u32),
    coverage: Single,
) -> (drawn: bool)
    requires
        old(canvas).wf(),
    ensures
        final(canvas).wf(),
        drawn == old(canvas).contains(
            spec_sample_place(corner, ascent, at).0,
            spec_sample_place(corner, ascent, at).1,
        ),
        drawn ==> final(canvas).is_painted(
            old(canvas),
            |x: int, y: int| (x, y) == spec_sample_place(corner, ascent, at),
            spec_gray(spec_coverage_level(coverage)),
        ),
        !drawn ==> *final(canvas) == *old(canvas),
{
    let place = sample_place(corner, ascent, at);
    if place.0 < canvas.width() && place.1 < canvas.height() {
        canvas.set(place, coverage_color(coverage));
        true
    } else {
        false
    }
}

} // verus!
