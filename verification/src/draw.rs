//! The draw list of one composed frame.

use vstd::prelude::*;

use crate::geometry::{
    clip_rect_to_output_extent, intersection, output_rect, Extent2D, Rect2D,
};
use crate::scene_diff::SourceRect;

verus! {

/// A clear colour, eight bits per channel.
#[derive(Clone, Copy, Debug, PartialEq, Eq, Structural)]
pub struct Rgba {
    pub r: u8,
    pub g: u8,
    pub b: u8,
    pub a: u8,
}

/// Opaque black, which a frame is cleared to.
pub open spec fn black() -> Rgba {
    Rgba { r: 0, g: 0, b: 0, a: 255 }
}

/// Whether every channel is zero.
pub fn all_zero(c: Rgba) -> (r: bool)
    ensures
        r == (c.r == 0 && c.g == 0 && c.b == 0 && c.a == 0),
{
    c.r == 0 && c.g == 0 && c.b == 0 && c.a == 0
}

/// One textured quad: where it lands on the output and what it samples.
#[derive(Clone, Copy, Debug)]
pub struct CompositeDraw {
    /// Sample-side image view; zero is the null handle.
    pub image_view: u64,
    /// Destination, output-local.
    pub dst: Rect2D,
    pub source: SourceRect,
    /// Blend over the layer below instead of overwriting it.
    pub alpha_passthrough: bool,
}

/// The draws of a frame, bottom to top, over a clear colour.
#[derive(Debug)]
pub struct CompositeScene {
    pub bg_color: Rgba,
    pub draws: Vec<CompositeDraw>,
}

/// Whether a draw has a destination at all.
pub open spec fn draw_lands(d: CompositeDraw) -> bool {
    d.dst.non_empty()
}

/// A draw's destination rect, `None` when it has no pixel.
pub fn draw_dst_rect(d: &CompositeDraw) -> (r: Option<Rect2D>)
    ensures
        r == (if draw_lands(*d) { Some(d.dst) } else { None }),
{
    if d.dst.is_empty() { None } else { Some(d.dst) }
}

/// The pixels of the output that a draw lands on, counted.
pub open spec fn landed_pixels(d: CompositeDraw, ext: Extent2D) -> nat {
    match intersection(d.dst, output_rect(ext)) {
        Some(c) => (c.extent.width * c.extent.height) as nat,
        None => 0,
    }
}

/// How many pixels a list of draws paints on an output, each as often as it is
/// painted.
pub open spec fn drawn_pixels(draws: Seq<CompositeDraw>, ext: Extent2D) -> nat
    decreases draws.len(),
{
    if draws.len() == 0 {
        0
    } else {
        drawn_pixels(draws.drop_last(), ext) + landed_pixels(draws.last(), ext)
    }
}

/// How many pixels a list of draws paints on an output, each as often as it is
/// painted. Over the output's area this is the overdraw.
pub fn scene_draw_pixels(draws: &[CompositeDraw], ext: Extent2D) -> (n: u128)
    ensures
        n == drawn_pixels(draws@, ext),
{
    let mut n: u128 = 0;
    let mut i: usize = 0;
    assert(draws@.take(0) =~= Seq::empty());
    while i < draws.len()
        invariant
            i <= draws@.len(),
            n == drawn_pixels(draws@.take(i as int), ext),
            n <= i * 0xffff_fffe_0000_0001,
        decreases draws@.len() - i,
    {
        assert(draws@.take(i + 1).drop_last() =~= draws@.take(i as int));
        if let Some(c) = clip_rect_to_output_extent(draws[i].dst, ext) {
            let w = c.extent.width as u128;
            let h = c.extent.height as u128;
            assert(w * h <= 0xffff_fffe_0000_0001) by (nonlinear_arith)
                requires
                    w <= 0xffff_ffff,
                    h <= 0xffff_ffff,
            ;
            n = n + w * h;
        }
        i = i + 1;
    }
    assert(draws@.take(i as int) =~= draws@);
    n
}

} // verus!
