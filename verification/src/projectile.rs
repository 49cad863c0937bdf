use crate::canvas::{blank_grid, canvas_to_ppm, ppm_text, Canvas};
use crate::colors::Color;
use vstd::prelude::*;

verus! {

/// Pure red: the red channel is the pattern of 1.0, the others of +0.0.
pub open spec fn spec_red() -> Color {
    Color { red: 0x3ff0_0000_0000_0000, green: 0, blue: 0 }
}

/// The width of the demo's canvas.
pub const TRACK_WIDTH: usize = 900;

/// The height of the demo's canvas.
pub const TRACK_HEIGHT: usize = 550;

/// One trajectory sample painted onto a grid.  The sample carries rounded
/// simulation coordinates, with y growing upward from the ground, so the
/// canvas row is the flipped `height - y`.  A sample whose flipped row or
/// column misses the canvas is silently dropped.
pub open spec fn plot_one(
    width: int,
    height: int,
    grid: Seq<Color>,
    p: (usize, usize),
    color: Color,
) -> Seq<Color> {
    let x = p.0 as int;
    let y = p.1 as int;
    if 1 <= y <= height && x < width {
        grid.update((height - y) * width + x, color)
    } else {
        grid
    }
}

/// A grid after the trajectory samples from index `i` on are painted, in
/// order.
pub open spec fn plotted_from(
    width: int,
    height: int,
    grid: Seq<Color>,
    track: Seq<(usize, usize)>,
    i: int,
) -> Seq<Color>
    decreases track.len() - i,
{
    if i < 0 || i >= track.len() {
        grid
    } else {
        plotted_from(width, height, plot_one(width, height, grid, track[i], spec_red()), track, i + 1)
    }
}

/// Render the projectile demo's image: paint the given trajectory in red
/// onto a 900 by 550 canvas that starts black, then serialize it to PPM
/// text.
///
/// The physics runs with the caller, which floats a projectile under gravity
/// and wind and hands in one sample per tick: the position's x and y, each
/// rounded to the nearest whole pixel, with y measured upward from the
/// ground.  Painting flips y into a canvas row and drops every sample that
/// misses the canvas.
pub fn ch2(track: &Vec<(usize, usize)>) -> (r: String)
    ensures
        r@ == ppm_text(
            TRACK_WIDTH as int,
            TRACK_HEIGHT as int,
            plotted_from(
                TRACK_WIDTH as int,
                TRACK_HEIGHT as int,
                blank_grid((TRACK_WIDTH * TRACK_HEIGHT) as nat),
                track@,
                0,
            ),
        ),
{
    let mut c = Canvas::new(TRACK_WIDTH, TRACK_HEIGHT);
    let ghost w = TRACK_WIDTH as int;
    let ghost h = TRACK_HEIGHT as int;
    let ghost start = blank_grid((TRACK_WIDTH * TRACK_HEIGHT) as nat);
    let mut i: usize = 0;
    while i < track.len()
        invariant
            c.wf(),
            c.width == TRACK_WIDTH,
            c.height == TRACK_HEIGHT,
            w == TRACK_WIDTH as int,
            h == TRACK_HEIGHT as int,
            start == blank_grid((TRACK_WIDTH * TRACK_HEIGHT) as nat),
            i <= track@.len(),
            plotted_from(w, h, start, track@, 0) == plotted_from(w, h, c.pixels@, track@, i as int),
        decreases track@.len() - i,
    {
        let ghost before = c.pixels@;
        let p = track[i];
        let x = p.0;
        let y = p.1;
        if y >= 1 && y <= TRACK_HEIGHT {
            let row: usize = TRACK_HEIGHT - y;
            c.write_pixel(x, row, Color { red: 0x3ff0_0000_0000_0000, green: 0, blue: 0 });
        }
        proof {
            assert(c.pixels@ == plot_one(w, h, before, track@[i as int], spec_red()));
        }
        i = i + 1;
    }
    canvas_to_ppm(&c)
}

} // verus!
