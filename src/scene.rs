use vstd::prelude::*;
use crate::raster::{blitted, draw_rectangle, draw_sprite, filled};

verus! {

/// Width of the frame, in pixels.
pub const WIDTH: usize = 240;
/// Height of the frame, in pixels.
pub const HEIGHT: usize = 160;
/// How many screen pixels wide and high each frame pixel is shown.
pub const SCALE: usize = 5;
/// Frames per second that the loop aims for.
pub const FPS: u32 = 24;
/// Side of the square test sprite, in pixels.
pub const TILE_SIZE: usize = 8;
/// Color the frame is cleared to before drawing.
pub const BACKGROUND: u32 = 0xFF18_1818;
/// Row at which the test sprite's top-left pixel is drawn.
pub const TILE_Y: usize = 155;
/// Column at which the test sprite's top-left pixel is drawn.
pub const TILE_X: usize = 10;

/// Pixel `i` of the test sprite, row-major: red, with four marked pixels.
pub open spec fn tile_pixel(i: int) -> u32 {
    if i == 27 {
        0xFF00_FFFFu32
    } else if i == 30 || i == 36 || i == 60 {
        0xFFFF_00FFu32
    } else {
        0xFF00_00FFu32
    }
}

/// The test sprite, `TILE_SIZE` x `TILE_SIZE` pixels in row-major order.
pub open spec fn tile() -> Seq<u32> {
    Seq::new((TILE_SIZE * TILE_SIZE) as nat, |i: int| tile_pixel(i))
}

/// The frame that `update` draws over the buffer `s`.
pub open spec fn frame(s: Seq<u32>) -> Seq<u32> {
    blitted(
        filled(s, WIDTH as nat, 0, 0, HEIGHT as int, WIDTH as int, BACKGROUND),
        WIDTH as nat,
        tile(),
        TILE_SIZE as nat,
        TILE_SIZE as nat,
        TILE_Y as int,
        TILE_X as int,
    )
}

/// Builds the pixels of the test sprite.
pub fn test_tile() -> (r: Vec<u32>)
    ensures
        r@ == tile(),
{
    let n: usize = TILE_SIZE * TILE_SIZE;
    let mut v: Vec<u32> = Vec::with_capacity(n);
    let mut i: usize = 0;
    while i < n
        invariant
            n == TILE_SIZE * TILE_SIZE,
            i <= n,
            v@.len() == i,
            forall|k: int| 0 <= k < i ==> #[trigger] v@[k] == tile_pixel(k),
        decreases n - i,
    {
        let p: u32 = if i == 27 {
            0xFF00_FFFF
        } else if i == 30 || i == 36 || i == 60 {
            0xFFFF_00FF
        } else {
            0xFF00_00FF
        };
        v.push(p);
        i = i + 1;
    }
    assert(v@ =~= tile());
    v
}

/// Draws one frame: clears the whole `WIDTH` x `HEIGHT` buffer to
/// `BACKGROUND`, then draws the test sprite at (`TILE_Y`, `TILE_X`).
pub fn update(buffer: &mut [u32])
    requires
        old(buffer)@.len() == WIDTH * HEIGHT,
    ensures
        final(buffer)@ == frame(old(buffer)@),
{
    draw_rectangle(buffer, WIDTH, HEIGHT, 0, 0, HEIGHT, WIDTH, BACKGROUND);
    let sprite = test_tile();
    draw_sprite(buffer, WIDTH, HEIGHT, sprite.as_slice(), TILE_SIZE, TILE_SIZE, TILE_Y, TILE_X);
}

} // verus!
