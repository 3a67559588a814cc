use vstd::prelude::*;
use vstd::arithmetic::div_mod::{
    lemma_fundamental_div_mod,
    lemma_fundamental_div_mod_converse,
    lemma_mod_pos_bound,
    lemma_multiply_divide_lt,
};

verus! {

/// Whether the pixel at (`row`, `col`) lies in the rectangle whose top-left
/// corner is (`y`, `x`) and which spans `sy` rows and `sx` columns.
pub open spec fn in_rect(row: int, col: int, y: int, x: int, sy: int, sx: int) -> bool {
    y <= row < y + sy && x <= col < x + sx
}

/// The row-major buffer `s`, `width` pixels wide, after every pixel of the
/// rectangle at (`y`, `x`) of size `sy` x `sx` has been set to `color`.
/// Pixels of the rectangle that fall outside the buffer have no index here,
/// so the rectangle is clipped to the buffer.
pub open spec fn filled(s: Seq<u32>, width: nat, y: int, x: int, sy: int, sx: int, color: u32) -> Seq<u32> {
    Seq::new(
        s.len(),
        |i: int|
            if in_rect(i / width as int, i % width as int, y, x, sy, sx) {
                color
            } else {
                s[i]
            },
    )
}

/// The row-major buffer `s`, `width` pixels wide, after the row-major sprite
/// `sprite` (`sy` rows of `sx` pixels) has been copied with its top-left pixel
/// at (`py`, `px`). Sprite pixels whose destination is outside the buffer are dropped.
pub open spec fn blitted(s: Seq<u32>, width: nat, sprite: Seq<u32>, sy: nat, sx: nat, py: int, px: int) -> Seq<u32> {
    Seq::new(
        s.len(),
        |i: int|
            if in_rect(i / width as int, i % width as int, py, px, sy as int, sx as int) {
                sprite[(i / width as int - py) * sx + (i % width as int - px)]
            } else {
                s[i]
            },
    )
}

/// Row `r` of a buffer, given as `row`, after the rectangle at (`y`, `x`) of
/// size `sy` x `sx` has been filled with `color`.
pub open spec fn filled_row(row: Seq<u32>, r: int, y: int, x: int, sy: int, sx: int, color: u32) -> Seq<u32> {
    Seq::new(row.len(), |c: int| if in_rect(r, c, y, x, sy, sx) { color } else { row[c] })
}

/// Row `r` of a buffer, given as `row`, after the sprite `sprite` of `sy` x
/// `sx` pixels has been copied with its top-left pixel at (`py`, `px`).
pub open spec fn blitted_row(row: Seq<u32>, r: int, sprite: Seq<u32>, sy: nat, sx: nat, py: int, px: int) -> Seq<u32> {
    Seq::new(
        row.len(),
        |c: int|
            if in_rect(r, c, py, px, sy as int, sx as int) {
                sprite[(r - py) * sx + (c - px)]
            } else {
                row[c]
            },
    )
}

/// Pixel (`r`, `c`) of a grid `w` columns wide and `h` rows high has index
/// `r * w + c`, which lies inside the grid and maps back to `r` and `c`.
proof fn lemma_cell(w: int, h: int, r: int, c: int)
    requires
        0 <= r < h,
        0 <= c < w,
    ensures
        0 <= r * w + c < w * h,
        (r * w + c) / w == r,
        (r * w + c) % w == c,
{
    assert(0 <= r * w + c < w * h) by (nonlinear_arith)
        requires
            0 <= r < h,
            0 <= c < w,
    ;
    lemma_fundamental_div_mod_converse(r * w + c, w, r, c);
}

/// Every index of a grid `w` columns wide and `h` rows high names one row
/// and one column inside the grid.
proof fn lemma_split(w: int, h: int, i: int)
    requires
        0 < w,
        0 <= i < w * h,
    ensures
        0 <= i / w < h,
        0 <= i % w < w,
        i == (i / w) * w + i % w,
{
    lemma_fundamental_div_mod(i, w);
    lemma_mod_pos_bound(i, w);
    lemma_multiply_divide_lt(i, w, h);
    assert(0 <= i / w) by (nonlinear_arith)
        requires
            0 < w,
            0 <= i,
            i == w * (i / w) + i % w,
            i % w < w,
    ;
    assert(i == (i / w) * w + i % w) by (nonlinear_arith)
        requires
            i == w * (i / w) + i % w,
    ;
}

/// Where pixel (`r`, `c`) of the buffer lies under the sprite, `blitted` takes
/// it from the sprite pixel at (`r - py`, `c - px`), whose index is in range.
proof fn lemma_sprite_cell(s: Seq<u32>, w: nat, h: nat, sprite: Seq<u32>, sy: nat, sx: nat, py: int, px: int, r: int, c: int)
    requires
        s.len() == w * h,
        sprite.len() == sy * sx,
        0 <= r < h,
        0 <= c < w,
        0 <= py <= r < py + sy,
        0 <= px <= c < px + sx,
    ensures
        0 <= (r - py) * sx + (c - px) < sprite.len(),
        blitted(s, w, sprite, sy, sx, py, px)[r * w + c] == sprite[(r - py) * sx + (c - px)],
{
    lemma_cell(w as int, h as int, r, c);
    lemma_cell(sx as int, sy as int, r - py, c - px);
    assert(sx * sy == sy * sx) by (nonlinear_arith);
}

/// Filling a rectangle sets each in-buffer pixel (`r`, `c`) of the rectangle
/// to `color` and leaves every other pixel of the buffer as it was.
pub proof fn lemma_fill_pixel(s: Seq<u32>, w: nat, h: nat, y: int, x: int, sy: int, sx: int, color: u32, r: int, c: int)
    requires
        s.len() == w * h,
        0 <= r < h,
        0 <= c < w,
    ensures
        filled(s, w, y, x, sy, sx, color)[r * w + c] == if in_rect(r, c, y, x, sy, sx) {
            color
        } else {
            s[r * w + c]
        },
{
    lemma_cell(w as int, h as int, r, c);
}

/// Blitting a sprite copies sprite pixel (`r - py`, `c - px`) to each buffer
/// pixel (`r`, `c`) that it covers, and leaves every other pixel as it was.
pub proof fn lemma_blit_pixel(s: Seq<u32>, w: nat, h: nat, sprite: Seq<u32>, sy: nat, sx: nat, py: int, px: int, r: int, c: int)
    requires
        s.len() == w * h,
        sprite.len() == sy * sx,
        0 <= r < h,
        0 <= c < w,
    ensures
        blitted(s, w, sprite, sy, sx, py, px)[r * w + c] == if in_rect(r, c, py, px, sy as int, sx as int) {
            sprite[(r - py) * sx + (c - px)]
        } else {
            s[r * w + c]
        },
{
    lemma_cell(w as int, h as int, r, c);
}

/// Filling the same rectangle with the same color a second time changes nothing.
pub proof fn lemma_fill_idempotent(s: Seq<u32>, w: nat, y: int, x: int, sy: int, sx: int, color: u32)
    ensures
        filled(filled(s, w, y, x, sy, sx, color), w, y, x, sy, sx, color) == filled(s, w, y, x, sy, sx, color),
{
    assert(filled(filled(s, w, y, x, sy, sx, color), w, y, x, sy, sx, color) =~= filled(s, w, y, x, sy, sx, color));
}

/// A rectangle whose top-left corner lies at or past the last row or the last
/// column of a `w` x `h` buffer leaves the buffer unchanged.
pub proof fn lemma_fill_outside(s: Seq<u32>, w: nat, h: nat, y: int, x: int, sy: int, sx: int, color: u32)
    requires
        s.len() == w * h,
        y >= h || x >= w,
    ensures
        filled(s, w, y, x, sy, sx, color) == s,
{
    assert forall|i: int| 0 <= i < s.len() implies #[trigger] filled(s, w, y, x, sy, sx, color)[i] == s[i] by {
        lemma_split(w as int, h as int, i);
    }
    assert(filled(s, w, y, x, sy, sx, color) =~= s);
}

/// A sprite whose destination origin lies at or past the last row or the last
/// column of a `w` x `h` buffer leaves the buffer unchanged.
pub proof fn lemma_blit_outside(s: Seq<u32>, w: nat, h: nat, sprite: Seq<u32>, sy: nat, sx: nat, py: int, px: int)
    requires
        s.len() == w * h,
        py >= h || px >= w,
    ensures
        blitted(s, w, sprite, sy, sx, py, px) == s,
{
    assert forall|i: int| 0 <= i < s.len() implies #[trigger] blitted(s, w, sprite, sy, sx, py, px)[i] == s[i] by {
        lemma_split(w as int, h as int, i);
    }
    assert(blitted(s, w, sprite, sy, sx, py, px) =~= s);
}

/// Filling a buffer row by row with `fill_row` gives, on each row, what
/// filling the whole buffer at once gives.
pub proof fn lemma_fill_by_rows(s: Seq<u32>, w: nat, h: nat, y: int, x: int, sy: int, sx: int, color: u32, r: int)
    requires
        s.len() == w * h,
        0 <= r < h,
    ensures
        filled(s, w, y, x, sy, sx, color).subrange(r * w, r * w + w) == filled_row(s.subrange(r * w, r * w + w), r, y, x, sy, sx, color),
{
    assert(0 <= r * w && r * w + w <= w * h) by (nonlinear_arith)
        requires
            0 <= r < h,
    ;
    assert forall|c: int| 0 <= c < w implies #[trigger] filled(s, w, y, x, sy, sx, color).subrange(r * w, r * w + w)[c] == filled_row(s.subrange(r * w, r * w + w), r, y, x, sy, sx, color)[c] by {
        lemma_cell(w as int, h as int, r, c);
    }
    assert(filled(s, w, y, x, sy, sx, color).subrange(r * w, r * w + w) =~= filled_row(s.subrange(r * w, r * w + w), r, y, x, sy, sx, color));
}

/// Blitting into a buffer row by row with `blit_row` gives, on each row, what
/// blitting into the whole buffer at once gives.
pub proof fn lemma_blit_by_rows(s: Seq<u32>, w: nat, h: nat, sprite: Seq<u32>, sy: nat, sx: nat, py: int, px: int, r: int)
    requires
        s.len() == w * h,
        0 <= r < h,
    ensures
        blitted(s, w, sprite, sy, sx, py, px).subrange(r * w, r * w + w) == blitted_row(s.subrange(r * w, r * w + w), r, sprite, sy, sx, py, px),
{
    assert(0 <= r * w && r * w + w <= w * h) by (nonlinear_arith)
        requires
            0 <= r < h,
    ;
    assert forall|c: int| 0 <= c < w implies #[trigger] blitted(s, w, sprite, sy, sx, py, px).subrange(r * w, r * w + w)[c] == blitted_row(s.subrange(r * w, r * w + w), r, sprite, sy, sx, py, px)[c] by {
        lemma_cell(w as int, h as int, r, c);
    }
    assert(blitted(s, w, sprite, sy, sx, py, px).subrange(r * w, r * w + w) =~= blitted_row(s.subrange(r * w, r * w + w), r, sprite, sy, sx, py, px));
}

/// Fills the part of row `row_index`, held in `row`, that the rectangle at
/// (`y`, `x`) of `size_y` rows and `size_x` columns covers. Rows are
/// independent, so each can be filled by its own worker.
pub fn fill_row(row: &mut [u32], row_index: usize, y: usize, x: usize, size_y: usize, size_x: usize, color: u32)
    ensures
        final(row)@ == filled_row(old(row)@, row_index as int, y as int, x as int, size_y as int, size_x as int, color),
{
    let ghost s0 = row@;
    let width: usize = row.len();
    if row_index < y || row_index - y >= size_y || x >= width {
        assert(row@ =~= filled_row(s0, row_index as int, y as int, x as int, size_y as int, size_x as int, color));
        return;
    }
    let x_end: usize = if size_x < width - x { x + size_x } else { width };
    let mut c: usize = x;
    while c < x_end
        invariant
            x <= c <= x_end <= width,
            x_end as int == x + size_x || x_end == width,
            x_end <= x + size_x,
            y <= row_index < y + size_y,
            width == s0.len(),
            row@.len() == s0.len(),
            forall|i: int|
                0 <= i < s0.len() ==> #[trigger] row@[i] == if x <= i < c { color } else { s0[i] },
        decreases x_end - c,
    {
        row[c] = color;
        c = c + 1;
    }
    assert(row@ =~= filled_row(s0, row_index as int, y as int, x as int, size_y as int, size_x as int, color));
}

/// Copies into row `row_index`, held in `row`, the sprite pixels that land on
/// it when the sprite of `sprite_size_y` x `sprite_size_x` pixels is placed
/// with its top-left pixel at (`pos_y`, `pos_x`).
pub fn blit_row(
    row: &mut [u32],
    row_index: usize,
    sprite: &[u32],
    sprite_size_y: usize,
    sprite_size_x: usize,
    pos_y: usize,
    pos_x: usize,
)
    requires
        sprite@.len() == sprite_size_y * sprite_size_x,
    ensures
        final(row)@ == blitted_row(old(row)@, row_index as int, sprite@, sprite_size_y as nat, sprite_size_x as nat, pos_y as int, pos_x as int),
{
    let ghost s0 = row@;
    let ghost out = blitted_row(s0, row_index as int, sprite@, sprite_size_y as nat, sprite_size_x as nat, pos_y as int, pos_x as int);
    let width: usize = row.len();
    if row_index < pos_y || row_index - pos_y >= sprite_size_y || pos_x >= width {
        assert(row@ =~= out);
        return;
    }
    let sy: usize = row_index - pos_y;
    let x_end: usize = if sprite_size_x < width - pos_x { pos_x + sprite_size_x } else { width };
    let m: usize = sprite.len();
    let mut c: usize = pos_x;
    while c < x_end
        invariant
            pos_x <= c <= x_end <= width,
            x_end as int == pos_x + sprite_size_x || x_end == width,
            x_end <= pos_x + sprite_size_x,
            pos_y <= row_index < pos_y + sprite_size_y,
            sy == row_index - pos_y,
            sprite@.len() == sprite_size_y * sprite_size_x,
            m == sprite@.len(),
            out == blitted_row(s0, row_index as int, sprite@, sprite_size_y as nat, sprite_size_x as nat, pos_y as int, pos_x as int),
            width == s0.len(),
            row@.len() == s0.len(),
            forall|i: int|
                0 <= i < s0.len() ==> #[trigger] row@[i] == if pos_x <= i < c { out[i] } else { s0[i] },
        decreases x_end - c,
    {
        proof {
            lemma_cell(sprite_size_x as int, sprite_size_y as int, sy as int, c - pos_x);
            assert(sprite_size_x * sprite_size_y == sprite_size_y * sprite_size_x) by (nonlinear_arith);
        }
        let j: usize = sy * sprite_size_x + (c - pos_x);
        row[c] = sprite[j];
        c = c + 1;
    }
    assert(row@ =~= out);
}

/// Sets every pixel of the rectangle at (`y`, `x`) of `size_y` rows and
/// `size_x` columns to `color`, in a row-major buffer of `width` x `height`
/// pixels. Parts of the rectangle outside the buffer are skipped.
pub fn draw_rectangle(
    buffer: &mut [u32],
    width: usize,
    height: usize,
    y: usize,
    x: usize,
    size_y: usize,
    size_x: usize,
    color: u32,
)
    requires
        old(buffer)@.len() == width * height,
    ensures
        final(buffer)@ == filled(old(buffer)@, width as nat, y as int, x as int, size_y as int, size_x as int, color),
{
    let ghost s0 = buffer@;
    let ghost w = width as int;
    let ghost h = height as int;
    if y >= height || x >= width {
        proof {
            lemma_fill_outside(s0, width as nat, height as nat, y as int, x as int, size_y as int, size_x as int, color);
        }
        return;
    }
    let y_end: usize = if size_y < height - y { y + size_y } else { height };
    let x_end: usize = if size_x < width - x { x + size_x } else { width };
    let n: usize = buffer.len();
    let mut r: usize = y;
    while r < y_end
        invariant
            y <= r <= y_end <= height,
            x <= x_end <= width,
            y_end as int == y + size_y || y_end == height,
            x_end as int == x + size_x || x_end == width,
            y_end <= y + size_y,
            x_end <= x + size_x,
            s0.len() == w * h,
            n == s0.len(),
            w == width,
            h == height,
            buffer@.len() == s0.len(),
            forall|i: int|
                0 <= i < s0.len() ==> #[trigger] buffer@[i] == if in_rect(i / w, i % w, y as int, x as int, size_y as int, size_x as int) && i / w < r {
                    color
                } else {
                    s0[i]
                },
        decreases y_end - r,
    {
        let mut c: usize = x;
        while c < x_end
            invariant
                y <= r < y_end <= height,
                x <= c <= x_end <= width,
                x_end as int == x + size_x || x_end == width,
                x_end <= x + size_x,
                y_end <= y + size_y,
                s0.len() == w * h,
                n == s0.len(),
                w == width,
                h == height,
                buffer@.len() == s0.len(),
                forall|i: int|
                    0 <= i < s0.len() ==> #[trigger] buffer@[i] == if in_rect(i / w, i % w, y as int, x as int, size_y as int, size_x as int) && (i / w < r || (i / w == r && i % w < c)) {
                        color
                    } else {
                        s0[i]
                    },
            decreases x_end - c,
        {
            proof {
                lemma_cell(w, h, r as int, c as int);
            }
            let k: usize = r * width + c;
            let ghost prev = buffer@;
            buffer[k] = color;
            proof {
                assert forall|i: int| 0 <= i < s0.len() implies #[trigger] buffer@[i] == if in_rect(i / w, i % w, y as int, x as int, size_y as int, size_x as int) && (i / w < r || (i / w == r && i % w < c + 1)) {
                    color
                } else {
                    s0[i]
                } by {
                    lemma_split(w, h, i);
                    if i != k {
                        assert(buffer@[i] == prev[i]);
                        assert(!(i / w == r && i % w == c));
                    }
                }
            }
            c = c + 1;
        }
        proof {
            assert forall|i: int| 0 <= i < s0.len() implies #[trigger] buffer@[i] == if in_rect(i / w, i % w, y as int, x as int, size_y as int, size_x as int) && i / w < r + 1 {
                color
            } else {
                s0[i]
            } by {
                lemma_split(w, h, i);
            }
        }
        r = r + 1;
    }
    assert forall|i: int| 0 <= i < s0.len() implies #[trigger] buffer@[i] == filled(s0, width as nat, y as int, x as int, size_y as int, size_x as int, color)[i] by {
        lemma_split(w, h, i);
    }
    assert(buffer@ =~= filled(s0, width as nat, y as int, x as int, size_y as int, size_x as int, color));
}

/// Copies the row-major sprite `sprite` of `sprite_size_y` rows and
/// `sprite_size_x` columns into a row-major buffer of `width` x `height`
/// pixels, sprite pixel (`sy`, `sx`) landing on buffer pixel
/// (`pos_y + sy`, `pos_x + sx`). Sprite pixels that land outside the buffer
/// are skipped.
pub fn draw_sprite(
    buffer: &mut [u32],
    width: usize,
    height: usize,
    sprite: &[u32],
    sprite_size_y: usize,
    sprite_size_x: usize,
    pos_y: usize,
    pos_x: usize,
)
    requires
        old(buffer)@.len() == width * height,
        sprite@.len() == sprite_size_y * sprite_size_x,
    ensures
        final(buffer)@ == blitted(old(buffer)@, width as nat, sprite@, sprite_size_y as nat, sprite_size_x as nat, pos_y as int, pos_x as int),
{
    let ghost s0 = buffer@;
    let ghost w = width as int;
    let ghost h = height as int;
    let ghost out = blitted(s0, width as nat, sprite@, sprite_size_y as nat, sprite_size_x as nat, pos_y as int, pos_x as int);
    if pos_y >= height || pos_x >= width {
        proof {
            lemma_blit_outside(s0, width as nat, height as nat, sprite@, sprite_size_y as nat, sprite_size_x as nat, pos_y as int, pos_x as int);
        }
        return;
    }
    let y_end: usize = if sprite_size_y < height - pos_y { pos_y + sprite_size_y } else { height };
    let x_end: usize = if sprite_size_x < width - pos_x { pos_x + sprite_size_x } else { width };
    let n: usize = buffer.len();
    let m: usize = sprite.len();
    let mut r: usize = pos_y;
    while r < y_end
        invariant
            pos_y <= r <= y_end <= height,
            pos_x <= x_end <= width,
            y_end as int == pos_y + sprite_size_y || y_end == height,
            x_end as int == pos_x + sprite_size_x || x_end == width,
            y_end <= pos_y + sprite_size_y,
            x_end <= pos_x + sprite_size_x,
            s0.len() == w * h,
            n == s0.len(),
            w == width,
            h == height,
            sprite@.len() == sprite_size_y * sprite_size_x,
            m == sprite@.len(),
            out == blitted(s0, width as nat, sprite@, sprite_size_y as nat, sprite_size_x as nat, pos_y as int, pos_x as int),
            buffer@.len() == s0.len(),
            forall|i: int|
                0 <= i < s0.len() ==> #[trigger] buffer@[i] == if in_rect(i / w, i % w, pos_y as int, pos_x as int, sprite_size_y as int, sprite_size_x as int) && i / w < r {
                    out[i]
                } else {
                    s0[i]
                },
        decreases y_end - r,
    {
        let mut c: usize = pos_x;
        while c < x_end
            invariant
                pos_y <= r < y_end <= height,
                pos_x <= c <= x_end <= width,
                x_end as int == pos_x + sprite_size_x || x_end == width,
                x_end <= pos_x + sprite_size_x,
                y_end <= pos_y + sprite_size_y,
                s0.len() == w * h,
                n == s0.len(),
                w == width,
                h == height,
                sprite@.len() == sprite_size_y * sprite_size_x,
                m == sprite@.len(),
                out == blitted(s0, width as nat, sprite@, sprite_size_y as nat, sprite_size_x as nat, pos_y as int, pos_x as int),
                buffer@.len() == s0.len(),
                forall|i: int|
                    0 <= i < s0.len() ==> #[trigger] buffer@[i] == if in_rect(i / w, i % w, pos_y as int, pos_x as int, sprite_size_y as int, sprite_size_x as int) && (i / w < r || (i / w == r && i % w < c)) {
                        out[i]
                    } else {
                        s0[i]
                    },
            decreases x_end - c,
        {
            proof {
                lemma_cell(w, h, r as int, c as int);
                lemma_sprite_cell(s0, width as nat, height as nat, sprite@, sprite_size_y as nat, sprite_size_x as nat, pos_y as int, pos_x as int, r as int, c as int);
            }
            let k: usize = r * width + c;
            let j: usize = (r - pos_y) * sprite_size_x + (c - pos_x);
            let ghost prev = buffer@;
            buffer[k] = sprite[j];
            proof {
                assert forall|i: int| 0 <= i < s0.len() implies #[trigger] buffer@[i] == if in_rect(i / w, i % w, pos_y as int, pos_x as int, sprite_size_y as int, sprite_size_x as int) && (i / w < r || (i / w == r && i % w < c + 1)) {
                    out[i]
                } else {
                    s0[i]
                } by {
                    lemma_split(w, h, i);
                    if i != k {
                        assert(buffer@[i] == prev[i]);
                        assert(!(i / w == r && i % w == c));
                    } else {
                        assert(i / w == r && i % w == c);
                        assert(out[i] == sprite@[j as int]);
                    }
                }
            }
            c = c + 1;
        }
        proof {
            assert forall|i: int| 0 <= i < s0.len() implies #[trigger] buffer@[i] == if in_rect(i / w, i % w, pos_y as int, pos_x as int, sprite_size_y as int, sprite_size_x as int) && i / w < r + 1 {
                out[i]
            } else {
                s0[i]
            } by {
                lemma_split(w, h, i);
            }
        }
        r = r + 1;
    }
    assert forall|i: int| 0 <= i < s0.len() implies #[trigger] buffer@[i] == out[i] by {
        lemma_split(w, h, i);
    }
    assert(buffer@ =~= out);
}

} // verus!
