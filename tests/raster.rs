use yicty::raster::{blit_row, draw_rectangle, draw_sprite, fill_row};

const W: usize = 10;
const H: usize = 10;
const WHITE: u32 = 0xFFFF_FFFF;

fn at(b: &[u32], y: usize, x: usize) -> u32 {
    b[y * W + x]
}

#[test]
fn fill_top_left_square() {
    let mut b = vec![0u32; W * H];
    draw_rectangle(&mut b, W, H, 0, 0, 3, 3, WHITE);
    for y in 0..H {
        for x in 0..W {
            let want = if y < 3 && x < 3 { WHITE } else { 0 };
            assert_eq!(at(&b, y, x), want, "pixel ({}, {})", y, x);
        }
    }
}

#[test]
fn fill_inner_rectangle_exact() {
    let mut b: Vec<u32> = (0..(W * H) as u32).collect();
    let before = b.clone();
    draw_rectangle(&mut b, W, H, 2, 4, 3, 5, 7);
    for y in 0..H {
        for x in 0..W {
            let inside = (2..5).contains(&y) && (4..9).contains(&x);
            let want = if inside { 7 } else { before[y * W + x] };
            assert_eq!(at(&b, y, x), want, "pixel ({}, {})", y, x);
        }
    }
}

#[test]
fn fill_clipped_at_buffer_edge() {
    let mut b = vec![0u32; W * H];
    draw_rectangle(&mut b, W, H, 8, 7, 5, 100, 9);
    for y in 0..H {
        for x in 0..W {
            let want = if y >= 8 && x >= 7 { 9 } else { 0 };
            assert_eq!(at(&b, y, x), want, "pixel ({}, {})", y, x);
        }
    }
}

#[test]
fn fill_with_largest_size_covers_rest() {
    let mut b = vec![0u32; W * H];
    draw_rectangle(&mut b, W, H, 5, 5, usize::MAX, usize::MAX, 1);
    let n = b.iter().filter(|&&p| p == 1).count();
    assert_eq!(n, 25);
}

#[test]
fn fill_twice_same_as_once() {
    let mut once: Vec<u32> = (0..(W * H) as u32).collect();
    let mut twice = once.clone();
    draw_rectangle(&mut once, W, H, 1, 2, 6, 3, 0xAB);
    draw_rectangle(&mut twice, W, H, 1, 2, 6, 3, 0xAB);
    draw_rectangle(&mut twice, W, H, 1, 2, 6, 3, 0xAB);
    assert_eq!(once, twice);
}

#[test]
fn fill_outside_leaves_buffer() {
    let start: Vec<u32> = (0..(W * H) as u32).collect();
    let mut b = start.clone();
    draw_rectangle(&mut b, W, H, 10, 0, 4, 4, WHITE);
    assert_eq!(b, start);
    draw_rectangle(&mut b, W, H, 0, 10, 4, 4, WHITE);
    assert_eq!(b, start);
    draw_rectangle(&mut b, W, H, 3, 3, 0, 4, WHITE);
    assert_eq!(b, start);
}

#[test]
fn sprite_at_bottom_right_corner() {
    let mut b = vec![0u32; W * H];
    let sprite = [0xA, 0xB, 0xC, 0xD];
    draw_sprite(&mut b, W, H, &sprite, 2, 2, 8, 8);
    assert_eq!(at(&b, 8, 8), 0xA);
    assert_eq!(at(&b, 8, 9), 0xB);
    assert_eq!(at(&b, 9, 8), 0xC);
    assert_eq!(at(&b, 9, 9), 0xD);
    let written = b.iter().filter(|&&p| p != 0).count();
    assert_eq!(written, 4);
}

#[test]
fn sprite_clipped_on_right_and_bottom() {
    let mut b = vec![0u32; W * H];
    let sprite = [0xA, 0xB, 0xC, 0xD];
    draw_sprite(&mut b, W, H, &sprite, 2, 2, 9, 9);
    assert_eq!(at(&b, 9, 9), 0xA);
    let written = b.iter().filter(|&&p| p != 0).count();
    assert_eq!(written, 1);

    let mut c = vec![0u32; W * H];
    draw_sprite(&mut c, W, H, &sprite, 2, 2, 8, 9);
    assert_eq!(at(&c, 8, 9), 0xA);
    assert_eq!(at(&c, 9, 9), 0xC);
    let written = c.iter().filter(|&&p| p != 0).count();
    assert_eq!(written, 2);
}

#[test]
fn sprite_copies_each_pixel() {
    let start: Vec<u32> = (0..(W * H) as u32).map(|v| v + 1000).collect();
    let mut b = start.clone();
    let sprite: Vec<u32> = (0..6).collect();
    draw_sprite(&mut b, W, H, &sprite, 2, 3, 4, 1);
    for y in 0..H {
        for x in 0..W {
            let want = if (4..6).contains(&y) && (1..4).contains(&x) {
                sprite[(y - 4) * 3 + (x - 1)]
            } else {
                start[y * W + x]
            };
            assert_eq!(at(&b, y, x), want, "pixel ({}, {})", y, x);
        }
    }
}

#[test]
fn sprite_outside_leaves_buffer() {
    let start: Vec<u32> = (0..(W * H) as u32).collect();
    let mut b = start.clone();
    let sprite = [1u32, 2, 3, 4];
    draw_sprite(&mut b, W, H, &sprite, 2, 2, 10, 0);
    assert_eq!(b, start);
    draw_sprite(&mut b, W, H, &sprite, 2, 2, 0, 12);
    assert_eq!(b, start);
}

#[test]
fn rows_filled_one_by_one_match_whole_fill() {
    let start: Vec<u32> = (0..(W * H) as u32).collect();
    let mut whole = start.clone();
    draw_rectangle(&mut whole, W, H, 3, 6, 4, 9, 5);
    let mut by_rows = start.clone();
    for (y, row) in by_rows.chunks_mut(W).enumerate() {
        fill_row(row, y, 3, 6, 4, 9, 5);
    }
    assert_eq!(whole, by_rows);
    assert_ne!(whole, start);
}

#[test]
fn rows_blitted_one_by_one_match_whole_blit() {
    let start: Vec<u32> = (0..(W * H) as u32).collect();
    let sprite: Vec<u32> = (100..112).collect();
    let mut whole = start.clone();
    draw_sprite(&mut whole, W, H, &sprite, 3, 4, 8, 7);
    let mut by_rows = start.clone();
    for (y, row) in by_rows.chunks_mut(W).enumerate() {
        blit_row(row, y, &sprite, 3, 4, 8, 7);
    }
    assert_eq!(whole, by_rows);
    assert_eq!(at(&whole, 8, 7), 100);
    assert_eq!(at(&whole, 9, 9), 106);
}
