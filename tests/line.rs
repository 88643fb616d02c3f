use plotter::frame::{clear, Rgba};
use plotter::raster::draw_line;

const W: usize = 8;
const H: usize = 6;
const BLUE: Rgba = Rgba { r: 0, g: 0, b: 255, a: 255 };
const BLACK: Rgba = Rgba { r: 0, g: 0, b: 0, a: 255 };

fn blank() -> Vec<u8> {
    let mut frame = vec![0u8; 4 * W * H];
    clear(&mut frame, BLACK);
    frame
}

fn pixel(frame: &[u8], x: usize, y: usize) -> [u8; 4] {
    let i = 4 * (y * W + x);
    [frame[i], frame[i + 1], frame[i + 2], frame[i + 3]]
}

fn painted(frame: &[u8], color: Rgba) -> Vec<(usize, usize)> {
    let mut cells = Vec::new();
    for y in 0..H {
        for x in 0..W {
            if pixel(frame, x, y) == [color.r, color.g, color.b, color.a] {
                cells.push((x, y));
            }
        }
    }
    cells
}

#[test]
fn horizontal_line_sets_its_row_only() {
    let mut frame = blank();
    draw_line(&mut frame, W, H, 0, 0, 3, 0, BLUE, false);
    assert_eq!(painted(&frame, BLUE), vec![(0, 0), (1, 0), (2, 0), (3, 0)]);
}

#[test]
fn single_point_line() {
    let mut frame = blank();
    draw_line(&mut frame, W, H, 4, 2, 4, 2, BLUE, false);
    assert_eq!(painted(&frame, BLUE), vec![(4, 2)]);
}

#[test]
fn vertical_line_upward() {
    let mut frame = blank();
    draw_line(&mut frame, W, H, 1, 4, 1, 1, BLUE, false);
    assert_eq!(painted(&frame, BLUE), vec![(1, 1), (1, 2), (1, 3), (1, 4)]);
}

#[test]
fn shallow_line_reaches_its_end() {
    let mut frame = blank();
    draw_line(&mut frame, W, H, 0, 0, 2, 1, BLUE, false);
    assert_eq!(painted(&frame, BLUE), vec![(0, 0), (1, 1), (2, 1)]);
}

#[test]
fn diagonal_line() {
    let mut frame = blank();
    draw_line(&mut frame, W, H, 3, 3, 0, 0, BLUE, false);
    assert_eq!(painted(&frame, BLUE), vec![(0, 0), (1, 1), (2, 2), (3, 3)]);
}

#[test]
fn line_is_clipped_to_the_grid() {
    let mut frame = blank();
    draw_line(&mut frame, W, H, -3, 2, 10, 2, BLUE, false);
    let row: Vec<(usize, usize)> = (0..W).map(|x| (x, 2)).collect();
    assert_eq!(painted(&frame, BLUE), row);
}

#[test]
fn fading_line_grows_to_full_alpha() {
    let mut frame = vec![0u8; 4 * W * H];
    let color = Rgba { r: 10, g: 20, b: 30, a: 200 };
    draw_line(&mut frame, W, H, 0, 0, 4, 0, color, true);
    let alphas: Vec<u8> = (0..5).map(|x| pixel(&frame, x, 0)[3]).collect();
    // 200 * x^2 / 16, rounded down
    assert_eq!(alphas, vec![0, 12, 50, 112, 200]);
    assert_eq!(pixel(&frame, 2, 0), [10, 20, 30, 50]);
    assert_eq!(pixel(&frame, 5, 0), [0, 0, 0, 0]);
}

#[test]
fn fading_line_adds_to_existing_alpha() {
    let mut frame = blank();
    let color = Rgba { r: 10, g: 20, b: 30, a: 200 };
    draw_line(&mut frame, W, H, 0, 1, 0, 3, color, true);
    assert_eq!(pixel(&frame, 0, 1), [10, 20, 30, 255]);
    assert_eq!(pixel(&frame, 0, 3), [10, 20, 30, 255]);
    let mut clean = vec![0u8; 4 * W * H];
    draw_line(&mut clean, W, H, 0, 1, 0, 3, color, true);
    assert_eq!(pixel(&clean, 0, 1)[3], 0);
    assert_eq!(pixel(&clean, 0, 2)[3], 50);
    assert_eq!(pixel(&clean, 0, 3)[3], 200);
}

#[test]
fn fade_falls_from_end_to_start_on_a_slope() {
    let mut frame = vec![0u8; 4 * W * H];
    let color = Rgba { r: 1, g: 1, b: 1, a: 255 };
    draw_line(&mut frame, W, H, 0, 0, 7, 3, color, true);
    let mut cells: Vec<(usize, usize, u8)> = Vec::new();
    for y in 0..H {
        for x in 0..W {
            let p = pixel(&frame, x, y);
            if p[0] == 1 {
                cells.push((x, y, p[3]));
            }
        }
    }
    cells.sort();
    assert_eq!(cells.first().map(|c| c.2), Some(0));
    assert_eq!(cells.last().map(|c| (c.0, c.1, c.2)), Some((7, 3, 255)));
    for pair in cells.windows(2) {
        assert!(pair[0].2 <= pair[1].2);
    }
}
