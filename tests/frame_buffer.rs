use plotter::frame::{blend_pixel, clear, set_pixel, Rgba};

fn rgba(r: u8, g: u8, b: u8, a: u8) -> Rgba {
    Rgba { r, g, b, a }
}

#[test]
fn clear_two_by_two() {
    let mut frame = vec![0u8; 16];
    clear(&mut frame, rgba(10, 20, 30, 40));
    assert_eq!(
        frame,
        vec![10, 20, 30, 40, 10, 20, 30, 40, 10, 20, 30, 40, 10, 20, 30, 40]
    );
}

#[test]
fn clear_empty_frame() {
    let mut frame: Vec<u8> = Vec::new();
    clear(&mut frame, rgba(1, 2, 3, 4));
    assert!(frame.is_empty());
}

#[test]
fn set_pixel_writes_one_cell() {
    let mut frame = vec![0u8; 4 * 3 * 2];
    set_pixel(&mut frame, 3, 2, 2, 1, rgba(1, 2, 3, 4));
    let mut expected = vec![0u8; 24];
    expected[20..24].copy_from_slice(&[1, 2, 3, 4]);
    assert_eq!(frame, expected);
}

#[test]
fn set_pixel_off_grid_is_ignored() {
    let mut frame = vec![7u8; 4 * 3 * 2];
    for (x, y) in [(-1, 0), (0, -1), (3, 0), (0, 2), (i64::MIN, i64::MAX)] {
        set_pixel(&mut frame, 3, 2, x, y, rgba(1, 2, 3, 4));
    }
    assert_eq!(frame, vec![7u8; 24]);
}

#[test]
fn blend_pixel_adds_alpha_and_saturates() {
    let mut frame = vec![0u8; 8];
    frame[3] = 100;
    frame[7] = 200;
    blend_pixel(&mut frame, 2, 1, 0, 0, rgba(9, 8, 7, 255), 50);
    blend_pixel(&mut frame, 2, 1, 1, 0, rgba(9, 8, 7, 255), 100);
    assert_eq!(frame, vec![9, 8, 7, 150, 9, 8, 7, 255]);
}

#[test]
fn blend_pixel_off_grid_is_ignored() {
    let mut frame = vec![5u8; 8];
    blend_pixel(&mut frame, 2, 1, 2, 0, rgba(9, 8, 7, 255), 100);
    assert_eq!(frame, vec![5u8; 8]);
}
