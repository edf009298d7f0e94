use pixel_game_engine::arithmetic::{clamped_add, clamped_sub};
use pixel_game_engine::buffer::Buffer;
use pixel_game_engine::color::DefaultColors;
use pixel_game_engine::pixel::Pixel;

#[test]
fn draw_pixel_writes_four_bytes_at_the_right_offset() {
    let mut buffer = Buffer::new(4, 4);
    buffer.draw_pixel(Pixel(1, 2), [9, 8, 7, 6]);
    let base = (4 * 2 + 1) * 4;
    assert_eq!(&buffer.data[base..base + 4], &[9, 8, 7, 6]);
    for (i, b) in buffer.data.iter().enumerate() {
        if i < base || i >= base + 4 {
            assert_eq!(*b, 0, "byte {i} was touched");
        }
    }
}

#[test]
fn draw_pixel_out_of_bounds_is_a_no_op() {
    let mut buffer = Buffer::new(4, 4);
    let before = buffer.data.clone();

    // beyond the bottom-right corner of the buffer
    buffer.draw_pixel(Pixel(2, 100), [1, 2, 3, 4]);
    assert_eq!(buffer.data, before);

    // a coordinate that saturated to zero on one axis during subtraction
    // and stayed far outside the buffer on the other
    let clamped = Pixel(50, 5).sub(Pixel(0, 50));
    assert_eq!(clamped, Pixel(50, 0));
    buffer.draw_pixel(clamped, [1, 2, 3, 4]);
    assert_eq!(buffer.data, before);
}

#[test]
fn clear_overwrites_every_pixel() {
    for color in [[0u8, 0, 0, 0], [255u8, 255, 255, 255], [1u8, 2, 3, 4]] {
        let mut buffer = Buffer::new(3, 2);
        buffer.clear(color);
        assert_eq!(buffer.data.len(), 3 * 2 * 4);
        for (i, b) in buffer.data.iter().enumerate() {
            assert_eq!(*b, color[i % 4]);
        }
    }
}

#[test]
fn draw_line_paints_the_segment() {
    let mut buffer = Buffer::new(4, 4);
    buffer.draw_line([5, 5, 5, 255], Pixel(0, 1), Pixel(3, 1));
    for x in 0..4usize {
        let base = (4 + x) * 4;
        assert_eq!(&buffer.data[base..base + 4], &[5, 5, 5, 255]);
    }
    // the row above stayed black
    assert!(buffer.data[0..16].iter().all(|b| *b == 0));
}

#[test]
fn clamped_add_caps_at_max() {
    assert_eq!(clamped_add(2, 3, 10), 5);
    assert_eq!(clamped_add(200, 100, 250), 250);
    assert_eq!(clamped_add(u32::MAX, 5, u32::MAX), u32::MAX);
    assert_eq!(clamped_add(0, 0, 0), 0);
}

#[test]
fn clamped_sub_stops_at_min() {
    assert_eq!(clamped_sub(10, 3, 2), 7);
    assert_eq!(clamped_sub(3, 10, 2), 2);
    assert_eq!(clamped_sub(10, 9, 5), 5);
    assert_eq!(clamped_sub(0, 1, 0), 0);
}

#[test]
fn default_colors_are_opaque_black_and_white() {
    assert_eq!(DefaultColors::Black.as_color(), [0, 0, 0, 255]);
    assert_eq!(DefaultColors::White.as_color(), [255, 255, 255, 255]);
}

#[test]
fn pixel_arithmetic_saturates() {
    assert_eq!(Pixel(5, 5).add(Pixel(3, 4)), Pixel(8, 9));
    assert_eq!(Pixel(u32::MAX, 0).add(Pixel(1, 7)), Pixel(u32::MAX, 7));
    assert_eq!(Pixel(2, 3).sub(Pixel(5, 1)), Pixel(0, 2));
    assert_eq!(Pixel(9, 9).add_offset(-4, 3), Pixel(5, 12));
    assert_eq!(Pixel(1, 1).add_offset(-5, 0), Pixel(0, 1));
    assert_eq!(Pixel::from((3, 4)).x(), 3);
    assert_eq!(Pixel::from((3, 4)).y(), 4);
}
