use pixel_game_engine::buffer::Buffer;
use pixel_game_engine::pixel::Pixel;
use pixel_game_engine::text::Text;

#[test]
fn empty_text_produces_no_pixels() {
    let text = Text {
        position: Pixel(10, 10),
        content: String::new(),
        height: 16,
    };
    // an empty string lays out no glyphs, so there are no coverage samples
    let coverage: Vec<(i64, i64)> = Vec::new();
    assert!(text.pixels(&coverage).is_empty());
}

#[test]
fn text_pixels_are_samples_offset_by_the_anchor() {
    let text = Text {
        position: Pixel(10, 10),
        content: String::from("hi"),
        height: 16,
    };
    let coverage = vec![(1, 2), (-3, 4), (0, 0)];
    assert_eq!(
        text.pixels(&coverage),
        vec![Pixel(11, 12), Pixel(7, 14), Pixel(10, 10)]
    );
}

#[test]
fn text_pixels_clamp_at_the_origin() {
    let text = Text {
        position: Pixel(1, 1),
        content: String::from("a"),
        height: 8,
    };
    assert_eq!(text.pixels(&vec![(-5, 0)]), vec![Pixel(0, 1)]);
}

#[test]
fn draw_text_paints_the_anchored_samples() {
    let mut buffer = Buffer::new(4, 4);
    let text = Text {
        position: Pixel(1, 1),
        content: String::from("."),
        height: 4,
    };
    buffer.draw_text([3, 3, 3, 3], &text, &vec![(0, 0), (1, 1)]);
    let base_a = (4 + 1) * 4;
    let base_b = (4 * 2 + 2) * 4;
    assert_eq!(&buffer.data[base_a..base_a + 4], &[3, 3, 3, 3]);
    assert_eq!(&buffer.data[base_b..base_b + 4], &[3, 3, 3, 3]);
}
