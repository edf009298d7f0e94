use pixel_game_engine::draw::Drawable;
use pixel_game_engine::line::Line;
use pixel_game_engine::pixel::Pixel;

#[test]
fn vertical_line() {
    // Arrange
    let line = Line {
        from: (10, 10).into(),
        to: (10, 15).into(),
    };

    let expected: Vec<Pixel> = vec![
        (10, 10).into(),
        (10, 11).into(),
        (10, 12).into(),
        (10, 13).into(),
        (10, 14).into(),
        (10, 15).into(),
    ];

    expected
        .into_iter()
        .zip(line.pixels().into_iter())
        .for_each(|(e, a)| assert_eq!(e, a));

    let line = Line {
        from: (10, 500).into(),
        to: (10, 495).into(),
    };

    let expected: Vec<Pixel> = vec![
        (10, 500).into(),
        (10, 499).into(),
        (10, 498).into(),
        (10, 497).into(),
        (10, 496).into(),
        (10, 495).into(),
    ];

    expected
        .into_iter()
        .zip(line.pixels().into_iter())
        .for_each(|(e, a)| assert_eq!(e, a))
}

#[test]
fn vertical_line_exact_ascending() {
    let line = Line {
        from: Pixel(10, 10),
        to: Pixel(10, 15),
    };
    let expected = vec![
        Pixel(10, 10),
        Pixel(10, 11),
        Pixel(10, 12),
        Pixel(10, 13),
        Pixel(10, 14),
        Pixel(10, 15),
    ];
    assert_eq!(line.pixels(), expected);
}

#[test]
fn vertical_line_exact_descending() {
    let line = Line {
        from: Pixel(10, 500),
        to: Pixel(10, 495),
    };
    let expected = vec![
        Pixel(10, 500),
        Pixel(10, 499),
        Pixel(10, 498),
        Pixel(10, 497),
        Pixel(10, 496),
        Pixel(10, 495),
    ];
    assert_eq!(line.pixels(), expected);
}

#[test]
fn line_reversed_endpoints_give_reversed_pixels() {
    let cases = [
        ((3, 7), (10, 2)),
        ((0, 0), (5, 12)),
        ((4, 4), (4, 4)),
        ((100, 1), (0, 1)),
        ((2, 9), (9, 2)),
    ];
    for (a, b) in cases {
        let forward = Line {
            from: Pixel(a.0, a.1),
            to: Pixel(b.0, b.1),
        }
        .pixels();
        let mut backward = Line {
            from: Pixel(b.0, b.1),
            to: Pixel(a.0, a.1),
        }
        .pixels();
        backward.reverse();
        assert_eq!(forward, backward);
    }
}

#[test]
fn line_includes_both_endpoints_and_has_exact_length() {
    let line = Line {
        from: Pixel(2, 3),
        to: Pixel(9, 6),
    };
    let pts = line.pixels();
    // max(|dx|, |dy|) + 1 pixels, endpoints inclusive
    assert_eq!(pts.len(), 8);
    assert_eq!(pts[0], Pixel(2, 3));
    assert_eq!(pts[pts.len() - 1], Pixel(9, 6));
}

#[test]
fn zero_length_line_is_one_pixel() {
    let line = Line {
        from: Pixel(7, 7),
        to: Pixel(7, 7),
    };
    assert_eq!(line.pixels(), vec![Pixel(7, 7)]);
}

#[test]
fn horizontal_line_covers_every_column() {
    let line = Line {
        from: Pixel(3, 8),
        to: Pixel(9, 8),
    };
    let expected: Vec<Pixel> = (3..=9).map(|x| Pixel(x, 8)).collect();
    assert_eq!(line.pixels(), expected);
}
