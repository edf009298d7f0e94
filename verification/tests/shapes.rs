use std::collections::BTreeSet;

use pixel_game_engine::circle::{circle_pixels, Circle, FilledCircle, HollowCircle};
use pixel_game_engine::draw::Drawable;
use pixel_game_engine::pixel::Pixel;
use pixel_game_engine::rectangle::{rect_pixels, FilledRectangle, HollowRectangle, Rectangle};

fn point_set(pixels: &[Pixel]) -> BTreeSet<(u32, u32)> {
    pixels.iter().map(|p| (p.0, p.1)).collect()
}

#[test]
fn circle_radius_zero_is_center_only() {
    let hollow = HollowCircle(Circle {
        center: Pixel(5, 5),
        radius: 0,
    })
    .pixels();
    assert_eq!(hollow.len(), 8);
    assert!(hollow.iter().all(|p| *p == Pixel(5, 5)));

    let filled = FilledCircle(Circle {
        center: Pixel(5, 5),
        radius: 0,
    })
    .pixels();
    assert!(!filled.is_empty());
    assert!(filled.iter().all(|p| *p == Pixel(5, 5)));
}

#[test]
fn hollow_circle_is_symmetric_across_both_axes() {
    for radius in 0..8u32 {
        let c = (20i64, 20i64);
        let pts = circle_pixels(
            &Circle {
                center: Pixel(c.0 as u32, c.1 as u32),
                radius,
            },
            false,
        );
        let set = point_set(&pts);
        for &(x, y) in &set {
            let vx = (2 * c.0 - x as i64) as u32;
            let hy = (2 * c.1 - y as i64) as u32;
            assert!(set.contains(&(vx, y)), "missing vertical mirror of ({x},{y})");
            assert!(set.contains(&(x, hy)), "missing horizontal mirror of ({x},{y})");
        }
    }
}

#[test]
fn filled_circle_contains_center_for_small_radii() {
    for radius in 0..10u32 {
        let pts = circle_pixels(
            &Circle {
                center: Pixel(30, 30),
                radius,
            },
            true,
        );
        assert!(
            pts.iter().any(|p| *p == Pixel(30, 30)),
            "center missing for radius {radius}"
        );
    }
}

#[test]
fn filled_circle_radius_three_stays_inside_disk() {
    let pts = circle_pixels(
        &Circle {
            center: Pixel(10, 10),
            radius: 3,
        },
        true,
    );
    for p in &pts {
        let dx = p.0 as i64 - 10;
        let dy = p.1 as i64 - 10;
        // distance at most r + 0.5: dx^2 + dy^2 <= r^2 + r for integers
        assert!(dx * dx + dy * dy <= 3 * 3 + 3, "({},{}) leaks out", p.0, p.1);
    }
}

#[test]
fn hollow_rectangle_is_exactly_the_perimeter() {
    let pts = HollowRectangle(Rectangle {
        top_left: Pixel(0, 0),
        width: 10,
        height: 5,
    })
    .pixels();
    let set = point_set(&pts);
    let mut expected = BTreeSet::new();
    for x in 0..=10u32 {
        for y in 0..=5u32 {
            if x == 0 || x == 10 || y == 0 || y == 5 {
                expected.insert((x, y));
            }
        }
    }
    assert_eq!(set, expected);
    assert_eq!(set.len(), 30);
}

#[test]
fn filled_rectangle_covers_the_whole_box() {
    let pts = FilledRectangle(Rectangle {
        top_left: Pixel(0, 0),
        width: 10,
        height: 5,
    })
    .pixels();
    let set = point_set(&pts);
    let mut expected = BTreeSet::new();
    for x in 0..=10u32 {
        for y in 0..=5u32 {
            expected.insert((x, y));
        }
    }
    // all (width + 1) * (height + 1) border and interior pixels, corners
    // inclusive: one horizontal span per row offset in [0, height]
    assert_eq!(set, expected);
    assert_eq!(pts.len(), 11 * 6);
    assert_eq!(set.len(), 66);
}

#[test]
fn degenerate_rectangle_is_a_single_point() {
    for filled in [false, true] {
        let pts = rect_pixels(
            &Rectangle {
                top_left: Pixel(4, 9),
                width: 0,
                height: 0,
            },
            filled,
        );
        assert!(!pts.is_empty());
        assert!(pts.iter().all(|p| *p == Pixel(4, 9)));
    }
}

#[test]
fn circle_pixels_matches_drawable_wrappers() {
    let circle = Circle {
        center: Pixel(12, 12),
        radius: 4,
    };
    let direct = circle_pixels(&circle, false);
    let wrapped = HollowCircle(Circle {
        center: Pixel(12, 12),
        radius: 4,
    })
    .pixels();
    assert_eq!(direct, wrapped);
}

#[test]
fn filled_circle_stays_within_the_disk_bound() {
    for radius in 0..12u32 {
        let pts = circle_pixels(
            &Circle {
                center: Pixel(40, 40),
                radius,
            },
            true,
        );
        let r = radius as i64;
        for p in &pts {
            let dx = p.0 as i64 - 40;
            let dy = p.1 as i64 - 40;
            assert!(
                dx * dx + dy * dy <= r * r + 3 * r,
                "({},{}) outside the disk bound for radius {radius}",
                p.0,
                p.1
            );
        }
    }
}

#[test]
fn zero_width_filled_rectangle_is_a_single_column() {
    let pts = rect_pixels(
        &Rectangle {
            top_left: Pixel(7, 2),
            width: 0,
            height: 3,
        },
        true,
    );
    let expected: BTreeSet<(u32, u32)> = (2..=5u32).map(|y| (7, y)).collect();
    assert_eq!(point_set(&pts), expected);
}
