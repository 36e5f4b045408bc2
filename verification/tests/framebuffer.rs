use softraster::framebuffer::{Depth, Framebuffer, Pixel};
use softraster::vector::Vector3;

const RED: Vector3 = Vector3 { x: 65536, y: 0, z: 0 };
const GREEN: Vector3 = Vector3 { x: 0, y: 65536, z: 0 };
const BLUE: Vector3 = Vector3 { x: 0, y: 0, z: 65536 };
const BLACK: Vector3 = Vector3 { x: 0, y: 0, z: 0 };

fn empty(color: Vector3) -> Option<Pixel> {
    Some(Pixel { color, depth: Depth::Infinite })
}

fn holding(color: Vector3, depth: i32) -> Option<Pixel> {
    Some(Pixel { color, depth: Depth::Finite(depth) })
}

#[test]
fn new_frame_is_black_and_empty() {
    let framebuffer = Framebuffer::new(4, 3);
    assert_eq!(framebuffer.width(), 4);
    assert_eq!(framebuffer.height(), 3);
    for y in 0..3 {
        for x in 0..4 {
            assert_eq!(framebuffer.get(x, y), empty(BLACK));
        }
    }
    assert_eq!(framebuffer.colors().len(), 12);
    let none = Framebuffer::new(0, 7);
    assert_eq!(none.get(0, 0), None);
    assert!(none.colors().is_empty());
}

#[test]
fn nearer_fragment_wins_in_either_order() {
    let mut near_first = Framebuffer::new(8, 8);
    near_first.point(3, 5, RED, 100);
    near_first.point(3, 5, GREEN, 200);
    let mut far_first = Framebuffer::new(8, 8);
    far_first.point(3, 5, GREEN, 200);
    assert_eq!(far_first.get(3, 5), holding(GREEN, 200));
    far_first.point(3, 5, RED, 100);
    assert_eq!(near_first.get(3, 5), holding(RED, 100));
    assert_eq!(far_first.get(3, 5), holding(RED, 100));
    assert_eq!(near_first.colors(), far_first.colors());
}

#[test]
fn equal_depth_keeps_the_first_fragment() {
    let mut framebuffer = Framebuffer::new(2, 2);
    framebuffer.point(1, 1, RED, 7);
    framebuffer.point(1, 1, GREEN, 7);
    assert_eq!(framebuffer.get(1, 1), holding(RED, 7));
    framebuffer.point(1, 1, BLUE, 6);
    assert_eq!(framebuffer.get(1, 1), holding(BLUE, 6));
    framebuffer.point(1, 1, GREEN, i32::MIN);
    assert_eq!(framebuffer.get(1, 1), holding(GREEN, i32::MIN));
}

#[test]
fn any_finite_depth_is_nearer_than_nothing() {
    let mut framebuffer = Framebuffer::new(2, 2);
    framebuffer.point(0, 0, RED, i32::MAX);
    assert_eq!(framebuffer.get(0, 0), holding(RED, i32::MAX));
}

#[test]
fn clear_then_point_shows_exactly_one_write() {
    let mut framebuffer = Framebuffer::new(5, 4);
    framebuffer.point(1, 1, RED, 10);
    framebuffer.point(4, 3, GREEN, -10);
    framebuffer.set_background_color(BLUE);
    // The new background shows only after the clear.
    assert_eq!(framebuffer.get(0, 0), empty(BLACK));
    assert_eq!(framebuffer.get(1, 1), holding(RED, 10));
    framebuffer.clear();
    framebuffer.point(2, 3, GREEN, 500);
    for y in 0..4 {
        for x in 0..5 {
            let expected = if (x, y) == (2, 3) { holding(GREEN, 500) } else { empty(BLUE) };
            assert_eq!(framebuffer.get(x, y), expected);
        }
    }
    // Nothing of the earlier frame is left: a far fragment is accepted where
    // a near one had been.
    framebuffer.point(1, 1, RED, 1000);
    assert_eq!(framebuffer.get(1, 1), holding(RED, 1000));
}

#[test]
fn writes_outside_the_frame_are_dropped() {
    let mut framebuffer = Framebuffer::new(3, 2);
    for (x, y) in [(-1, 0), (0, -1), (3, 0), (0, 2), (3, 2), (i32::MIN, i32::MIN), (i32::MAX, 1)] {
        framebuffer.point(x, y, RED, 0);
        assert_eq!(framebuffer.get(x, y), None);
    }
    assert!(framebuffer.colors().iter().all(|c| *c == BLACK));
    framebuffer.point(2, 1, RED, 0);
    assert_eq!(framebuffer.get(2, 1), holding(RED, 0));
}

#[test]
fn colour_plane_is_row_major() {
    let mut framebuffer = Framebuffer::new(3, 2);
    framebuffer.point(1, 0, RED, 0);
    framebuffer.point(0, 1, GREEN, 0);
    framebuffer.point(2, 1, BLUE, 0);
    assert_eq!(framebuffer.colors(), &vec![BLACK, RED, BLACK, GREEN, BLACK, BLUE]);
}

#[test]
fn writes_to_different_pixels_commute() {
    let mut one = Framebuffer::new(4, 4);
    one.point(0, 1, RED, 5);
    one.point(1, 0, GREEN, 5);
    let mut other = Framebuffer::new(4, 4);
    other.point(1, 0, GREEN, 5);
    other.point(0, 1, RED, 5);
    assert_eq!(one.colors(), other.colors());
    assert_eq!(one.get(0, 1), holding(RED, 5));
    assert_eq!(one.get(1, 0), holding(GREEN, 5));
}
