use softraster::fragment::Fragment;
use softraster::framebuffer::{Depth, Framebuffer, Pixel};
use softraster::light::Light;
use softraster::triangle::{sample, triangle};
use softraster::vector::{Vector2, Vector3};
use softraster::vertex::Vertex;

const ONE: i32 = 65536;

fn on_screen(x: i32, y: i32, z: i32) -> Vertex {
    Vertex {
        position: Vector3::zero(),
        normal: Vector3::new(0, 0, ONE),
        tex_coords: Vector2::zero(),
        color: Vector3::new(ONE, ONE, ONE),
        transformed_position: Vector3::new(x, y, z),
        transformed_normal: Vector3::new(0, 0, ONE),
    }
}

fn head_on() -> Light {
    Light::new(Vector3::new(0, 0, 10 * ONE))
}

fn pixels(fragments: &[Fragment]) -> Vec<(i32, i32)> {
    fragments.iter().map(|f| (f.position.x / ONE, f.position.y / ONE)).collect()
}

#[test]
fn right_triangle_fills_its_interior_at_uniform_depth() {
    let a = on_screen(10 * ONE, 10 * ONE, ONE / 2);
    let b = on_screen(20 * ONE, 10 * ONE, ONE / 2);
    let c = on_screen(10 * ONE, 20 * ONE, ONE / 2);
    let fragments = triangle(&a, &b, &c, &head_on());

    let mut expected = Vec::new();
    for y in 10..20 {
        for x in 10..20 {
            if x + y <= 28 {
                expected.push((x, y));
            }
        }
    }
    assert_eq!(expected.len(), 45);
    assert_eq!(pixels(&fragments), expected);
    for fragment in &fragments {
        assert_eq!(fragment.depth, ONE / 2);
        assert_eq!(fragment.color, Vector3::new(ONE, ONE, ONE));
        assert_eq!(fragment.position.x % ONE, 0);
        assert_eq!(fragment.position.y % ONE, 0);
    }

    let mut framebuffer = Framebuffer::new(32, 32);
    framebuffer.clear();
    for fragment in &fragments {
        framebuffer.point(
            fragment.position.x / ONE,
            fragment.position.y / ONE,
            fragment.color,
            fragment.depth,
        );
    }
    let before = framebuffer.get(15, 13);
    assert_eq!(
        before,
        Some(Pixel { color: Vector3::new(ONE, ONE, ONE), depth: Depth::Finite(ONE / 2) })
    );
    let farther = 58982;
    framebuffer.point(15, 13, Vector3::new(ONE, 0, 0), farther);
    assert_eq!(framebuffer.get(15, 13), before);
    assert_eq!(
        framebuffer.get(19, 19),
        Some(Pixel { color: Vector3::zero(), depth: Depth::Infinite })
    );
}

#[test]
fn winding_does_not_change_coverage() {
    let a = on_screen(10 * ONE, 10 * ONE, 0);
    let b = on_screen(20 * ONE, 10 * ONE, 0);
    let c = on_screen(10 * ONE, 20 * ONE, 0);
    let one_way = pixels(&triangle(&a, &b, &c, &head_on()));
    let other_way = pixels(&triangle(&a, &c, &b, &head_on()));
    let rotated = pixels(&triangle(&b, &c, &a, &head_on()));
    assert_eq!(one_way.len(), 45);
    assert_eq!(one_way, other_way);
    assert_eq!(one_way, rotated);
}

#[test]
fn triangles_sharing_an_edge_partition_the_pixels_on_it() {
    // The corners lie on pixel centres, so the centres of the pixels on the
    // diagonal lie exactly on the shared edge.
    let a = on_screen(ONE / 2, ONE / 2, 0);
    let b = on_screen(4 * ONE + ONE / 2, ONE / 2, 0);
    let c = on_screen(ONE / 2, 4 * ONE + ONE / 2, 0);
    let d = on_screen(4 * ONE + ONE / 2, 4 * ONE + ONE / 2, 0);
    let upper = pixels(&triangle(&a, &b, &c, &head_on()));
    let lower = pixels(&triangle(&b, &d, &c, &head_on()));

    assert_eq!(
        upper,
        vec![(0, 0), (1, 0), (2, 0), (3, 0), (0, 1), (1, 1), (2, 1), (0, 2), (1, 2), (0, 3)]
    );
    assert_eq!(lower, vec![(3, 1), (2, 2), (3, 2), (1, 3), (2, 3), (3, 3)]);
    for y in 0..4 {
        for x in 0..4 {
            let in_upper = upper.contains(&(x, y));
            let in_lower = lower.contains(&(x, y));
            assert!(in_upper != in_lower, "pixel ({x}, {y})");
        }
    }
    // The pixels on the shared diagonal go to the triangle for which it is a
    // left edge.
    for (x, y) in [(3, 1), (2, 2), (1, 3)] {
        assert!(lower.contains(&(x, y)));
    }
    // Right and bottom edges of the square own nothing.
    assert!(!upper.contains(&(4, 0)) && !lower.contains(&(4, 4)) && !lower.contains(&(0, 4)));
}

#[test]
fn two_triangles_cover_a_square_once() {
    let a = on_screen(10 * ONE, 10 * ONE, 0);
    let b = on_screen(20 * ONE, 10 * ONE, 0);
    let c = on_screen(10 * ONE, 20 * ONE, 0);
    let d = on_screen(20 * ONE, 20 * ONE, 0);
    let upper = pixels(&triangle(&a, &b, &c, &head_on()));
    let lower = pixels(&triangle(&b, &d, &c, &head_on()));
    assert_eq!(upper.len(), 45);
    assert_eq!(lower.len(), 55);
    let mut all = upper.clone();
    all.extend(lower);
    all.sort();
    all.dedup();
    assert_eq!(all.len(), 100);
}

#[test]
fn triangle_without_area_has_no_fragments() {
    let a = on_screen(10 * ONE, 10 * ONE, 0);
    let b = on_screen(15 * ONE, 15 * ONE, 0);
    let c = on_screen(20 * ONE, 20 * ONE, 0);
    assert!(triangle(&a, &b, &c, &head_on()).is_empty());
    assert!(triangle(&a, &a, &a, &head_on()).is_empty());
    assert_eq!(sample(&a, &b, &c, ONE, 15, 15), None);
}

#[test]
fn attributes_are_interpolated_linearly_on_the_screen() {
    let mut a = on_screen(10 * ONE, 10 * ONE, ONE / 4);
    let mut b = on_screen(20 * ONE, 10 * ONE, ONE / 2);
    let mut c = on_screen(10 * ONE, 20 * ONE, 3 * ONE / 4);
    a.color = Vector3::new(ONE, 0, 0);
    b.color = Vector3::new(0, ONE, 0);
    c.color = Vector3::new(0, 0, ONE);
    a.position = Vector3::new(ONE, 0, 0);
    b.position = Vector3::new(0, ONE, 0);
    c.position = Vector3::new(0, 0, ONE);

    // The centre of pixel (12, 11) has the weights 0.6, 0.25 and 0.15.
    let fragment = sample(&a, &b, &c, ONE, 12, 11).unwrap();
    assert_eq!(fragment.position, Vector2::new(12 * ONE, 11 * ONE));
    assert_eq!(fragment.color, Vector3::new(39321, 16384, 9830));
    assert_eq!(fragment.world_position, Vector3::new(39321, 16384, 9830));
    assert_eq!(fragment.depth, 25395);

    // Half the light gives half the colour and leaves the rest alone.
    let dimmed = sample(&a, &b, &c, ONE / 2, 12, 11).unwrap();
    assert_eq!(dimmed.color, Vector3::new(19660, 8192, 4915));
    assert_eq!(dimmed.depth, 25395);
    assert_eq!(dimmed.world_position, fragment.world_position);

    assert_eq!(sample(&a, &b, &c, ONE, 25, 11), None);
    assert_eq!(sample(&a, &b, &c, ONE, 15, 14), None);
    assert!(sample(&a, &b, &c, ONE, 15, 13).is_some());
}

#[test]
fn fragments_come_row_by_row() {
    let a = on_screen(3 * ONE, 2 * ONE, 0);
    let b = on_screen(9 * ONE, 5 * ONE, 0);
    let c = on_screen(4 * ONE, 8 * ONE, 0);
    let found = pixels(&triangle(&a, &b, &c, &head_on()));
    assert!(!found.is_empty());
    for pair in found.windows(2) {
        let (x0, y0) = pair[0];
        let (x1, y1) = pair[1];
        assert!(y0 < y1 || (y0 == y1 && x0 < x1));
    }
    for y in 0..12 {
        for x in 0..12 {
            assert_eq!(sample(&a, &b, &c, ONE, x, y).is_some(), found.contains(&(x, y)));
        }
    }
}

#[test]
fn off_screen_coordinates_are_rasterized_too() {
    let a = on_screen(-3 * ONE, -2 * ONE, 0);
    let b = on_screen(ONE, -2 * ONE, 0);
    let c = on_screen(-3 * ONE, 2 * ONE, 0);
    let found = pixels(&triangle(&a, &b, &c, &head_on()));
    assert_eq!(found, vec![(-3, -2), (-2, -2), (-1, -2), (-3, -1), (-2, -1), (-3, 0)]);
}

#[test]
fn lighting_is_the_clamped_cosine() {
    let flat = on_screen(0, 0, 0);
    let light = |x: i32, y: i32, z: i32| Light::new(Vector3::new(x, y, z));
    assert_eq!(light(0, 0, 10 * ONE).intensity(&flat, &flat, &flat), ONE);
    // Forty-five degrees: the cosine is 0.70710...
    assert_eq!(light(5 * ONE, 0, 5 * ONE).intensity(&flat, &flat, &flat), 46340);
    // Light behind the surface, and light in the surface.
    assert_eq!(light(0, 0, -10 * ONE).intensity(&flat, &flat, &flat), 0);
    assert_eq!(light(10 * ONE, 0, 0).intensity(&flat, &flat, &flat), 0);
    // A light at the centroid has no direction.
    assert_eq!(light(0, 0, 0).intensity(&flat, &flat, &flat), 0);

    let mut p = on_screen(0, 0, 0);
    let mut q = on_screen(0, 0, 0);
    let mut r = on_screen(0, 0, 0);
    for v in [&mut p, &mut q, &mut r] {
        v.transformed_normal = Vector3::new(0, ONE, 0);
    }
    p.position = Vector3::new(ONE, 0, 0);
    q.position = Vector3::new(0, 0, ONE);
    r.position = Vector3::new(-ONE, 0, 0);
    assert_eq!(light(5 * ONE, 5 * ONE, 5 * ONE).intensity(&p, &q, &r), 38677);

    let mut none = on_screen(0, 0, 0);
    none.transformed_normal = Vector3::zero();
    assert_eq!(light(0, 0, 10 * ONE).intensity(&none, &none, &none), 0);
}

#[test]
fn unlit_triangle_is_black_but_still_drawn() {
    let a = on_screen(10 * ONE, 10 * ONE, ONE);
    let b = on_screen(20 * ONE, 10 * ONE, ONE);
    let c = on_screen(10 * ONE, 20 * ONE, ONE);
    let behind = Light::new(Vector3::new(0, 0, -10 * ONE));
    let fragments = triangle(&a, &b, &c, &behind);
    assert_eq!(fragments.len(), 45);
    assert!(fragments.iter().all(|f| f.color == Vector3::zero() && f.depth == ONE));
}
