use softraster::fragment::Fragment;
use softraster::framebuffer::{Depth, Framebuffer, Pixel};
use softraster::light::Light;
use softraster::render::{
    rasterize, render, render_sun, shade_fragments, transform_vertices, write_fragments,
};
use softraster::shaders::Uniforms;
use softraster::vector::{Matrix, Vector2, Vector3};
use softraster::vertex::Vertex;

const ONE: i32 = 65536;

/// With identity transforms a model-space position is its own screen
/// position.
fn identity() -> Uniforms {
    Uniforms {
        model_matrix: Matrix::identity(),
        view_matrix: Matrix::identity(),
        projection_matrix: Matrix::identity(),
        viewport_matrix: Matrix::identity(),
        time: 0,
    }
}

fn vertex(x: i32, y: i32, z: i32) -> Vertex {
    Vertex::new(Vector3::new(x * ONE, y * ONE, z), Vector3::new(0, 0, ONE), Vector2::zero())
}

fn light() -> Light {
    Light::new(Vector3::new(0, 0, 100 * ONE))
}

fn right_triangle(depth: i32) -> Vec<Vertex> {
    vec![vertex(10, 10, depth), vertex(20, 10, depth), vertex(10, 20, depth)]
}

fn drawn(framebuffer: &Framebuffer) -> Vec<(i32, i32)> {
    let mut found = Vec::new();
    for y in 0..framebuffer.height() as i32 {
        for x in 0..framebuffer.width() as i32 {
            if framebuffer.get(x, y).unwrap().depth != Depth::Infinite {
                found.push((x, y));
            }
        }
    }
    found
}

fn inside_right_triangle() -> Vec<(i32, i32)> {
    let mut expected = Vec::new();
    for y in 10..20 {
        for x in 10..20 {
            if x + y <= 28 {
                expected.push((x, y));
            }
        }
    }
    expected
}

#[test]
fn draw_call_fills_the_triangle_with_the_shaded_colour() {
    let mut framebuffer = Framebuffer::new(32, 32);
    framebuffer.clear();
    render(&mut framebuffer, &identity(), &right_triangle(ONE / 2), &light(), |f: Fragment| {
        Vector3::new(f.depth, f.position.x, f.position.y)
    });
    assert_eq!(drawn(&framebuffer), inside_right_triangle());
    assert_eq!(
        framebuffer.get(15, 13),
        Some(Pixel {
            color: Vector3::new(ONE / 2, 15 * ONE, 13 * ONE),
            depth: Depth::Finite(ONE / 2)
        })
    );
    framebuffer.point(15, 13, Vector3::zero(), 58982);
    assert_eq!(framebuffer.get(15, 13).unwrap().depth, Depth::Finite(ONE / 2));
}

#[test]
fn leftover_vertices_make_no_triangle() {
    let mut vertices = right_triangle(ONE);
    vertices.push(vertex(0, 0, ONE));
    vertices.push(vertex(30, 0, ONE));
    assert_eq!(rasterize(&vertices, &light()).len(), 45);
    vertices.push(vertex(0, 30, ONE));
    assert!(rasterize(&vertices, &light()).len() > 45);
    assert!(rasterize(&vertices[..2].to_vec(), &light()).is_empty());
    assert!(rasterize(&Vec::new(), &light()).is_empty());
}

#[test]
fn nearer_mesh_hides_the_farther_one_in_either_order() {
    let white = |_: Fragment| Vector3::new(ONE, ONE, ONE);
    let red = |_: Fragment| Vector3::new(ONE, 0, 0);
    let mut near_first = Framebuffer::new(32, 32);
    render(&mut near_first, &identity(), &right_triangle(100), &light(), red);
    render(&mut near_first, &identity(), &right_triangle(200), &light(), white);
    let mut far_first = Framebuffer::new(32, 32);
    render(&mut far_first, &identity(), &right_triangle(200), &light(), white);
    render(&mut far_first, &identity(), &right_triangle(100), &light(), red);
    assert_eq!(near_first.colors(), far_first.colors());
    assert_eq!(
        near_first.get(12, 12),
        Some(Pixel { color: Vector3::new(ONE, 0, 0), depth: Depth::Finite(100) })
    );
}

#[test]
fn fragments_outside_the_frame_are_dropped() {
    let mut framebuffer = Framebuffer::new(12, 12);
    render(&mut framebuffer, &identity(), &right_triangle(5), &light(), |f: Fragment| f.color);
    assert_eq!(drawn(&framebuffer), vec![(10, 10), (11, 10), (10, 11), (11, 11)]);
}

#[test]
fn draw_call_draws_every_triangle_of_a_long_list() {
    let mut vertices = vec![vertex(0, 0, 0); 99_999];
    vertices.extend(right_triangle(ONE));
    vertices.push(vertex(3, 3, ONE));
    assert_eq!(vertices.len(), 100_003);

    let mut plain = Framebuffer::new(32, 32);
    render(&mut plain, &identity(), &vertices, &light(), |f: Fragment| f.color);
    assert_eq!(drawn(&plain), inside_right_triangle());

    let mut displaced = Framebuffer::new(32, 32);
    render_sun(
        &mut displaced,
        &identity(),
        &vertices,
        &light(),
        |v: Vertex| v.position,
        |f: Fragment| f.color,
    );
    assert_eq!(drawn(&displaced), inside_right_triangle());
    assert_eq!(plain.colors(), displaced.colors());
}

#[test]
fn displaced_draw_call_moves_the_outline_and_keeps_the_surface() {
    let mut framebuffer = Framebuffer::new(32, 32);
    render_sun(
        &mut framebuffer,
        &identity(),
        &right_triangle(ONE),
        &light(),
        |v: Vertex| Vector3::new(v.position.x - 10 * ONE, v.position.y - 10 * ONE, v.position.z),
        |f: Fragment| f.world_position,
    );
    let mut expected = Vec::new();
    for y in 0..10 {
        for x in 0..10 {
            if x + y <= 8 {
                expected.push((x, y));
            }
        }
    }
    assert_eq!(drawn(&framebuffer), expected);
    // The fragment at the first pixel interpolates the undisplaced positions.
    let first = framebuffer.get(0, 0).unwrap().color;
    assert_eq!(first, Vector3::new(10 * ONE + ONE / 2, 10 * ONE + ONE / 2, ONE));
}

#[test]
fn stages_compose_into_the_draw_call() {
    let vertices = right_triangle(ONE / 4);
    let transformed = transform_vertices(&vertices, &identity());
    assert_eq!(transformed.len(), 3);
    assert_eq!(transformed[1].transformed_position, Vector3::new(20 * ONE, 10 * ONE, ONE / 4));
    let fragments = rasterize(&transformed, &light());
    let shade = |f: Fragment| Vector3::new(f.depth, 0, 0);
    let colors = shade_fragments(&fragments, &shade);
    assert_eq!(colors.len(), fragments.len());
    assert!(colors.iter().all(|c| *c == Vector3::new(ONE / 4, 0, 0)));
    let mut staged = Framebuffer::new(32, 32);
    write_fragments(&mut staged, &fragments, &colors);
    let mut whole = Framebuffer::new(32, 32);
    render(&mut whole, &identity(), &vertices, &light(), shade);
    assert_eq!(staged.colors(), whole.colors());
    assert_eq!(drawn(&staged), inside_right_triangle());
}

#[test]
fn fragment_positions_are_cut_toward_zero() {
    let mut framebuffer = Framebuffer::new(4, 4);
    let colour = Vector3::new(1, 1, 1);
    let at = |x: i32, y: i32| Fragment::new(x, y, colour, 0);
    let fragments = vec![at(ONE + ONE / 2, 2 * ONE + 1), at(-ONE / 2, -1), at(-ONE, 0)];
    write_fragments(&mut framebuffer, &fragments, &vec![colour; 3]);
    assert_eq!(drawn(&framebuffer), vec![(0, 0), (1, 2)]);
}

#[test]
fn image_does_not_depend_on_the_order_of_the_fragments() {
    let at = |x: i32, y: i32, depth: i32| Fragment::new(x * ONE, y * ONE, Vector3::zero(), depth);
    let offered = vec![
        (at(1, 1, 50), Vector3::new(1, 0, 0)),
        (at(1, 1, 20), Vector3::new(2, 0, 0)),
        (at(2, 1, 70), Vector3::new(3, 0, 0)),
        (at(1, 1, 90), Vector3::new(4, 0, 0)),
        (at(2, 1, 10), Vector3::new(5, 0, 0)),
        (at(9, 9, 10), Vector3::new(6, 0, 0)),
        (at(0, 0, -5), Vector3::new(7, 0, 0)),
    ];
    let draw = |order: &[usize]| {
        let fragments: Vec<Fragment> = order.iter().map(|&i| offered[i].0).collect();
        let colors: Vec<Vector3> = order.iter().map(|&i| offered[i].1).collect();
        let mut framebuffer = Framebuffer::new(4, 4);
        write_fragments(&mut framebuffer, &fragments, &colors);
        framebuffer
    };
    let forward = draw(&[0, 1, 2, 3, 4, 5, 6]);
    let backward = draw(&[6, 5, 4, 3, 2, 1, 0]);
    let shuffled = draw(&[3, 6, 1, 4, 0, 2, 5, 1, 3]);
    assert_eq!(forward.colors(), backward.colors());
    assert_eq!(forward.colors(), shuffled.colors());
    for y in 0..4 {
        for x in 0..4 {
            assert_eq!(forward.get(x, y), backward.get(x, y));
            assert_eq!(forward.get(x, y), shuffled.get(x, y));
        }
    }
    // Every pixel holds the nearest of what was offered to it.
    assert_eq!(
        forward.get(1, 1),
        Some(Pixel { color: Vector3::new(2, 0, 0), depth: Depth::Finite(20) })
    );
    assert_eq!(
        forward.get(2, 1),
        Some(Pixel { color: Vector3::new(5, 0, 0), depth: Depth::Finite(10) })
    );
    assert_eq!(
        forward.get(0, 0),
        Some(Pixel { color: Vector3::new(7, 0, 0), depth: Depth::Finite(-5) })
    );
    assert_eq!(forward.get(3, 3), Some(Pixel { color: Vector3::zero(), depth: Depth::Infinite }));
}

#[test]
fn two_triangles_may_come_in_either_order() {
    let near = right_triangle(100);
    let far = vec![vertex(12, 8, 200), vertex(26, 12, 200), vertex(9, 25, 200)];
    let shade = |f: Fragment| Vector3::new(f.depth, f.position.x, f.position.y);

    let mut near_first = near.clone();
    near_first.extend(far.clone());
    let mut far_first = far.clone();
    far_first.extend(near.clone());

    let mut one = Framebuffer::new(32, 32);
    render(&mut one, &identity(), &near_first, &light(), shade);
    let mut other = Framebuffer::new(32, 32);
    render(&mut other, &identity(), &far_first, &light(), shade);

    for y in 0..32 {
        for x in 0..32 {
            assert_eq!(one.get(x, y), other.get(x, y), "pixel ({x}, {y})");
        }
    }
    // Where both triangles cover a pixel, the nearer one shows.
    let overlapped = Some(Pixel {
        color: Vector3::new(100, 14 * ONE, 13 * ONE),
        depth: Depth::Finite(100),
    });
    assert_eq!(one.get(14, 13), overlapped);
    // Where only the farther one covers a pixel, it shows.
    assert_eq!(
        one.get(20, 14),
        Some(Pixel { color: Vector3::new(200, 20 * ONE, 14 * ONE), depth: Depth::Finite(200) })
    );
    assert_eq!(one.get(30, 30), Some(Pixel { color: Vector3::zero(), depth: Depth::Infinite }));
}
