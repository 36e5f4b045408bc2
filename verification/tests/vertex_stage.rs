use softraster::fragment::Fragment;
use softraster::shaders::{
    fragment_shader, multiply_matrix_vector4, perspective_divide, shader_ship, vertex_shader,
    vertex_shader_at, PlanetType, Uniforms,
};
use softraster::vector::{Matrix, Vector2, Vector3, Vector4};
use softraster::vertex::Vertex;

const ONE: i32 = 65536;

fn scale(x: i32, y: i32, z: i32) -> Matrix {
    let mut m = Matrix::identity();
    m.m0 = x;
    m.m5 = y;
    m.m10 = z;
    m
}

fn translate(x: i32, y: i32, z: i32) -> Matrix {
    let mut m = Matrix::identity();
    m.m12 = x;
    m.m13 = y;
    m.m14 = z;
    m
}

/// Maps the square from -1 to 1 onto a screen of the given size.
fn viewport(width: i32, height: i32) -> Matrix {
    let mut m = Matrix::identity();
    m.m0 = width / 2 * ONE;
    m.m12 = width / 2 * ONE;
    m.m5 = height / 2 * ONE;
    m.m13 = height / 2 * ONE;
    m
}

/// A projection that puts the negated depth into `w`.
fn perspective() -> Matrix {
    let mut m = Matrix::identity();
    m.m11 = -ONE;
    m.m15 = 0;
    m
}

fn uniforms(model: Matrix, view: Matrix, projection: Matrix, viewport: Matrix) -> Uniforms {
    Uniforms {
        model_matrix: model,
        view_matrix: view,
        projection_matrix: projection,
        viewport_matrix: viewport,
        time: 0,
    }
}

fn vertex(x: i32, y: i32, z: i32) -> Vertex {
    let mut v = Vertex::new(Vector3::new(x, y, z), Vector3::new(0, ONE, 0), Vector2::new(7, 9));
    v.color = Vector3::new(1, 2, 3);
    v
}

#[test]
fn identity_leaves_a_vector_alone() {
    let v = Vector4::new(123456, -654321, 1, i32::MIN);
    assert_eq!(multiply_matrix_vector4(&Matrix::identity(), &v), v);
}

#[test]
fn matrix_rows_are_summed_before_rounding() {
    let mut m = Matrix::identity();
    m.m0 = ONE / 2;
    m.m4 = ONE / 2;
    m.m13 = 3 * ONE;
    m.m3 = 1;
    let v = Vector4::new(1, 1, 5 * ONE, ONE);
    // Half of 1 plus half of 1 is 1; rounding each product first would give 0.
    assert_eq!(multiply_matrix_vector4(&m, &v), Vector4::new(1, 1 + 3 * ONE, 5 * ONE, ONE));
}

#[test]
fn matrix_products_clamp() {
    let big = scale(30000 * ONE, ONE, -30000 * ONE);
    let v = Vector4::new(2 * ONE, 0, 2 * ONE, ONE);
    assert_eq!(multiply_matrix_vector4(&big, &v), Vector4::new(i32::MAX, 0, i32::MIN, ONE));
}

#[test]
fn centre_of_the_projection_maps_to_the_centre_of_the_viewport() {
    let orthographic = scale(ONE / 4, ONE / 3, -ONE / 10);
    let u = uniforms(Matrix::identity(), Matrix::identity(), orthographic, viewport(800, 600));
    let out = vertex_shader(&vertex(0, 0, 0), &u);
    assert_eq!(out.transformed_position, Vector3::new(400 * ONE, 300 * ONE, 0));
    assert_eq!(out.transformed_position.x / ONE, 400);
    assert_eq!(out.transformed_position.y / ONE, 300);
}

#[test]
fn corners_of_the_projection_map_to_the_corners_of_the_viewport() {
    let orthographic = scale(ONE / 4, ONE / 2, ONE);
    let u = uniforms(Matrix::identity(), Matrix::identity(), orthographic, viewport(800, 600));
    let out = vertex_shader(&vertex(4 * ONE, -2 * ONE, ONE / 2), &u);
    assert_eq!(out.transformed_position, Vector3::new(800 * ONE, 0, ONE / 2));
}

#[test]
fn ndc_is_the_quotient_by_w() {
    assert_eq!(
        perspective_divide(&Vector4::new(2 * ONE, ONE, -4 * ONE, 4 * ONE)),
        Vector3::new(ONE / 2, ONE / 4, -ONE)
    );
    assert_eq!(
        perspective_divide(&Vector4::new(ONE, -ONE, 7 * ONE, 3 * ONE)),
        Vector3::new(21845, -21846, 152917)
    );
    assert_eq!(
        perspective_divide(&Vector4::new(ONE, -ONE, 0, -2 * ONE)),
        Vector3::new(-ONE / 2, ONE / 2, 0)
    );
    assert_eq!(
        perspective_divide(&Vector4::new(30000 * ONE, -30000 * ONE, 5, 1)),
        Vector3::new(i32::MAX, i32::MIN, 5 * ONE)
    );
}

#[test]
fn zero_w_passes_the_clip_coordinates_through() {
    assert_eq!(
        perspective_divide(&Vector4::new(17, -ONE, 3 * ONE, 0)),
        Vector3::new(17, -ONE, 3 * ONE)
    );
    let u = uniforms(Matrix::identity(), Matrix::identity(), perspective(), Matrix::identity());
    let out = vertex_shader(&vertex(5 * ONE, 6 * ONE, 0), &u);
    assert_eq!(out.transformed_position, Vector3::new(5 * ONE, 6 * ONE, 0));
}

#[test]
fn transforms_apply_in_order() {
    // Model doubles, view moves back by ten, projection divides by distance.
    let u = uniforms(
        scale(2 * ONE, 2 * ONE, 2 * ONE),
        translate(0, 0, -10 * ONE),
        perspective(),
        viewport(100, 100),
    );
    let out = vertex_shader(&vertex(3 * ONE, -ONE, ONE), &u);
    // World (6, -2, 2), view (6, -2, -8), clip w 8, ndc (0.75, -0.25, -1).
    assert_eq!(out.transformed_position, Vector3::new(5734400, 2457600, -ONE));
}

#[test]
fn vertex_stage_keeps_the_mesh_attributes() {
    let u = uniforms(
        translate(ONE, ONE, ONE),
        Matrix::identity(),
        Matrix::identity(),
        Matrix::identity(),
    );
    let before = vertex(3 * ONE, 4 * ONE, 5 * ONE);
    let after = vertex_shader(&before, &u);
    assert_eq!(after.position, before.position);
    assert_eq!(after.normal, before.normal);
    assert_eq!(after.tex_coords, before.tex_coords);
    assert_eq!(after.color, before.color);
    assert_eq!(after.transformed_normal, before.normal);
    assert_eq!(after.transformed_position, Vector3::new(4 * ONE, 5 * ONE, 6 * ONE));
}

#[test]
fn displaced_vertex_keeps_its_own_position() {
    let u = uniforms(
        translate(ONE, 0, 0),
        Matrix::identity(),
        Matrix::identity(),
        Matrix::identity(),
    );
    let before = vertex(3 * ONE, 4 * ONE, 5 * ONE);
    let after = vertex_shader_at(&before, Vector3::new(10 * ONE, 0, 0), &u);
    assert_eq!(after.position, before.position);
    assert_eq!(after.transformed_position, Vector3::new(11 * ONE, 0, 0));
    assert_eq!(vertex_shader_at(&before, before.position, &u), vertex_shader(&before, &u));
}

#[test]
fn new_vertex_is_white_and_untransformed() {
    let v = Vertex::new(Vector3::new(1, 2, 3), Vector3::new(4, 5, 6), Vector2::new(7, 8));
    assert_eq!(v.color, Vector3::new(ONE, ONE, ONE));
    assert_eq!(v.transformed_position, v.position);
    assert_eq!(v.transformed_normal, v.normal);
}

#[test]
fn plain_fragment_program_returns_the_lit_colour() {
    let colour = Vector3::new(11, 22, 33);
    let fragment = Fragment::new_with_world_pos(ONE, 2 * ONE, colour, 5, Vector3::new(1, 1, 1));
    let u = uniforms(Matrix::identity(), Matrix::identity(), Matrix::identity(), Matrix::identity());
    assert_eq!(fragment_shader(&fragment, &u), colour);
    let plain = Fragment::new(ONE, 2 * ONE, colour, 5);
    assert_eq!(plain.world_position, Vector3::zero());
    assert_eq!(plain.position, Vector2::new(ONE, 2 * ONE));
    assert_eq!(plain.depth, 5);
    assert_eq!(fragment.world_position, Vector3::new(1, 1, 1));
}

#[test]
fn surface_tags_are_distinct() {
    let all = [
        PlanetType::Rocky,
        PlanetType::GasGiant,
        PlanetType::SciFi,
        PlanetType::Ice,
        PlanetType::Volcanic,
        PlanetType::Ring,
        PlanetType::Moon,
        PlanetType::Sun,
        PlanetType::Ship,
    ];
    for (i, a) in all.iter().enumerate() {
        for (j, b) in all.iter().enumerate() {
            assert_eq!(a == b, i == j);
        }
    }
}

#[test]
fn hull_is_a_brightened_grey_with_a_floor() {
    let lit = |r: i32, g: i32, b: i32| Fragment::new(0, 0, Vector3::new(r, g, b), 0);
    // In the dark the least brightness applies.
    assert_eq!(shader_ship(&lit(0, 0, 0), 0), Vector3::new(16513, 16513, 17693));
    assert_eq!(shader_ship(&lit(100, 19660, 5), 0), Vector3::new(16513, 16513, 17693));
    // The brightest channel decides.
    assert_eq!(shader_ship(&lit(ONE / 2, 0, 0), 0), Vector3::new(27524, 27524, 29491));
    assert_eq!(shader_ship(&lit(0, 1, ONE / 2), 0), Vector3::new(27524, 27524, 29491));
    assert_eq!(shader_ship(&lit(ONE, ONE, ONE), 0), Vector3::new(55049, 55049, 58982));
    // No channel exceeds one.
    assert_eq!(shader_ship(&lit(100000, 0, 0), 0), Vector3::new(ONE, ONE, ONE));
    // The time plays no part.
    assert_eq!(shader_ship(&lit(ONE, 0, 0), 12345), shader_ship(&lit(ONE, 0, 0), 0));
}
