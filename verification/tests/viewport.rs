use softraster::matrix::{create_viewport_matrix, DEPTH_SCALE};
use softraster::shaders::{vertex_shader, Uniforms};
use softraster::vector::{Matrix, Vector2, Vector3};
use softraster::vertex::Vertex;

const ONE: i32 = 65536;

fn through(viewport: Matrix, x: i32, y: i32, z: i32) -> Vector3 {
    let uniforms = Uniforms {
        model_matrix: Matrix::identity(),
        view_matrix: Matrix::identity(),
        projection_matrix: Matrix::identity(),
        viewport_matrix: viewport,
        time: 0,
    };
    let vertex = Vertex::new(Vector3::new(x, y, z), Vector3::zero(), Vector2::zero());
    vertex_shader(&vertex, &uniforms).transformed_position
}

#[test]
fn viewport_matrix_scales_and_centres() {
    let m = create_viewport_matrix(0, 0, 800 * ONE, 600 * ONE);
    let mut expected = Matrix::identity();
    expected.m0 = 400 * ONE;
    expected.m12 = 400 * ONE;
    expected.m5 = 300 * ONE;
    expected.m13 = 300 * ONE;
    expected.m10 = 255 * ONE;
    assert_eq!(m, expected);
    assert_eq!(DEPTH_SCALE, 255 * ONE);
}

#[test]
fn viewport_maps_the_normalized_square_to_the_screen() {
    let m = create_viewport_matrix(0, 0, 800 * ONE, 600 * ONE);
    assert_eq!(through(m, 0, 0, 0), Vector3::new(400 * ONE, 300 * ONE, 0));
    assert_eq!(through(m, -ONE, -ONE, ONE), Vector3::new(0, 0, 255 * ONE));
    assert_eq!(through(m, ONE, ONE, -ONE), Vector3::new(800 * ONE, 600 * ONE, -255 * ONE));
    assert_eq!(through(m, ONE / 2, 0, ONE / 2), Vector3::new(600 * ONE, 300 * ONE, 8355840));
}

#[test]
fn viewport_rectangle_may_be_offset_and_odd() {
    let m = create_viewport_matrix(10 * ONE, -20 * ONE, 5, -5);
    assert_eq!(m.m0, 2);
    assert_eq!(m.m5, -3);
    assert_eq!(m.m12, 10 * ONE + 2);
    assert_eq!(m.m13, -20 * ONE - 3);
    assert_eq!(through(m, 0, 0, 0), Vector3::new(10 * ONE + 2, -20 * ONE - 3, 0));
    let far = create_viewport_matrix(i32::MAX, i32::MIN, i32::MAX, i32::MIN);
    assert_eq!(far.m12, i32::MAX);
    assert_eq!(far.m13, i32::MIN);
    assert_eq!(far.m0, i32::MAX / 2);
    assert_eq!(far.m5, i32::MIN / 2);
}
