use softraster::obj::Obj;
use softraster::vector::{Vector2, Vector3};
use softraster::vertex::Vertex;

const ONE: i32 = 65536;

fn vertex_at(x: i32) -> Vertex {
    Vertex::new(Vector3::new(x, 0, 0), Vector3::new(0, ONE, 0), Vector2::zero())
}

#[test]
fn vertex_array_follows_the_indices() {
    let obj = Obj {
        vertices: vec![vertex_at(10), vertex_at(20), vertex_at(30)],
        indices: vec![2, 0, 1, 1, 0, 2],
    };
    assert!(obj.has_valid_indices());
    let array = obj.get_vertex_array();
    let xs: Vec<i32> = array.iter().map(|v| v.position.x).collect();
    assert_eq!(xs, vec![30, 10, 20, 20, 10, 30]);
    assert_eq!(array[0], vertex_at(30));
}

#[test]
fn empty_mesh_has_an_empty_vertex_array() {
    let obj = Obj::new();
    assert!(obj.has_valid_indices());
    assert!(obj.get_vertex_array().is_empty());
    let unused = Obj { vertices: vec![vertex_at(1)], indices: vec![] };
    assert!(unused.get_vertex_array().is_empty());
}

#[test]
fn index_past_the_pool_is_reported() {
    let obj = Obj { vertices: vec![vertex_at(10), vertex_at(20)], indices: vec![0, 1, 2] };
    assert!(!obj.has_valid_indices());
    let none = Obj { vertices: vec![], indices: vec![0] };
    assert!(!none.has_valid_indices());
}

#[test]
fn mesh_from_flat_lists_flips_the_vertical_axis() {
    let mut obj = Obj::new();
    let positions = vec![ONE, 2 * ONE, 3 * ONE, -ONE, -2 * ONE, i32::MIN, 0, i32::MIN, 7, 99, 98];
    let normals = vec![1, 2, 3, 4, 5, 6, 7, 8, 9];
    let texcoords = vec![10, 20, 30, 40, 50, 60];
    obj.append_mesh(&positions, &normals, &texcoords, &vec![0, 1, 2]);
    assert_eq!(obj.vertices.len(), 3);
    assert_eq!(obj.indices, vec![0, 1, 2]);
    assert_eq!(
        obj.vertices[0],
        Vertex::new(Vector3::new(ONE, -2 * ONE, 3 * ONE), Vector3::new(1, 2, 3), Vector2::new(10, 20))
    );
    assert_eq!(obj.vertices[1].position, Vector3::new(-ONE, 2 * ONE, i32::MIN));
    assert_eq!(obj.vertices[2].position, Vector3::new(0, i32::MAX, 7));
    assert_eq!(obj.vertices[2].normal, Vector3::new(7, 8, 9));
    assert_eq!(obj.vertices[2].tex_coords, Vector2::new(50, 60));
}

#[test]
fn mesh_without_normals_or_texture_gets_zeros() {
    let mut obj = Obj::new();
    obj.append_mesh(&vec![1, 2, 3, 4, 5, 6], &vec![], &vec![], &vec![1, 0, 1]);
    assert_eq!(obj.vertices.len(), 2);
    for v in &obj.vertices {
        assert_eq!(v.normal, Vector3::zero());
        assert_eq!(v.tex_coords, Vector2::zero());
    }
    assert_eq!(obj.vertices[1].position, Vector3::new(4, -5, 6));
}

#[test]
fn second_mesh_follows_the_first_with_its_own_indices() {
    let mut obj = Obj::new();
    obj.append_mesh(&vec![1, 1, 1, 2, 2, 2, 3, 3, 3], &vec![], &vec![], &vec![0, 1, 2]);
    obj.append_mesh(&vec![4, 4, 4], &vec![], &vec![], &vec![0, 0, 0]);
    assert_eq!(obj.vertices.len(), 4);
    assert_eq!(obj.vertices[3].position, Vector3::new(4, -4, 4));
    assert_eq!(obj.indices, vec![0, 1, 2, 0, 0, 0]);
    let xs: Vec<i32> = obj.get_vertex_array().iter().map(|v| v.position.x).collect();
    assert_eq!(xs, vec![1, 2, 3, 1, 1, 1]);
}

#[test]
fn grid_indices_list_two_triangles_per_cell() {
    assert_eq!(Obj::grid_indices(1, 1), vec![0, 1, 2, 1, 3, 2]);
    assert_eq!(
        Obj::grid_indices(2, 2),
        vec![
            0, 1, 3, 1, 4, 3, // row 0, column 0
            1, 2, 4, 2, 5, 4, // row 0, column 1
            3, 4, 6, 4, 7, 6, // row 1, column 0
            4, 5, 7, 5, 8, 7, // row 1, column 1
        ]
    );
    assert_eq!(Obj::grid_indices(1, 3), vec![0, 1, 4, 1, 5, 4, 1, 2, 5, 2, 6, 5, 2, 3, 6, 3, 7, 6]);
    assert!(Obj::grid_indices(0, 5).is_empty());
    assert!(Obj::grid_indices(5, 0).is_empty());
}

#[test]
fn grid_indices_stay_within_the_grid() {
    let indices = Obj::grid_indices(16, 32);
    assert_eq!(indices.len(), 6 * 16 * 32);
    assert_eq!(*indices.iter().max().unwrap(), 17 * 33 - 1);
    assert_eq!(*indices.iter().min().unwrap(), 0);
    let obj = Obj { vertices: vec![vertex_at(0); 17 * 33], indices };
    assert!(obj.has_valid_indices());
    assert_eq!(obj.get_vertex_array().len(), 6 * 16 * 32);
}
