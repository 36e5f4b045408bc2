//! Indexed triangle meshes.

use crate::binary32::fixed_from_bits;
use crate::binary32::is_nan;
use crate::binary32::spec_fixed_from_bits;
use crate::fixed::fixed_neg;
use crate::vector::Vector2;
use crate::vector::Vector3;
use crate::vertex::Vertex;
use vstd::arithmetic::div_mod::lemma_fundamental_div_mod_converse;
use vstd::prelude::*;

verus! {

/// A mesh: a pool of vertices and the indices that list them triangle by
/// triangle.
pub struct Obj {
    pub vertices: Vec<Vertex>,
    pub indices: Vec<u32>,
}

/// The `i`-th vertex of a mesh that is given as flat coordinate lists: three
/// numbers per position and per normal, two per texture coordinate. The
/// vertical axis of the file points the other way, so `y` is negated. A mesh
/// without normals or without texture coordinates gets zeros for them.
pub open spec fn mesh_vertex(
    positions: Seq<i32>,
    normals: Seq<i32>,
    texcoords: Seq<i32>,
    i: int,
) -> Vertex {
    Vertex::spec_new(
        Vector3 {
            x: positions[3 * i],
            y: fixed_neg(positions[3 * i + 1]),
            z: positions[3 * i + 2],
        },
        if normals.len() > 0 {
            Vector3 { x: normals[3 * i], y: normals[3 * i + 1], z: normals[3 * i + 2] }
        } else {
            Vector3 { x: 0, y: 0, z: 0 }
        },
        if texcoords.len() > 0 {
            Vector2 { x: texcoords[2 * i], y: texcoords[2 * i + 1] }
        } else {
            Vector2 { x: 0, y: 0 }
        },
    )
}

/// The vertices of a mesh given as flat coordinate lists. Coordinates left
/// over after the last whole position are ignored.
pub open spec fn mesh_vertices(positions: Seq<i32>, normals: Seq<i32>, texcoords: Seq<i32>) -> Seq<
    Vertex,
> {
    Seq::new(positions.len() / 3, |i: int| mesh_vertex(positions, normals, texcoords, i))
}

/// The six indices of the two triangles that fill the cell in row `i` and
/// column `j` of a grid with `cols` cells, and so `cols + 1` vertices, per
/// row.
pub open spec fn grid_cell(cols: int, i: int, j: int) -> Seq<u32> {
    let first = i * (cols + 1) + j;
    let third = (i + 1) * (cols + 1) + j;
    seq![
        first as u32,
        (first + 1) as u32,
        third as u32,
        (first + 1) as u32,
        (third + 1) as u32,
        third as u32,
    ]
}

/// The cells of a grid of `rows` by `cols` cells, row by row.
pub open spec fn grid_cells(rows: int, cols: int) -> Seq<Seq<u32>> {
    Seq::new((rows * cols) as nat, |c: int| grid_cell(cols, c / cols, c % cols))
}

/// The index list of a grid of `rows` by `cols` cells over `(rows + 1) *
/// (cols + 1)` vertices that are numbered row by row.
pub open spec fn spec_grid_indices(rows: u32, cols: u32) -> Seq<u32> {
    grid_cells(rows as int, cols as int).flatten()
}

/// The cell in row `i` and column `j` is the cell number `i * cols + j`.
proof fn lemma_grid_cell_at(rows: int, cols: int, i: int, j: int)
    requires
        0 <= i < rows,
        0 <= j < cols,
    ensures
        0 <= i * cols + j < grid_cells(rows, cols).len(),
        grid_cells(rows, cols)[i * cols + j] == grid_cell(cols, i, j),
{
    assert(0 <= i * cols && i * cols + cols <= rows * cols) by (nonlinear_arith)
        requires
            0 <= i < rows,
            cols > 0,
    ;
    lemma_fundamental_div_mod_converse(i * cols + j, cols, i, j);
}

/// Every index of a grid cell names a vertex of the grid.
proof fn lemma_grid_cell_bounds(rows: int, cols: int, i: int, j: int)
    requires
        0 <= i < rows,
        0 <= j < cols,
    ensures
        0 <= i * (cols + 1) + j,
        (i + 1) * (cols + 1) + j + 1 < (rows + 1) * (cols + 1),
        i * (cols + 1) + j < (i + 1) * (cols + 1) + j,
{
    assert(0 <= i * (cols + 1) && (i + 1) * (cols + 1) == i * (cols + 1) + cols + 1 && (i + 2) * (
    cols + 1) == (i + 1) * (cols + 1) + cols + 1 && (i + 2) * (cols + 1) <= (rows + 1) * (cols
        + 1)) by (nonlinear_arith)
        requires
            0 <= i < rows,
            cols > 0,
    ;
}

/// One mesh of a model file as the parser hands it on. Every coordinate is
/// a single-precision number, given by its bits.
pub struct RawMesh {
    pub positions: Vec<u32>,
    pub normals: Vec<u32>,
    pub texcoords: Vec<u32>,
    pub indices: Vec<u32>,
}

/// The content of a [`RawMesh`].
pub struct RawMeshData {
    pub positions: Seq<u32>,
    pub normals: Seq<u32>,
    pub texcoords: Seq<u32>,
    pub indices: Seq<u32>,
}

impl View for RawMesh {
    type V = RawMeshData;

    open spec fn view(&self) -> RawMeshData {
        RawMeshData {
            positions: self.positions@,
            normals: self.normals@,
            texcoords: self.texcoords@,
            indices: self.indices@,
        }
    }
}

/// The content of a list of meshes.
pub open spec fn contents(meshes: Seq<RawMesh>) -> Seq<RawMeshData> {
    meshes.map_values(|m: RawMesh| m@)
}

/// `tobj::LoadError`, the reason the parser gives for a failure. It is
/// carried through as it is; nothing is claimed of it.
#[verifier::external_type_specification]
#[verifier::external_body]
pub struct ExLoadError(tobj::LoadError);

/// Why a model could not be loaded.
#[derive(Clone, Copy, Debug, PartialEq)]
pub enum MeshError {
    /// The text lists a relative index or an index of ten digits or more,
    /// which the parser is not given.
    Unsupported,
    /// The text is not a well-formed model; the parser says why.
    Syntax(tobj::LoadError),
    /// A mesh has normals or texture coordinates for some of its vertices
    /// only.
    Incomplete,
}

/// Where the line that holds position `i` of the text begins: after the
/// last line feed before `i`, or at the start of the text.
pub open spec fn line_begin(data: Seq<u8>, i: int) -> int
    decreases i,
{
    if i <= 0 {
        0
    } else if data[i - 1] == 10 {
        i
    } else {
        line_begin(data, i - 1)
    }
}

/// Whether the byte is a decimal digit.
pub open spec fn is_digit(byte: u8) -> bool {
    48 <= byte <= 57
}

/// The number of decimal digits that stand in a row just before position
/// `i`.
pub open spec fn digit_run(data: Seq<u8>, i: int) -> nat
    decreases i,
{
    if i <= 0 || !is_digit(data[i - 1]) {
        0
    } else {
        1 + digit_run(data, i - 1)
    }
}

/// Whether a line that begins with this byte may list indices. Faces and
/// lines do, which begin with `f` and `l`; a line that begins with white
/// space or with a byte outside ASCII is counted among them, as its first
/// word is not looked for.
pub open spec fn may_list_indices(first: u8) -> bool {
    first == 102 || first == 108 || first >= 128 || first == 32 || (9 <= first <= 13)
}

/// Whether position `i` stands in a line that may list indices.
pub open spec fn in_index_line(data: Seq<u8>, i: int) -> bool {
    may_list_indices(data[line_begin(data, i)])
}

/// Whether the text is one that the parser is given: no line that may list
/// indices holds a minus sign or ten digits in a row. Every index is then
/// a number below a thousand million, counted from the start of its list.
pub open spec fn is_admitted(data: Seq<u8>) -> bool {
    forall|i: int|
        0 <= i < data.len() && #[trigger] in_index_line(data, i) ==> data[i] != 45 && digit_run(
            data,
            i + 1,
        ) <= 9
}

/// Tells whether the text is one that the parser is given.
pub fn admits(data: &[u8]) -> (yes: bool)
    ensures
        yes == is_admitted(data@),
{
    let mut listing = false;
    let mut run: usize = 0;
    let mut i: usize = 0;
    while i < data.len()
        invariant
            i <= data@.len(),
            run == digit_run(data@, i as int),
            run <= i,
            i > 0 && data@[i - 1] != 10 ==> listing == in_index_line(data@, i - 1),
            forall|k: int|
                0 <= k < i && #[trigger] in_index_line(data@, k) ==> data@[k] != 45 && digit_run(
                    data@,
                    k + 1,
                ) <= 9,
        decreases data@.len() - i,
    {
        let byte = data[i];
        if i == 0 || data[i - 1] == 10 {
            listing = byte == 102 || byte == 108 || byte >= 128 || byte == 32 || (9 <= byte
                && byte <= 13);
        }
        assert(listing == in_index_line(data@, i as int));
        run = if 48 <= byte && byte <= 57 {
            run + 1
        } else {
            0
        };
        assert(run == digit_run(data@, i + 1));
        if listing && (byte == 45 || run > 9) {
            return false;
        }
        i = i + 1;
    }
    true
}

/// The bits that stand for all encodings of what is not a number.
pub const CANONICAL_NAN: u32 = 0x7fc0_0000;

/// The bits of a number, with every encoding of what is not a number
/// replaced by one.
pub open spec fn canonical_bits(bits: u32) -> u32 {
    if is_nan(bits) {
        CANONICAL_NAN
    } else {
        bits
    }
}

/// The mesh with the bits of every coordinate made canonical.
pub open spec fn canonical(mesh: RawMeshData) -> RawMeshData {
    RawMeshData {
        positions: mesh.positions.map_values(|b: u32| canonical_bits(b)),
        normals: mesh.normals.map_values(|b: u32| canonical_bits(b)),
        texcoords: mesh.texcoords.map_values(|b: u32| canonical_bits(b)),
        indices: mesh.indices,
    }
}

/// The meshes with the bits of every coordinate made canonical.
pub open spec fn canonical_meshes(meshes: Seq<RawMeshData>) -> Seq<RawMeshData> {
    meshes.map_values(|m: RawMeshData| canonical(m))
}

/// What the parser makes of the text of a model file: the meshes that the
/// text describes, in the order of the file and with canonical bits, or the
/// reason why the text is not a well-formed model.
pub uninterp spec fn parsed_meshes(data: Seq<u8>) -> Result<Seq<RawMeshData>, tobj::LoadError>;

/// Parses the text of a model file with `tobj::load_obj_buf`, which is not
/// verified. The options are those for real-time use: faces are split into
/// triangles and every vertex gets a single index. Material libraries are
/// never opened; the parser gets an error for each in their place, which it
/// keeps apart from the meshes, and so no material ever starts a new mesh.
///
/// The parser computes with the indices of a face without guarding against
/// overflow, and counts a negative index back from the end of its list.
/// Texts with such indices are left out by the precondition. On the texts
/// that are admitted the contract claims only that the outcome is a
/// function of the text: [`parsed_meshes`] names it. Where a coordinate is
/// not a number, which of its encodings comes back is left open.
#[verifier::external_body]
fn parse_meshes(data: &[u8]) -> (result: Result<Vec<RawMesh>, tobj::LoadError>)
    requires
        is_admitted(data@),
    ensures
        match result {
            Ok(meshes) => parsed_meshes(data@) == Ok::<Seq<RawMeshData>, tobj::LoadError>(
                canonical_meshes(contents(meshes@)),
            ),
            Err(cause) => parsed_meshes(data@) == Err::<Seq<RawMeshData>, tobj::LoadError>(cause),
        },
{
    let mut reader = data;
    let no_materials = |_: &std::path::Path| Err(tobj::LoadError::OpenFileFailed);
    let (models, _) = tobj::load_obj_buf(&mut reader, &tobj::GPU_LOAD_OPTIONS, no_materials)?;
    Ok(
        models.into_iter().map(
            |model| RawMesh {
                positions: model.mesh.positions.iter().map(|v| v.to_bits()).collect(),
                normals: model.mesh.normals.iter().map(|v| v.to_bits()).collect(),
                texcoords: model.mesh.texcoords.iter().map(|v| v.to_bits()).collect(),
                indices: model.mesh.indices,
            },
        ).collect(),
    )
}

/// Making the bits canonical changes neither the vertices nor the indices
/// that a list of meshes stands for, nor whether the meshes are complete.
pub proof fn lemma_canonical_meshes(meshes: Seq<RawMeshData>)
    ensures
        model_vertices(canonical_meshes(meshes)) == model_vertices(meshes),
        model_indices(canonical_meshes(meshes)) == model_indices(meshes),
        all_complete(canonical_meshes(meshes)) == all_complete(meshes),
{
    let made = canonical_meshes(meshes);
    assert forall|i: int| 0 <= i < meshes.len() implies raw_mesh_vertices(#[trigger] made[i])
        == raw_mesh_vertices(meshes[i]) && made[i].indices == meshes[i].indices && is_complete(
        made[i],
    ) == is_complete(meshes[i]) by {
        let m = meshes[i];
        assert(decoded(canonical(m).positions) =~= decoded(m.positions));
        assert(decoded(canonical(m).normals) =~= decoded(m.normals));
        assert(decoded(canonical(m).texcoords) =~= decoded(m.texcoords));
    }
    assert(made.map_values(|m: RawMeshData| raw_mesh_vertices(m)) =~= meshes.map_values(
        |m: RawMeshData| raw_mesh_vertices(m),
    ));
    assert(made.map_values(|m: RawMeshData| m.indices) =~= meshes.map_values(
        |m: RawMeshData| m.indices,
    ));
    if all_complete(meshes) {
        assert forall|i: int| 0 <= i < made.len() implies is_complete(#[trigger] made[i]) by {
            assert(is_complete(meshes[i]));
        }
    }
    if all_complete(made) {
        assert forall|i: int| 0 <= i < meshes.len() implies is_complete(#[trigger] meshes[i]) by {
            assert(is_complete(made[i]));
        }
    }
}

/// The fixed-point numbers that a list of single-precision numbers stands
/// for.
pub open spec fn decoded(bits: Seq<u32>) -> Seq<i32> {
    bits.map_values(|b: u32| spec_fixed_from_bits(b))
}

/// Whether a mesh has normals for all of its vertices or for none, and
/// likewise texture coordinates.
pub open spec fn is_complete(mesh: RawMeshData) -> bool {
    &&& mesh.normals.len() == 0 || mesh.normals.len() >= 3 * (mesh.positions.len() / 3)
    &&& mesh.texcoords.len() == 0 || mesh.texcoords.len() >= 2 * (mesh.positions.len() / 3)
}

/// Whether every mesh of the list is complete.
pub open spec fn all_complete(meshes: Seq<RawMeshData>) -> bool {
    forall|i: int| 0 <= i < meshes.len() ==> is_complete(#[trigger] meshes[i])
}

/// The vertices of one parsed mesh.
pub open spec fn raw_mesh_vertices(mesh: RawMeshData) -> Seq<Vertex> {
    mesh_vertices(decoded(mesh.positions), decoded(mesh.normals), decoded(mesh.texcoords))
}

/// The vertex pool of a model: the vertices of its meshes, one mesh after
/// the other.
pub open spec fn model_vertices(meshes: Seq<RawMeshData>) -> Seq<Vertex> {
    meshes.map_values(|m: RawMeshData| raw_mesh_vertices(m)).flatten()
}

/// The index list of a model: the index lists of its meshes, one after the
/// other, each as the file gives it.
pub open spec fn model_indices(meshes: Seq<RawMeshData>) -> Seq<u32> {
    meshes.map_values(|m: RawMeshData| m.indices).flatten()
}

fn decode(bits: &Vec<u32>) -> (numbers: Vec<i32>)
    ensures
        numbers@ == decoded(bits@),
{
    let mut numbers: Vec<i32> = Vec::new();
    let mut i: usize = 0;
    while i < bits.len()
        invariant
            i <= bits@.len(),
            numbers@.len() == i,
            forall|k: int| 0 <= k < i ==> numbers@[k] == spec_fixed_from_bits(bits@[k]),
        decreases bits@.len() - i,
    {
        numbers.push(fixed_from_bits(bits[i]));
        i = i + 1;
    }
    assert(numbers@ =~= decoded(bits@));
    numbers
}

impl RawMesh {
    /// Tells whether the mesh has normals for all of its vertices or for
    /// none, and likewise texture coordinates.
    pub fn is_complete(&self) -> (yes: bool)
        ensures
            yes == is_complete(self@),
    {
        let count = self.positions.len() / 3;
        (self.normals.len() == 0 || self.normals.len() / 3 >= count) && (self.texcoords.len() == 0
            || self.texcoords.len() / 2 >= count)
    }
}

impl Obj {
    /// Whether every index names a vertex of the pool.
    pub open spec fn wf(&self) -> bool {
        forall|i: int| 0 <= i < self.indices@.len() ==> self.indices@[i] < self.vertices@.len()
    }

    /// The vertices in the order in which the indices list them.
    pub open spec fn spec_vertex_array(&self) -> Seq<Vertex> {
        Seq::new(self.indices@.len(), |i: int| self.vertices@[self.indices@[i] as int])
    }

    /// The mesh without vertices.
    pub fn new() -> (obj: Obj)
        ensures
            obj.vertices@.len() == 0,
            obj.indices@.len() == 0,
    {
        Obj { vertices: Vec::new(), indices: Vec::new() }
    }

    /// Tells whether every index names a vertex of the pool.
    pub fn has_valid_indices(&self) -> (valid: bool)
        ensures
            valid == self.wf(),
    {
        let mut i: usize = 0;
        while i < self.indices.len()
            invariant
                i <= self.indices@.len(),
                forall|k: int| 0 <= k < i ==> self.indices@[k] < self.vertices@.len(),
            decreases self.indices@.len() - i,
        {
            if self.indices[i] as usize >= self.vertices.len() {
                return false;
            }
            i = i + 1;
        }
        true
    }

    /// Expands the mesh into a flat list of vertices, three per triangle,
    /// by looking up every index in turn.
    pub fn get_vertex_array(&self) -> (vertex_array: Vec<Vertex>)
        requires
            self.wf(),
        ensures
            vertex_array@ == self.spec_vertex_array(),
    {
        let mut vertex_array: Vec<Vertex> = Vec::new();
        let mut i: usize = 0;
        while i < self.indices.len()
            invariant
                self.wf(),
                i <= self.indices@.len(),
                vertex_array@.len() == i,
                forall|k: int|
                    0 <= k < i ==> vertex_array@[k] == self.vertices@[self.indices@[k] as int],
            decreases self.indices@.len() - i,
        {
            vertex_array.push(self.vertices[self.indices[i] as usize]);
            i = i + 1;
        }
        assert(vertex_array@ =~= self.spec_vertex_array());
        vertex_array
    }

    /// Adds one mesh of a model file to this one. The mesh is given as the
    /// file lists it: flat coordinates and its own index list. Its vertices
    /// follow those already held, and its indices are taken over as they
    /// are.
    pub fn append_mesh(
        &mut self,
        positions: &Vec<i32>,
        normals: &Vec<i32>,
        texcoords: &Vec<i32>,
        indices: &Vec<u32>,
    )
        requires
            normals@.len() == 0 || normals@.len() >= 3 * (positions@.len() / 3),
            texcoords@.len() == 0 || texcoords@.len() >= 2 * (positions@.len() / 3),
        ensures
            final(self).vertices@ == old(self).vertices@ + mesh_vertices(
                positions@,
                normals@,
                texcoords@,
            ),
            final(self).indices@ == old(self).indices@ + indices@,
    {
        let total = positions.len();
        let num_vertices = total / 3;
        let mut i: usize = 0;
        while i < num_vertices
            invariant
                i <= num_vertices,
                total == positions@.len(),
                num_vertices == total / 3,
                normals@.len() == 0 || normals@.len() >= 3 * num_vertices,
                texcoords@.len() == 0 || texcoords@.len() >= 2 * num_vertices,
                self.indices@ == old(self).indices@,
                self.vertices@ == old(self).vertices@ + mesh_vertices(
                    positions@,
                    normals@,
                    texcoords@,
                ).take(i as int),
            decreases num_vertices - i,
        {
            let position = Vector3 {
                x: positions[i * 3],
                y: fixed_neg(positions[i * 3 + 1]),
                z: positions[i * 3 + 2],
            };
            let normal = if normals.len() > 0 {
                Vector3 { x: normals[i * 3], y: normals[i * 3 + 1], z: normals[i * 3 + 2] }
            } else {
                Vector3 { x: 0, y: 0, z: 0 }
            };
            let tex_coords = if texcoords.len() > 0 {
                Vector2 { x: texcoords[i * 2], y: texcoords[i * 2 + 1] }
            } else {
                Vector2 { x: 0, y: 0 }
            };
            self.vertices.push(Vertex::new(position, normal, tex_coords));
            proof {
                let all = mesh_vertices(positions@, normals@, texcoords@);
                assert(all.take(i + 1) =~= all.take(i as int).push(all[i as int]));
                assert(self.vertices@ =~= old(self).vertices@ + all.take(i + 1));
            }
            i = i + 1;
        }
        proof {
            let all = mesh_vertices(positions@, normals@, texcoords@);
            assert(all.take(num_vertices as int) =~= all);
        }
        let mut k: usize = 0;
        while k < indices.len()
            invariant
                k <= indices@.len(),
                self.vertices@ == old(self).vertices@ + mesh_vertices(
                    positions@,
                    normals@,
                    texcoords@,
                ),
                self.indices@ == old(self).indices@ + indices@.take(k as int),
            decreases indices@.len() - k,
        {
            self.indices.push(indices[k]);
            assert(self.indices@ =~= old(self).indices@ + indices@.take(k + 1));
            k = k + 1;
        }
        assert(indices@.take(indices@.len() as int) =~= indices@);
    }

    /// Builds the model from the meshes that a parser found in a file: the
    /// meshes are added in turn, each with its vertical axis flipped.
    pub fn from_meshes(meshes: &Vec<RawMesh>) -> (obj: Obj)
        requires
            all_complete(contents(meshes@)),
        ensures
            obj.vertices@ == model_vertices(contents(meshes@)),
            obj.indices@ == model_indices(contents(meshes@)),
    {
        let ghost all = contents(meshes@);
        let ghost pools = all.map_values(|m: RawMeshData| raw_mesh_vertices(m));
        let ghost lists = all.map_values(|m: RawMeshData| m.indices);
        let mut obj = Obj { vertices: Vec::new(), indices: Vec::new() };
        let mut i: usize = 0;
        assert(pools.take(0) =~= Seq::<Seq<Vertex>>::empty());
        assert(lists.take(0) =~= Seq::<Seq<u32>>::empty());
        while i < meshes.len()
            invariant
                i <= meshes@.len(),
                all == contents(meshes@),
                all_complete(all),
                pools == all.map_values(|m: RawMeshData| raw_mesh_vertices(m)),
                lists == all.map_values(|m: RawMeshData| m.indices),
                obj.vertices@ == pools.take(i as int).flatten(),
                obj.indices@ == lists.take(i as int).flatten(),
            decreases meshes@.len() - i,
        {
            let mesh = &meshes[i];
            assert(is_complete(all[i as int]));
            let positions = decode(&mesh.positions);
            let normals = decode(&mesh.normals);
            let texcoords = decode(&mesh.texcoords);
            obj.append_mesh(&positions, &normals, &texcoords, &mesh.indices);
            proof {
                assert(pools.take(i + 1) =~= pools.take(i as int).push(pools[i as int]));
                assert(lists.take(i + 1) =~= lists.take(i as int).push(lists[i as int]));
                pools.take(i as int).lemma_flatten_push(pools[i as int]);
                lists.take(i as int).lemma_flatten_push(lists[i as int]);
            }
            i = i + 1;
        }
        assert(pools.take(meshes@.len() as int) =~= pools);
        assert(lists.take(meshes@.len() as int) =~= lists);
        obj
    }

    /// Loads a model from the text of a model file. Material libraries that
    /// the text names are not consulted. It fails where the text lists an
    /// index that the parser is not given, where the text is not a
    /// well-formed model, and where a mesh of the model is not complete.
    pub fn load(data: &[u8]) -> (result: Result<Obj, MeshError>)
        ensures
            match result {
                Ok(obj) => parsed_meshes(data@) matches Ok(meshes) && is_admitted(data@)
                    && all_complete(meshes) && obj.vertices@ == model_vertices(meshes)
                    && obj.indices@ == model_indices(meshes),
                Err(MeshError::Unsupported) => !is_admitted(data@),
                Err(MeshError::Syntax(cause)) => is_admitted(data@) && parsed_meshes(data@) == Err::<
                    Seq<RawMeshData>,
                    tobj::LoadError,
                >(cause),
                Err(MeshError::Incomplete) => parsed_meshes(data@) matches Ok(meshes)
                    && is_admitted(data@) && !all_complete(meshes),
            },
    {
        if !admits(data) {
            return Err(MeshError::Unsupported);
        }
        match parse_meshes(data) {
            Err(cause) => Err(MeshError::Syntax(cause)),
            Ok(meshes) => {
                proof {
                    lemma_canonical_meshes(contents(meshes@));
                }
                let mut i: usize = 0;
                while i < meshes.len()
                    invariant
                        i <= meshes@.len(),
                        is_admitted(data@),
                        parsed_meshes(data@) == Ok::<Seq<RawMeshData>, tobj::LoadError>(
                            canonical_meshes(contents(meshes@)),
                        ),
                        all_complete(canonical_meshes(contents(meshes@))) == all_complete(
                            contents(meshes@),
                        ),
                        forall|k: int|
                            0 <= k < i ==> is_complete(#[trigger] contents(meshes@)[k]),
                    decreases meshes@.len() - i,
                {
                    if !meshes[i].is_complete() {
                        assert(!is_complete(contents(meshes@)[i as int]));
                        return Err(MeshError::Incomplete);
                    }
                    i = i + 1;
                }
                Ok(Obj::from_meshes(&meshes))
            },
        }
    }

    /// The index list of a grid of `rows` by `cols` cells whose `(rows + 1)
    /// * (cols + 1)` vertices are numbered row by row: two triangles per
    /// cell, the cells row by row. Spheres and rings are such grids.
    pub fn grid_indices(rows: u32, cols: u32) -> (indices: Vec<u32>)
        requires
            (rows + 1) * (cols + 1) <= u32::MAX,
        ensures
            indices@ == spec_grid_indices(rows, cols),
    {
        let ghost cells = grid_cells(rows as int, cols as int);
        let mut indices: Vec<u32> = Vec::new();
        assert(cols + 1 <= (rows + 1) * (cols + 1)) by (nonlinear_arith);
        let stride: u32 = cols + 1;
        let mut i: u32 = 0;
        assert(cells.take(0) =~= Seq::<Seq<u32>>::empty());
        assert(0 * cols == 0);
        while i < rows
            invariant
                i <= rows,
                stride == cols + 1,
                (rows + 1) * (cols + 1) <= u32::MAX,
                cells == grid_cells(rows as int, cols as int),
                indices@ == cells.take(i * cols).flatten(),
            decreases rows - i,
        {
            let mut j: u32 = 0;
            while j < cols
                invariant
                    i < rows,
                    j <= cols,
                    stride == cols + 1,
                    (rows + 1) * (cols + 1) <= u32::MAX,
                    cells == grid_cells(rows as int, cols as int),
                    indices@ == cells.take(i * cols + j).flatten(),
                decreases cols - j,
            {
                proof {
                    lemma_grid_cell_at(rows as int, cols as int, i as int, j as int);
                    lemma_grid_cell_bounds(rows as int, cols as int, i as int, j as int);
                    assert((i + 1) * (cols + 1) == i * (cols + 1) + cols + 1) by (nonlinear_arith);
                }
                let first: u32 = i * stride + j;
                let second: u32 = first + 1;
                let third: u32 = first + stride;
                let fourth: u32 = third + 1;
                let ghost before = indices@;
                indices.push(first);
                indices.push(second);
                indices.push(third);
                indices.push(second);
                indices.push(fourth);
                indices.push(third);
                proof {
                    let cell = grid_cell(cols as int, i as int, j as int);
                    assert(indices@ =~= before + cell);
                    assert(cells.take(i * cols + j + 1) =~= cells.take(i * cols + j).push(cell));
                    cells.take(i * cols + j).lemma_flatten_push(cell);
                }
                j = j + 1;
            }
            assert(i * cols + cols == (i + 1) * cols) by (nonlinear_arith);
            i = i + 1;
        }
        assert(cells.take(rows * cols) =~= cells);
        indices
    }
}

/// Whether `cell` is one of the cells of a grid of `rows` by `cols` cells.
pub open spec fn is_grid_cell(cell: Seq<u32>, rows: int, cols: int) -> bool {
    exists|i: int, j: int| 0 <= i < rows && 0 <= j < cols && cell == #[trigger] grid_cell(cols, i, j)
}

/// Every index of a grid names one of its `(rows + 1) * (cols + 1)`
/// vertices.
pub proof fn lemma_grid_indices_in_range(rows: u32, cols: u32, k: int)
    requires
        (rows + 1) * (cols + 1) <= u32::MAX,
        0 <= k < spec_grid_indices(rows, cols).len(),
    ensures
        spec_grid_indices(rows, cols)[k] < (rows + 1) * (cols + 1),
{
    let cells = grid_cells(rows as int, cols as int);
    assert forall|c: int| 0 <= c < cells.len() implies is_grid_cell(
        #[trigger] cells[c],
        rows as int,
        cols as int,
    ) by {
        assert(cols > 0 && 0 <= c / (cols as int) < rows && 0 <= c % (cols as int) < cols)
            by (nonlinear_arith)
            requires
                0 <= c < rows * cols,
                0 <= rows,
                0 <= cols,
        ;
        assert(cells[c] == grid_cell(cols as int, c / (cols as int), c % (cols as int)));
    }
    lemma_flatten_of_bounded(cells, rows as int, cols as int, k);
}

proof fn lemma_flatten_of_bounded(cells: Seq<Seq<u32>>, rows: int, cols: int, k: int)
    requires
        0 <= rows,
        0 <= cols,
        (rows + 1) * (cols + 1) <= u32::MAX,
        0 <= k < cells.flatten().len(),
        forall|c: int| 0 <= c < cells.len() ==> is_grid_cell(#[trigger] cells[c], rows, cols),
    ensures
        cells.flatten()[k] < (rows + 1) * (cols + 1),
    decreases cells.len(),
{
    cells.lemma_flatten_and_flatten_alt_are_equivalent();
    if cells.len() > 0 {
        let front = cells.drop_last();
        front.lemma_flatten_and_flatten_alt_are_equivalent();
        assert(cells.flatten() =~= front.flatten() + cells.last());
        if k < front.flatten().len() {
            assert forall|c: int| 0 <= c < front.len() implies is_grid_cell(
                #[trigger] front[c],
                rows,
                cols,
            ) by {
                assert(front[c] == cells[c]);
            }
            lemma_flatten_of_bounded(front, rows, cols, k);
        } else {
            assert(is_grid_cell(cells[cells.len() - 1], rows, cols));
            let (i, j) = choose|i: int, j: int|
                0 <= i < rows && 0 <= j < cols && cells.last() == #[trigger] grid_cell(cols, i, j);
            lemma_grid_cell_bounds(rows, cols, i, j);
        }
    }
}

} // verus!
