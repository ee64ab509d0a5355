//! Triangle index lists of the tessellated primitives (sphere, cylinder and
//! cone). Their vertices are laid out by the caller in a fixed order; these
//! functions produce the triangles over that layout, three indices per
//! triangle, and state which vertex each index names.

use vstd::prelude::*;

verus! {

/// Every index of `s` names one of `vertex_count` vertices.
pub open spec fn all_below(s: Seq<usize>, vertex_count: int) -> bool {
    forall|k: int| 0 <= k < s.len() ==> #[trigger] s[k] < vertex_count
}

proof fn lemma_all_below_concat(a: Seq<usize>, b: Seq<usize>, n: int)
    requires
        all_below(a, n),
        all_below(b, n),
    ensures
        all_below(a + b, n),
{
    assert forall|k: int| 0 <= k < (a + b).len() implies #[trigger] (a + b)[k] < n by {
        if k < a.len() {
            assert((a + b)[k] == a[k]);
        } else {
            assert((a + b)[k] == b[k - a.len()]);
        }
    }
}

/// The three corners of triangle `t` of an index list.
pub open spec fn triangle_at(indices: Seq<usize>, t: int) -> (usize, usize, usize) {
    (indices[3 * t], indices[3 * t + 1], indices[3 * t + 2])
}

/// The triangles of a concatenation are those of its first list, then
/// those of its second.
proof fn lemma_triangle_at_concat(a: Seq<usize>, b: Seq<usize>, k: int)
    requires
        a.len() == 3 * k,
    ensures
        forall|t: int| 0 <= t < k ==> #[trigger] triangle_at(a + b, t) == triangle_at(a, t),
        forall|t: int|
            k <= t && 3 * t + 2 < a.len() + b.len() ==> #[trigger] triangle_at(a + b, t) == triangle_at(
                b,
                t - k,
            ),
{
    assert forall|t: int| 0 <= t < k implies #[trigger] triangle_at(a + b, t) == triangle_at(a, t) by {
        assert((a + b)[3 * t] == a[3 * t]);
        assert((a + b)[3 * t + 1] == a[3 * t + 1]);
        assert((a + b)[3 * t + 2] == a[3 * t + 2]);
    }
    assert forall|t: int|
        k <= t && 3 * t + 2 < a.len() + b.len() implies #[trigger] triangle_at(a + b, t) == triangle_at(
        b,
        t - k,
    ) by {
        assert((a + b)[3 * t] == b[3 * (t - k)]);
        assert((a + b)[3 * t + 1] == b[3 * (t - k) + 1]);
        assert((a + b)[3 * t + 2] == b[3 * (t - k) + 2]);
    }
}

/// The two triangles of quad `q` of an index list of quads.
pub open spec fn quad_at(indices: Seq<usize>, q: int) -> ((usize, usize, usize), (usize, usize, usize)) {
    (triangle_at(indices, 2 * q), triangle_at(indices, 2 * q + 1))
}

/// The quads of a concatenation are those of its first list, then those of
/// its second.
proof fn lemma_quad_at_concat(a: Seq<usize>, b: Seq<usize>, k: int)
    requires
        a.len() == 6 * k,
    ensures
        forall|q: int| 0 <= q < k ==> #[trigger] quad_at(a + b, q) == quad_at(a, q),
        forall|q: int|
            k <= q && 6 * q + 5 < a.len() + b.len() ==> #[trigger] quad_at(a + b, q) == quad_at(b, q - k),
{
    lemma_triangle_at_concat(a, b, 2 * k);
    assert forall|q: int| 0 <= q < k implies #[trigger] quad_at(a + b, q) == quad_at(a, q) by {
        assert(triangle_at(a + b, 2 * q) == triangle_at(a, 2 * q));
        assert(triangle_at(a + b, 2 * q + 1) == triangle_at(a, 2 * q + 1));
    }
    assert forall|q: int|
        k <= q && 6 * q + 5 < a.len() + b.len() implies #[trigger] quad_at(a + b, q) == quad_at(b, q - k) by {
        assert(triangle_at(a + b, 2 * q) == triangle_at(b, 2 * q - 2 * k));
        assert(triangle_at(a + b, 2 * q + 1) == triangle_at(b, 2 * q + 1 - 2 * k));
        assert(2 * (q - k) == 2 * q - 2 * k);
    }
}

// ---------------------------------------------------------------- sphere

/// The two triangles of the grid cell whose lower-left vertex is `i`, on a
/// grid `resolution + 1` vertices wide.
pub open spec fn sphere_cell(i: int, resolution: int) -> Seq<usize> {
    seq![
        i as usize,
        (i + 1) as usize,
        (i + resolution + 1) as usize,
        (i + resolution + 1) as usize,
        (i + 1) as usize,
        (i + resolution + 2) as usize,
    ]
}

/// The first `columns` cells of row `row` of a sphere face whose vertices
/// start at `start`.
pub open spec fn sphere_row(start: int, resolution: int, row: int, columns: nat) -> Seq<usize>
    decreases columns,
{
    if columns == 0 {
        Seq::empty()
    } else {
        sphere_row(start, resolution, row, (columns - 1) as nat) + sphere_cell(
            start + (columns - 1) + row * (resolution + 1),
            resolution,
        )
    }
}

/// The first `rows` rows of cells of a sphere face whose vertices start at
/// `start`.
pub open spec fn sphere_face(start: int, resolution: int, rows: nat) -> Seq<usize>
    decreases rows,
{
    if rows == 0 {
        Seq::empty()
    } else {
        sphere_face(start, resolution, (rows - 1) as nat) + sphere_row(
            start,
            resolution,
            rows - 1,
            resolution as nat,
        )
    }
}

/// The cells of the first `faces` of the six cube faces that are projected
/// onto the sphere; face `f` owns the vertices from `f * (resolution + 1)^2`.
pub open spec fn sphere_faces(resolution: int, faces: nat) -> Seq<usize>
    decreases faces,
{
    if faces == 0 {
        Seq::empty()
    } else {
        sphere_faces(resolution, (faces - 1) as nat) + sphere_face(
            (faces - 1) * ((resolution + 1) * (resolution + 1)),
            resolution,
            resolution as nat,
        )
    }
}

/// The index list of a sphere of `subdivisions` subdivisions: six faces of
/// `(subdivisions + 1)^2` cells, two triangles per cell.
pub open spec fn spec_sphere_indices(subdivisions: nat) -> Seq<usize> {
    sphere_faces(subdivisions + 1int, 6)
}

proof fn lemma_sphere_row_facts(start: int, resolution: int, row: int, columns: nat)
    requires
        0 <= start,
        0 <= row < resolution,
        columns <= resolution,
        start + (resolution + 1) * (resolution + 1) <= usize::MAX + 1,
    ensures
        sphere_row(start, resolution, row, columns).len() == 6 * columns,
        all_below(
            sphere_row(start, resolution, row, columns),
            start + (resolution + 1) * (resolution + 1),
        ),
    decreases columns,
{
    if columns > 0 {
        let c = columns - 1;
        lemma_sphere_row_facts(start, resolution, row, c as nat);
        let i = start + c + row * (resolution + 1);
        assert(i + resolution + 2 < start + (resolution + 1) * (resolution + 1)) by (nonlinear_arith)
            requires
                0 <= c < resolution,
                0 <= row < resolution,
                i == start + c + row * (resolution + 1),
        ;
        assert(0 <= row * (resolution + 1)) by (nonlinear_arith)
            requires
                0 <= row,
                0 <= resolution,
        ;
        let cell = sphere_cell(i, resolution);
        assert(cell[0] == i);
        assert(cell[1] == i + 1);
        assert(cell[2] == i + resolution + 1);
        assert(cell[3] == i + resolution + 1);
        assert(cell[4] == i + 1);
        assert(cell[5] == i + resolution + 2);
        assert(all_below(cell, start + (resolution + 1) * (resolution + 1)));
        lemma_all_below_concat(
            sphere_row(start, resolution, row, c as nat),
            cell,
            start + (resolution + 1) * (resolution + 1),
        );
    }
}

proof fn lemma_sphere_face_facts(start: int, resolution: int, rows: nat)
    requires
        0 <= start,
        rows <= resolution,
        start + (resolution + 1) * (resolution + 1) <= usize::MAX + 1,
    ensures
        sphere_face(start, resolution, rows).len() == 6 * resolution * rows,
        all_below(sphere_face(start, resolution, rows), start + (resolution + 1) * (resolution + 1)),
    decreases rows,
{
    if rows > 0 {
        lemma_sphere_face_facts(start, resolution, (rows - 1) as nat);
        lemma_sphere_row_facts(start, resolution, rows - 1, resolution as nat);
        lemma_all_below_concat(
            sphere_face(start, resolution, (rows - 1) as nat),
            sphere_row(start, resolution, rows - 1, resolution as nat),
            start + (resolution + 1) * (resolution + 1),
        );
        assert(6 * resolution * (rows - 1) + 6 * resolution == 6 * resolution * rows) by (nonlinear_arith);
    }
}

proof fn lemma_sphere_faces_facts(resolution: int, faces: nat)
    requires
        1 <= resolution,
        faces <= 6,
        6 * ((resolution + 1) * (resolution + 1)) <= usize::MAX + 1,
    ensures
        sphere_faces(resolution, faces).len() == 6 * resolution * resolution * faces,
        all_below(sphere_faces(resolution, faces), faces * ((resolution + 1) * (resolution + 1))),
    decreases faces,
{
    if faces > 0 {
        let sq = (resolution + 1) * (resolution + 1);
        let start = (faces - 1) * sq;
        lemma_sphere_faces_facts(resolution, (faces - 1) as nat);
        assert(0 <= start && start + sq == faces * sq && faces * sq <= 6 * sq) by (nonlinear_arith)
            requires
                1 <= faces <= 6,
                start == (faces - 1) * sq,
                0 <= sq,
        ;
        lemma_sphere_face_facts(start, resolution, resolution as nat);
        assert forall|k: int|
            0 <= k < sphere_faces(resolution, (faces - 1) as nat).len() implies #[trigger] sphere_faces(
            resolution,
            (faces - 1) as nat,
        )[k] < faces * sq by {}
        lemma_all_below_concat(
            sphere_faces(resolution, (faces - 1) as nat),
            sphere_face(start, resolution, resolution as nat),
            faces * sq,
        );
        assert(6 * resolution * resolution * (faces - 1) + 6 * resolution * resolution == 6 * resolution
            * resolution * faces) by (nonlinear_arith);
    }
}

/// The two triangles of the grid cell whose lower-left vertex is `i`, on a
/// grid `resolution + 1` vertices wide: the lower-left one and the
/// upper-right one, both wound the same way.
pub open spec fn sphere_cell_triangles(i: int, resolution: int) -> ((usize, usize, usize), (usize, usize, usize)) {
    (
        (i as usize, (i + 1) as usize, (i + resolution + 1) as usize),
        ((i + resolution + 1) as usize, (i + 1) as usize, (i + resolution + 2) as usize),
    )
}

/// The cell in row `row` and column `column` of a face of cells
/// `resolution` wide.
pub open spec fn face_cell(indices: Seq<usize>, resolution: int, row: int, column: int) -> (
    (usize, usize, usize),
    (usize, usize, usize),
) {
    quad_at(indices, row * resolution + column)
}

/// The cell in row `row` and column `column` of cube face `face` of a
/// sphere of `resolution` cells per edge.
pub open spec fn sphere_grid_cell(
    indices: Seq<usize>,
    resolution: int,
    face: int,
    row: int,
    column: int,
) -> ((usize, usize, usize), (usize, usize, usize)) {
    quad_at(indices, face * (resolution * resolution) + row * resolution + column)
}

proof fn lemma_sphere_row_cells(start: int, resolution: int, row: int, columns: nat)
    ensures
        sphere_row(start, resolution, row, columns).len() == 6 * columns,
        forall|c: int| 0 <= c < columns ==> #[trigger] quad_at(sphere_row(start, resolution, row, columns), c)
            == sphere_cell_triangles(start + c + row * (resolution + 1), resolution),
    decreases columns,
{
    if columns > 0 {
        let n = columns - 1;
        let prev = sphere_row(start, resolution, row, n as nat);
        let cell = sphere_cell(start + n + row * (resolution + 1), resolution);
        lemma_sphere_row_cells(start, resolution, row, n as nat);
        lemma_quad_at_concat(prev, cell, n);
        assert(quad_at(cell, 0) == sphere_cell_triangles(start + n + row * (resolution + 1), resolution));
        assert(quad_at(prev + cell, n) == quad_at(cell, n - n));
    }
}

proof fn lemma_sphere_face_cells(start: int, resolution: int, rows: nat)
    requires
        resolution >= 0,
    ensures
        sphere_face(start, resolution, rows).len() == 6 * (rows * resolution),
        forall|r: int, c: int|
            0 <= r < rows && 0 <= c < resolution ==> #[trigger] face_cell(
                sphere_face(start, resolution, rows),
                resolution,
                r,
                c,
            ) == sphere_cell_triangles(start + c + r * (resolution + 1), resolution),
    decreases rows,
{
    if rows == 0 {
        assert(rows * resolution == 0) by (nonlinear_arith)
            requires
                rows == 0,
        ;
    } else {
        let n = rows - 1;
        let prev = sphere_face(start, resolution, n as nat);
        let row_cells = sphere_row(start, resolution, n, resolution as nat);
        lemma_sphere_face_cells(start, resolution, n as nat);
        lemma_sphere_row_cells(start, resolution, n, resolution as nat);
        assert(6 * (n * resolution) + 6 * resolution == 6 * (rows * resolution)) by (nonlinear_arith)
            requires
                n == rows - 1,
        ;
        lemma_quad_at_concat(prev, row_cells, n * resolution);
        assert forall|r: int, c: int|
            0 <= r < rows && 0 <= c < resolution implies #[trigger] face_cell(
            sphere_face(start, resolution, rows),
            resolution,
            r,
            c,
        ) == sphere_cell_triangles(start + c + r * (resolution + 1), resolution) by {
            if r < n {
                assert(r * resolution + c < n * resolution) by (nonlinear_arith)
                    requires
                        0 <= r < n,
                        0 <= c < resolution,
                ;
                assert(0 <= r * resolution) by (nonlinear_arith)
                    requires
                        0 <= r,
                        0 <= resolution,
                ;
                assert(face_cell(prev, resolution, r, c) == quad_at(prev, r * resolution + c));
            } else {
                assert(r * resolution + c - n * resolution == c);
                assert(6 * (r * resolution + c) + 5 < 6 * (rows * resolution)) by (nonlinear_arith)
                    requires
                        r == rows - 1,
                        0 <= c < resolution,
                ;
                assert(n * resolution <= r * resolution + c);
                assert(quad_at(prev + row_cells, r * resolution + c) == quad_at(row_cells, c));
            }
        }
    }
}

proof fn lemma_sphere_faces_cells(resolution: int, faces: nat)
    requires
        resolution >= 0,
    ensures
        sphere_faces(resolution, faces).len() == 6 * (faces * (resolution * resolution)),
        forall|f: int, r: int, c: int|
            0 <= f < faces && 0 <= r < resolution && 0 <= c < resolution ==> #[trigger] sphere_grid_cell(
                sphere_faces(resolution, faces),
                resolution,
                f,
                r,
                c,
            ) == sphere_cell_triangles(
                f * ((resolution + 1) * (resolution + 1)) + c + r * (resolution + 1),
                resolution,
            ),
    decreases faces,
{
    if faces == 0 {
        assert(faces * (resolution * resolution) == 0) by (nonlinear_arith)
            requires
                faces == 0,
        ;
    } else {
        let n = faces - 1;
        let sq = resolution * resolution;
        let start = n * ((resolution + 1) * (resolution + 1));
        let prev = sphere_faces(resolution, n as nat);
        let face = sphere_face(start, resolution, resolution as nat);
        lemma_sphere_faces_cells(resolution, n as nat);
        lemma_sphere_face_cells(start, resolution, resolution as nat);
        assert(6 * (n * sq) + 6 * (resolution * resolution) == 6 * (faces * sq)) by (nonlinear_arith)
            requires
                n == faces - 1,
                sq == resolution * resolution,
        ;
        assert(0 <= sq) by (nonlinear_arith)
            requires
                sq == resolution * resolution,
        ;
        lemma_quad_at_concat(prev, face, n * sq);
        assert forall|f: int, r: int, c: int|
            0 <= f < faces && 0 <= r < resolution && 0 <= c < resolution implies #[trigger] sphere_grid_cell(
            sphere_faces(resolution, faces),
            resolution,
            f,
            r,
            c,
        ) == sphere_cell_triangles(
            f * ((resolution + 1) * (resolution + 1)) + c + r * (resolution + 1),
            resolution,
        ) by {
            let q = f * sq + r * resolution + c;
            assert(0 <= r * resolution + c < sq) by (nonlinear_arith)
                requires
                    0 <= r < resolution,
                    0 <= c < resolution,
                    sq == resolution * resolution,
            ;
            if f < n {
                assert(q < n * sq) by (nonlinear_arith)
                    requires
                        0 <= f < n,
                        q == f * sq + r * resolution + c,
                        0 <= r * resolution + c < sq,
                ;
                assert(0 <= f * sq) by (nonlinear_arith)
                    requires
                        0 <= f,
                        0 <= sq,
                ;
                assert(sphere_grid_cell(prev, resolution, f, r, c) == quad_at(prev, q));
            } else {
                assert(q - n * sq == r * resolution + c);
                assert(6 * q + 5 < 6 * (faces * sq)) by (nonlinear_arith)
                    requires
                        f == faces - 1,
                        q == f * sq + r * resolution + c,
                        0 <= r * resolution + c < sq,
                ;
                assert(quad_at(prev + face, q) == quad_at(face, r * resolution + c));
                assert(face_cell(face, resolution, r, c) == quad_at(face, r * resolution + c));
            }
        }
    }
}

/// What each triangle of a sphere joins. The sphere is a cube whose six
/// faces carry grids of `s + 2` by `s + 2` vertices, face `f` owning the
/// vertices from `f * (s + 2)^2`, row by row. Each face has `s + 1` by
/// `s + 1` cells, listed face by face and row by row; the cell in row `r`
/// and column `c` of face `f`, whose lower-left vertex is
/// `i = f * (s + 2)^2 + r * (s + 2) + c`, is split into the triangles
/// `(i, i + 1, i + s + 2)` and `(i + s + 2, i + 1, i + s + 3)`.
pub proof fn lemma_sphere_triangles(s: int)
    requires
        s >= 0,
    ensures
        spec_sphere_indices(s as nat).len() == 36 * ((s + 1) * (s + 1)),
        forall|f: int, r: int, c: int|
            0 <= f < 6 && 0 <= r <= s && 0 <= c <= s ==> #[trigger] sphere_grid_cell(
                spec_sphere_indices(s as nat),
                s + 1,
                f,
                r,
                c,
            ) == sphere_cell_triangles(f * ((s + 2) * (s + 2)) + r * (s + 2) + c, s + 1),
{
    lemma_sphere_faces_cells(s + 1, 6);
    assert forall|f: int, r: int, c: int|
        0 <= f < 6 && 0 <= r <= s && 0 <= c <= s implies #[trigger] sphere_grid_cell(
        spec_sphere_indices(s as nat),
        s + 1,
        f,
        r,
        c,
    ) == sphere_cell_triangles(f * ((s + 2) * (s + 2)) + r * (s + 2) + c, s + 1) by {
        assert(f * ((s + 1 + 1) * (s + 1 + 1)) + c + r * (s + 1 + 1) == f * ((s + 2) * (s + 2)) + r * (s + 2)
            + c);
    }
}

/// The triangle indices of a sphere tessellated as a cube of
/// `subdivisions + 1` cells per edge projected onto the sphere: every index
/// names one of the `6 * (subdivisions + 2)^2` vertices.
pub fn sphere_indices(subdivisions: u32) -> (indices: Vec<usize>)
    requires
        6 * ((subdivisions + 2) * (subdivisions + 2)) <= u32::MAX,
    ensures
        indices@ == spec_sphere_indices(subdivisions as nat),
        indices@.len() == 36 * (subdivisions + 1) * (subdivisions + 1),
        all_below(indices@, 6 * ((subdivisions + 2) * (subdivisions + 2))),
        forall|f: int, r: int, c: int|
            0 <= f < 6 && 0 <= r <= subdivisions && 0 <= c <= subdivisions ==> #[trigger] sphere_grid_cell(
                indices@,
                subdivisions + 1,
                f,
                r,
                c,
            ) == sphere_cell_triangles(
                f * ((subdivisions + 2) * (subdivisions + 2)) + r * (subdivisions + 2) + c,
                subdivisions + 1,
            ),
{
    assert(subdivisions + 2 <= 0x10000) by (nonlinear_arith)
        requires
            6 * ((subdivisions + 2) * (subdivisions + 2)) <= u32::MAX,
    ;
    let resolution: usize = subdivisions as usize + 1;
    let ghost r = resolution as int;
    let mut indices: Vec<usize> = Vec::new();
    let mut face: usize = 0;
    let side: usize = resolution + 1;
    assert(side * side <= u32::MAX) by (nonlinear_arith)
        requires
            6 * (side * side) <= u32::MAX,
    ;
    let square: usize = side * side;
    while face < 6
        invariant
            r == resolution as int,
            1 <= resolution,
            side == resolution + 1,
            square == side * side,
            6 * square <= u32::MAX,
            face <= 6,
            indices@ == sphere_faces(r, face as nat),
        decreases 6 - face,
    {
        assert(face * square <= 6 * square) by (nonlinear_arith)
            requires
                face < 6,
        ;
        let start: usize = face * square;
        let mut y: usize = 0;
        assert(sphere_face(start as int, r, 0) =~= Seq::<usize>::empty());
        assert(indices@ =~= sphere_faces(r, face as nat) + sphere_face(start as int, r, 0));
        while y < resolution
            invariant
                r == resolution as int,
                1 <= resolution,
                side == resolution + 1,
                square == side * side,
                6 * square <= u32::MAX,
                face < 6,
                start == face * square,
                y <= resolution,
                indices@ == sphere_faces(r, face as nat) + sphere_face(start as int, r, y as nat),
            decreases resolution - y,
        {
            let mut x: usize = 0;
            assert(sphere_row(start as int, r, y as int, 0) =~= Seq::<usize>::empty());
            assert(indices@ =~= sphere_faces(r, face as nat) + sphere_face(start as int, r, y as nat)
                + sphere_row(start as int, r, y as int, 0));
            while x < resolution
                invariant
                    r == resolution as int,
                    1 <= resolution,
                    side == resolution + 1,
                    square == side * side,
                    6 * square <= u32::MAX,
                    face < 6,
                    start == face * square,
                    y < resolution,
                    x <= resolution,
                    indices@ == sphere_faces(r, face as nat) + sphere_face(start as int, r, y as nat)
                        + sphere_row(start as int, r, y as int, x as nat),
                decreases resolution - x,
            {
                assert(start + x + y * side + side + 1 <= 6 * square) by (nonlinear_arith)
                    requires
                        face < 6,
                        start == face * square,
                        x < resolution,
                        y < resolution,
                        side == resolution + 1,
                        square == side * side,
                ;
                let i = start + x + y * side;
                let bottom_left = i;
                let bottom_right = i + 1;
                let top_left = i + side;
                let top_right = i + side + 1;
                indices.push(bottom_left);
                indices.push(bottom_right);
                indices.push(top_left);
                indices.push(top_left);
                indices.push(bottom_right);
                indices.push(top_right);
                proof {
                    let prefix = sphere_faces(r, face as nat) + sphere_face(start as int, r, y as nat);
                    let cell = sphere_cell(i as int, r);
                    assert(sphere_row(start as int, r, y as int, (x + 1) as nat) == sphere_row(
                        start as int,
                        r,
                        y as int,
                        x as nat,
                    ) + cell);
                    assert(indices@ =~= prefix + (sphere_row(start as int, r, y as int, x as nat) + cell));
                }
                x += 1;
            }
            assert(sphere_face(start as int, r, (y + 1) as nat) == sphere_face(start as int, r, y as nat)
                + sphere_row(start as int, r, y as int, r as nat));
            assert(indices@ =~= sphere_faces(r, face as nat) + sphere_face(start as int, r, (y + 1) as nat));
            y += 1;
        }
        assert(sphere_faces(r, (face + 1) as nat) == sphere_faces(r, face as nat) + sphere_face(
            start as int,
            r,
            r as nat,
        ));
        face += 1;
    }
    proof {
        lemma_sphere_faces_facts(r, 6);
        assert(6 * (r * r) * 6 == 36 * (subdivisions + 1) * (subdivisions + 1)) by (nonlinear_arith)
            requires
                r == subdivisions + 1,
        ;
        assert(6 * r * r * 6 == 6 * (r * r) * 6) by (nonlinear_arith);
        lemma_sphere_triangles(subdivisions as int);
    }
    indices
}

// -------------------------------------------------------------- cylinder

/// The first `n` fan triangles of the upper cap of a cylinder: centre 0,
/// rim vertices from 1, wound so that they face up.
pub open spec fn cylinder_top_fan(n: nat) -> Seq<usize>
    decreases n,
{
    if n == 0 {
        Seq::empty()
    } else {
        cylinder_top_fan((n - 1) as nat) + seq![0usize, (1 + n) as usize, n as usize]
    }
}

/// The first `n` fan triangles of the lower cap of a cylinder of
/// `subdivisions` subdivisions: centre `subdivisions + 2`, rim vertices
/// from `subdivisions + 3`, wound so that they face down.
pub open spec fn cylinder_bottom_fan(subdivisions: nat, n: nat) -> Seq<usize>
    decreases n,
{
    if n == 0 {
        Seq::empty()
    } else {
        cylinder_bottom_fan(subdivisions, (n - 1) as nat) + seq![
            (subdivisions + 2) as usize,
            (subdivisions + 2 + n) as usize,
            (subdivisions + 3 + n) as usize,
        ]
    }
}

/// The first `n` quads of the side of a cylinder whose side vertices start
/// at `start`, alternating upper and lower rim; two triangles per quad.
pub open spec fn cylinder_side(start: nat, n: nat) -> Seq<usize>
    decreases n,
{
    if n == 0 {
        Seq::empty()
    } else {
        let top_left = start + 2 * (n - 1);
        let bottom_left = top_left + 1;
        let top_right = start + 2 * n;
        let bottom_right = top_right + 1;
        cylinder_side(start, (n - 1) as nat) + seq![
            bottom_left as usize,
            top_left as usize,
            bottom_right as usize,
            top_left as usize,
            top_right as usize,
            bottom_right as usize,
        ]
    }
}

/// The index list of a cylinder of `subdivisions` subdivisions: the upper
/// cap fan and its closing triangle, the lower cap fan and its closing
/// triangle, the side quads, and a last pair of triangles over the side
/// vertices `start + subdivisions - 1` and `start + subdivisions`.
pub open spec fn spec_cylinder_indices(subdivisions: nat) -> Seq<usize> {
    let s = subdivisions;
    let start = 2 * s + 4;
    cylinder_top_fan(s) + seq![0usize, (1 + s) as usize, 1usize] + cylinder_bottom_fan(s, s) + seq![
        (s + 2) as usize,
        (s + 3) as usize,
        (2 * s + 3) as usize,
    ] + cylinder_side(start, s) + seq![
        (start + s - 1) as usize,
        (start + s) as usize,
        (start + s - 1) as usize,
        (start + s - 1) as usize,
        (start + s) as usize,
        (start + s) as usize,
    ]
}

proof fn lemma_cylinder_top_fan_triangles(n: nat)
    ensures
        cylinder_top_fan(n).len() == 3 * n,
        forall|t: int| 0 <= t < n ==> #[trigger] triangle_at(cylinder_top_fan(n), t) == (
            0usize,
            (t + 2) as usize,
            (t + 1) as usize,
        ),
    decreases n,
{
    if n > 0 {
        lemma_cylinder_top_fan_triangles((n - 1) as nat);
        lemma_triangle_at_concat(
            cylinder_top_fan((n - 1) as nat),
            seq![0usize, (1 + n) as usize, n as usize],
            n - 1,
        );
    }
}

proof fn lemma_cylinder_bottom_fan_triangles(s: nat, n: nat)
    ensures
        cylinder_bottom_fan(s, n).len() == 3 * n,
        forall|j: int| 0 <= j < n ==> #[trigger] triangle_at(cylinder_bottom_fan(s, n), j) == (
            (s + 2) as usize,
            (s + 3 + j) as usize,
            (s + 4 + j) as usize,
        ),
    decreases n,
{
    if n > 0 {
        lemma_cylinder_bottom_fan_triangles(s, (n - 1) as nat);
        lemma_triangle_at_concat(
            cylinder_bottom_fan(s, (n - 1) as nat),
            seq![(s + 2) as usize, (s + 2 + n) as usize, (s + 3 + n) as usize],
            n - 1,
        );
    }
}

proof fn lemma_cylinder_side_quads(start: nat, n: nat)
    ensures
        cylinder_side(start, n).len() == 6 * n,
        forall|q: int| 0 <= q < n ==> #[trigger] quad_at(cylinder_side(start, n), q) == (
            ((start + 2 * q + 1) as usize, (start + 2 * q) as usize, (start + 2 * q + 3) as usize),
            ((start + 2 * q) as usize, (start + 2 * q + 2) as usize, (start + 2 * q + 3) as usize),
        ),
    decreases n,
{
    if n > 0 {
        let prev = cylinder_side(start, (n - 1) as nat);
        let top_left = start + 2 * (n - 1);
        let quad = seq![
            (top_left + 1) as usize,
            top_left as usize,
            (top_left + 3) as usize,
            top_left as usize,
            (top_left + 2) as usize,
            (top_left + 3) as usize,
        ];
        lemma_cylinder_side_quads(start, (n - 1) as nat);
        assert(cylinder_side(start, n) == prev + quad);
        lemma_triangle_at_concat(prev, quad, 2 * (n - 1));
        assert forall|q: int| 0 <= q < n implies #[trigger] quad_at(cylinder_side(start, n), q) == (
            ((start + 2 * q + 1) as usize, (start + 2 * q) as usize, (start + 2 * q + 3) as usize),
            ((start + 2 * q) as usize, (start + 2 * q + 2) as usize, (start + 2 * q + 3) as usize),
        ) by {
            assert(triangle_at(prev + quad, 2 * q) == triangle_at(prev + quad, 2 * q));
            assert(triangle_at(prev + quad, 2 * q + 1) == triangle_at(prev + quad, 2 * q + 1));
            if q < n - 1 {
                assert(quad_at(prev, q) == (triangle_at(prev, 2 * q), triangle_at(prev, 2 * q + 1)));
            } else {
                assert(triangle_at(quad, 0) == triangle_at(quad, 2 * q - 2 * (n - 1)));
                assert(triangle_at(quad, 1) == triangle_at(quad, 2 * q + 1 - 2 * (n - 1)));
            }
        }
    }
}

/// Side quad `q` of a cylinder index list of `subdivisions` subdivisions.
pub open spec fn cylinder_side_quad(indices: Seq<usize>, subdivisions: nat, q: int) -> (
    (usize, usize, usize),
    (usize, usize, usize),
) {
    (triangle_at(indices, 2 * subdivisions + 2 + 2 * q), triangle_at(indices, 2 * subdivisions + 3 + 2 * q))
}

/// What each triangle of a cylinder joins. The vertices are laid out as the
/// upper cap centre 0 and its rim `1..=s+1`, the lower cap centre `s + 2`
/// and its rim `s+3..=2s+3`, then the side vertices from `2s + 4`,
/// alternating upper and lower rim. Triangles `0..s` fan the upper cap from
/// its centre over consecutive rim vertices, triangle `s` closes that fan,
/// triangles `s+1..=2s` fan the lower cap likewise (so consecutive fan
/// triangles share an edge and each rim segment is covered once), triangle
/// `2s + 1` closes it, then come two triangles per side quad over
/// consecutive side vertices, and a last pair over the last two side
/// vertices.
pub proof fn lemma_cylinder_triangles(s: int)
    requires
        s >= 1,
    ensures
        spec_cylinder_indices(s as nat).len() == 12 * s + 12,
        forall|t: int| 0 <= t < s ==> #[trigger] triangle_at(spec_cylinder_indices(s as nat), t) == (
            0usize,
            (t + 2) as usize,
            (t + 1) as usize,
        ),
        triangle_at(spec_cylinder_indices(s as nat), s) == (0usize, (s + 1) as usize, 1usize),
        forall|t: int| s + 1 <= t <= 2 * s ==> #[trigger] triangle_at(spec_cylinder_indices(s as nat), t) == (
            (s + 2) as usize,
            (t + 2) as usize,
            (t + 3) as usize,
        ),
        triangle_at(spec_cylinder_indices(s as nat), 2 * s + 1) == (
            (s + 2) as usize,
            (s + 3) as usize,
            (2 * s + 3) as usize,
        ),
        forall|q: int| 0 <= q < s ==> #[trigger] cylinder_side_quad(spec_cylinder_indices(s as nat), s as nat, q) == (
            ((2 * s + 5 + 2 * q) as usize, (2 * s + 4 + 2 * q) as usize, (2 * s + 7 + 2 * q) as usize),
            ((2 * s + 4 + 2 * q) as usize, (2 * s + 6 + 2 * q) as usize, (2 * s + 7 + 2 * q) as usize),
        ),
        triangle_at(spec_cylinder_indices(s as nat), 4 * s + 2) == (
            (3 * s + 3) as usize,
            (3 * s + 4) as usize,
            (3 * s + 3) as usize,
        ),
        triangle_at(spec_cylinder_indices(s as nat), 4 * s + 3) == (
            (3 * s + 3) as usize,
            (3 * s + 4) as usize,
            (3 * s + 4) as usize,
        ),
{
    let start = 2 * s + 4;
    let a = cylinder_top_fan(s as nat);
    let b = seq![0usize, (1 + s) as usize, 1usize];
    let c = cylinder_bottom_fan(s as nat, s as nat);
    let d = seq![(s + 2) as usize, (s + 3) as usize, (2 * s + 3) as usize];
    let e = cylinder_side(start as nat, s as nat);
    let f = seq![
        (start + s - 1) as usize,
        (start + s) as usize,
        (start + s - 1) as usize,
        (start + s - 1) as usize,
        (start + s) as usize,
        (start + s) as usize,
    ];
    let all = spec_cylinder_indices(s as nat);
    assert(all == a + b + c + d + e + f);
    lemma_cylinder_top_fan_triangles(s as nat);
    lemma_cylinder_bottom_fan_triangles(s as nat, s as nat);
    lemma_cylinder_side_quads(start as nat, s as nat);
    lemma_triangle_at_concat(a, b, s);
    lemma_triangle_at_concat(a + b, c, s + 1);
    lemma_triangle_at_concat(a + b + c, d, 2 * s + 1);
    lemma_triangle_at_concat(a + b + c + d, e, 2 * s + 2);
    lemma_triangle_at_concat(a + b + c + d + e, f, 4 * s + 2);
    assert(triangle_at(b, 0) == triangle_at(b, s - s));
    assert(triangle_at(d, 0) == triangle_at(d, 2 * s + 1 - (2 * s + 1)));
    assert(triangle_at(f, 0) == triangle_at(f, 4 * s + 2 - (4 * s + 2)));
    assert(triangle_at(f, 1) == triangle_at(f, 4 * s + 3 - (4 * s + 2)));
    assert(triangle_at(all, s) == triangle_at(a + b + c + d + e + f, s));
    assert(triangle_at(a + b + c + d + e, s) == triangle_at(a + b + c + d, s));
    assert(triangle_at(a + b + c + d, s) == triangle_at(a + b + c, s));
    assert(triangle_at(a + b + c, s) == triangle_at(a + b, s));
    assert(triangle_at(a + b, s) == triangle_at(b, 0));
    assert(triangle_at(all, 2 * s + 1) == triangle_at(a + b + c + d, 2 * s + 1));
    assert(triangle_at(a + b + c + d, 2 * s + 1) == triangle_at(d, 0));
    assert(triangle_at(all, 4 * s + 2) == triangle_at(f, 0));
    assert(triangle_at(all, 4 * s + 3) == triangle_at(f, 1));
    assert forall|t: int| 0 <= t < s implies #[trigger] triangle_at(spec_cylinder_indices(s as nat), t) == (
        0usize,
        (t + 2) as usize,
        (t + 1) as usize,
    ) by {
        assert(triangle_at(a + b + c + d + e + f, t) == triangle_at(a + b + c + d + e, t));
        assert(triangle_at(a + b + c + d + e, t) == triangle_at(a + b + c + d, t));
        assert(triangle_at(a + b + c + d, t) == triangle_at(a + b + c, t));
        assert(triangle_at(a + b + c, t) == triangle_at(a + b, t));
        assert(triangle_at(a + b, t) == triangle_at(a, t));
    }
    assert forall|t: int| s + 1 <= t <= 2 * s implies #[trigger] triangle_at(spec_cylinder_indices(s as nat), t)
        == ((s + 2) as usize, (t + 2) as usize, (t + 3) as usize) by {
        assert(triangle_at(a + b + c + d + e + f, t) == triangle_at(a + b + c + d + e, t));
        assert(triangle_at(a + b + c + d + e, t) == triangle_at(a + b + c + d, t));
        assert(triangle_at(a + b + c + d, t) == triangle_at(a + b + c, t));
        assert(triangle_at(a + b + c, t) == triangle_at(c, t - (s + 1)));
    }
    assert forall|q: int| 0 <= q < s implies #[trigger] cylinder_side_quad(spec_cylinder_indices(s as nat), s as nat, q) == (
        ((2 * s + 5 + 2 * q) as usize, (2 * s + 4 + 2 * q) as usize, (2 * s + 7 + 2 * q) as usize),
        ((2 * s + 4 + 2 * q) as usize, (2 * s + 6 + 2 * q) as usize, (2 * s + 7 + 2 * q) as usize),
    ) by {
        let t0 = 2 * s + 2 + 2 * q;
        assert(triangle_at(a + b + c + d + e + f, t0) == triangle_at(a + b + c + d + e, t0));
        assert(triangle_at(a + b + c + d + e, t0) == triangle_at(e, 2 * q));
        assert(triangle_at(a + b + c + d + e + f, t0 + 1) == triangle_at(a + b + c + d + e, t0 + 1));
        assert(triangle_at(a + b + c + d + e, t0 + 1) == triangle_at(e, 2 * q + 1));
        assert(quad_at(e, q) == (triangle_at(e, 2 * q), triangle_at(e, 2 * q + 1)));
    }
}

/// The triangle indices of a cylinder of `subdivisions` subdivisions; every
/// index names one of its `4 * subdivisions + 6` vertices.
#[verifier::spinoff_prover]
pub fn cylinder_indices(subdivisions: u32) -> (indices: Vec<usize>)
    requires
        subdivisions >= 1,
        4 * subdivisions + 6 <= usize::MAX,
    ensures
        indices@ == spec_cylinder_indices(subdivisions as nat),
        indices@.len() == 12 * subdivisions + 12,
        all_below(indices@, 4 * subdivisions + 6),
        forall|t: int| 0 <= t < subdivisions ==> #[trigger] triangle_at(indices@, t) == (
            0usize,
            (t + 2) as usize,
            (t + 1) as usize,
        ),
        triangle_at(indices@, subdivisions as int) == (0usize, (subdivisions + 1) as usize, 1usize),
        forall|t: int| subdivisions + 1 <= t <= 2 * subdivisions ==> #[trigger] triangle_at(indices@, t) == (
            (subdivisions + 2) as usize,
            (t + 2) as usize,
            (t + 3) as usize,
        ),
        triangle_at(indices@, 2 * subdivisions + 1) == (
            (subdivisions + 2) as usize,
            (subdivisions + 3) as usize,
            (2 * subdivisions + 3) as usize,
        ),
        forall|q: int| 0 <= q < subdivisions ==> #[trigger] cylinder_side_quad(indices@, subdivisions as nat, q) == (
            ((2 * subdivisions + 5 + 2 * q) as usize, (2 * subdivisions + 4 + 2 * q) as usize, (2 * subdivisions + 7 + 2 * q) as usize),
            ((2 * subdivisions + 4 + 2 * q) as usize, (2 * subdivisions + 6 + 2 * q) as usize, (2 * subdivisions + 7 + 2 * q) as usize),
        ),
        triangle_at(indices@, 4 * subdivisions + 2) == (
            (3 * subdivisions + 3) as usize,
            (3 * subdivisions + 4) as usize,
            (3 * subdivisions + 3) as usize,
        ),
        triangle_at(indices@, 4 * subdivisions + 3) == (
            (3 * subdivisions + 3) as usize,
            (3 * subdivisions + 4) as usize,
            (3 * subdivisions + 4) as usize,
        ),
{
    let s: usize = subdivisions as usize;
    let ghost sn = s as nat;
    let ghost bound: int = 4 * sn as int + 6;
    let mut indices: Vec<usize> = Vec::new();

    // Upper cap.
    let mut i: usize = 1;
    assert(indices@ =~= cylinder_top_fan(0));
    while i <= s
        invariant
            1 <= i <= s + 1,
            s == sn,
            bound == 4 * sn + 6,
            4 * s + 6 <= usize::MAX,
            indices@ == cylinder_top_fan((i - 1) as nat),
            all_below(indices@, bound),
            indices@.len() == 3 * (i - 1),
        decreases s + 1 - i,
    {
        let ghost before = indices@;
        indices.push(0);
        indices.push(1 + i);
        indices.push(i);
        assert(indices@ =~= cylinder_top_fan(i as nat));
        proof {
            lemma_all_below_concat(before, seq![0usize, (1 + i) as usize, i as usize], bound);
            assert(indices@ =~= before + seq![0usize, (1 + i) as usize, i as usize]);
        }
        i += 1;
    }
    let ghost top = indices@;
    indices.push(0);
    indices.push(1 + s);
    indices.push(1);
    proof {
        lemma_all_below_concat(top, seq![0usize, (1 + s) as usize, 1usize], bound);
        assert(indices@ =~= top + seq![0usize, (1 + s) as usize, 1usize]);
    }

    // Lower cap.
    let ghost caps_top = indices@;
    let mut i: usize = 1;
    assert(indices@ =~= caps_top + cylinder_bottom_fan(sn, 0));
    while i <= s
        invariant
            1 <= i <= s + 1,
            s == sn,
            bound == 4 * sn + 6,
            4 * s + 6 <= usize::MAX,
            indices@ == caps_top + cylinder_bottom_fan(sn, (i - 1) as nat),
            all_below(indices@, bound),
            indices@.len() == caps_top.len() + 3 * (i - 1),
        decreases s + 1 - i,
    {
        let ghost before = indices@;
        indices.push(s + 2);
        indices.push(s + 2 + i);
        indices.push(s + 3 + i);
        let ghost tri = seq![(s + 2) as usize, (s + 2 + i) as usize, (s + 3 + i) as usize];
        assert(indices@ =~= before + tri);
        assert(cylinder_bottom_fan(sn, i as nat) == cylinder_bottom_fan(sn, (i - 1) as nat) + tri);
        proof {
            lemma_all_below_concat(before, tri, bound);
        }
        i += 1;
    }
    let ghost bottom = indices@;
    indices.push(s + 2);
    indices.push(s + 3);
    indices.push(2 * s + 3);
    let ghost close_bottom = seq![(s + 2) as usize, (s + 3) as usize, (2 * s + 3) as usize];
    proof {
        lemma_all_below_concat(bottom, close_bottom, bound);
        assert(indices@ =~= bottom + close_bottom);
    }

    // Side.
    let start: usize = 2 * s + 4;
    let ghost caps = indices@;
    let mut i: usize = 1;
    assert(indices@ =~= caps + cylinder_side(start as nat, 0));
    while i <= s
        invariant
            1 <= i <= s + 1,
            s == sn,
            bound == 4 * sn + 6,
            start == 2 * s + 4,
            4 * s + 6 <= usize::MAX,
            indices@ == caps + cylinder_side(start as nat, (i - 1) as nat),
            all_below(indices@, bound),
            indices@.len() == caps.len() + 6 * (i - 1),
        decreases s + 1 - i,
    {
        let top_left = start + (i - 1) * 2;
        let bottom_left = start + (i - 1) * 2 + 1;
        let top_right = start + i * 2;
        let bottom_right = start + i * 2 + 1;
        let ghost before = indices@;
        indices.push(bottom_left);
        indices.push(top_left);
        indices.push(bottom_right);
        indices.push(top_left);
        indices.push(top_right);
        indices.push(bottom_right);
        let ghost quad = seq![
            bottom_left,
            top_left,
            bottom_right,
            top_left,
            top_right,
            bottom_right,
        ];
        assert(indices@ =~= before + quad);
        assert(cylinder_side(start as nat, i as nat) == cylinder_side(start as nat, (i - 1) as nat) + quad);
        proof {
            lemma_all_below_concat(before, quad, bound);
        }
        i += 1;
    }

    // Closing pair over the last side vertices.
    let top_left = start + (s - 1);
    let bottom_left = start + (s - 1);
    let top_right = start + s;
    let bottom_right = start + s;
    let ghost side = indices@;
    indices.push(bottom_left);
    indices.push(bottom_right);
    indices.push(top_left);
    indices.push(top_left);
    indices.push(bottom_right);
    indices.push(top_right);
    let ghost closing = seq![bottom_left, bottom_right, top_left, top_left, bottom_right, top_right];
    proof {
        lemma_all_below_concat(side, closing, bound);
        assert(indices@ =~= side + closing);
        assert(indices@ =~= spec_cylinder_indices(sn));
        lemma_cylinder_triangles(sn as int);
    }
    indices
}

// ------------------------------------------------------------------ cone

/// The first `n` fan triangles of the base of a cone: centre 0, rim
/// vertices from 1.
pub open spec fn cone_base_fan(n: nat) -> Seq<usize>
    decreases n,
{
    if n == 0 {
        Seq::empty()
    } else {
        cone_base_fan((n - 1) as nat) + seq![0usize, n as usize, (n + 1) as usize]
    }
}

/// The first `n` side triangles of a cone whose side vertices start at
/// `start`, alternating apex and rim.
pub open spec fn cone_side(start: nat, n: nat) -> Seq<usize>
    decreases n,
{
    if n == 0 {
        Seq::empty()
    } else {
        cone_side(start, (n - 1) as nat) + seq![
            (start + 2 * (n - 1) + 1) as usize,
            (start + 2 * n) as usize,
            (start + 2 * n + 1) as usize,
        ]
    }
}

/// The index list of a cone of `subdivisions` subdivisions: the base fan,
/// then one side triangle per subdivision.
pub open spec fn spec_cone_indices(subdivisions: nat) -> Seq<usize> {
    cone_base_fan(subdivisions) + cone_side(subdivisions + 2, subdivisions)
}

proof fn lemma_cone_base_fan_triangles(n: nat)
    ensures
        cone_base_fan(n).len() == 3 * n,
        forall|t: int| 0 <= t < n ==> #[trigger] triangle_at(cone_base_fan(n), t) == (
            0usize,
            (t + 1) as usize,
            (t + 2) as usize,
        ),
    decreases n,
{
    if n > 0 {
        lemma_cone_base_fan_triangles((n - 1) as nat);
        lemma_triangle_at_concat(
            cone_base_fan((n - 1) as nat),
            seq![0usize, n as usize, (n + 1) as usize],
            n - 1,
        );
    }
}

proof fn lemma_cone_side_triangles(start: nat, n: nat)
    ensures
        cone_side(start, n).len() == 3 * n,
        forall|j: int| 0 <= j < n ==> #[trigger] triangle_at(cone_side(start, n), j) == (
            (start + 2 * j + 1) as usize,
            (start + 2 * j + 2) as usize,
            (start + 2 * j + 3) as usize,
        ),
    decreases n,
{
    if n > 0 {
        lemma_cone_side_triangles(start, (n - 1) as nat);
        lemma_triangle_at_concat(
            cone_side(start, (n - 1) as nat),
            seq![
                (start + 2 * (n - 1) + 1) as usize,
                (start + 2 * n) as usize,
                (start + 2 * n + 1) as usize,
            ],
            n - 1,
        );
    }
}

/// What each triangle of a cone joins. The vertices are laid out as the
/// base centre 0 and its rim `1..=s+1`, then the side vertices from
/// `s + 2`, alternating apex and rim. Triangles `0..s` fan the base from its
/// centre over consecutive rim vertices; triangle `s + j` joins the rim
/// side vertex of step `j`, the apex vertex of step `j + 1` and the rim side
/// vertex of step `j + 1`.
pub proof fn lemma_cone_triangles(s: int)
    requires
        s >= 0,
    ensures
        spec_cone_indices(s as nat).len() == 6 * s,
        forall|t: int| 0 <= t < s ==> #[trigger] triangle_at(spec_cone_indices(s as nat), t) == (
            0usize,
            (t + 1) as usize,
            (t + 2) as usize,
        ),
        forall|t: int| s <= t < 2 * s ==> #[trigger] triangle_at(spec_cone_indices(s as nat), t) == (
            (2 * t - s + 3) as usize,
            (2 * t - s + 4) as usize,
            (2 * t - s + 5) as usize,
        ),
{
    let a = cone_base_fan(s as nat);
    let b = cone_side((s + 2) as nat, s as nat);
    lemma_cone_base_fan_triangles(s as nat);
    lemma_cone_side_triangles((s + 2) as nat, s as nat);
    lemma_triangle_at_concat(a, b, s);
    assert forall|t: int| s <= t < 2 * s implies #[trigger] triangle_at(spec_cone_indices(s as nat), t) == (
        (2 * t - s + 3) as usize,
        (2 * t - s + 4) as usize,
        (2 * t - s + 5) as usize,
    ) by {
        assert(triangle_at(a + b, t) == triangle_at(b, t - s));
    }
    assert forall|t: int| 0 <= t < s implies #[trigger] triangle_at(spec_cone_indices(s as nat), t) == (
        0usize,
        (t + 1) as usize,
        (t + 2) as usize,
    ) by {
        assert(triangle_at(a + b, t) == triangle_at(a, t));
    }
}

/// The triangle indices of a cone of `subdivisions` subdivisions; every
/// index names one of its `3 * subdivisions + 4` vertices.
pub fn cone_indices(subdivisions: u32) -> (indices: Vec<usize>)
    requires
        3 * subdivisions + 4 <= usize::MAX,
    ensures
        indices@ == spec_cone_indices(subdivisions as nat),
        indices@.len() == 6 * subdivisions,
        all_below(indices@, 3 * subdivisions + 4),
        forall|t: int| 0 <= t < subdivisions ==> #[trigger] triangle_at(indices@, t) == (
            0usize,
            (t + 1) as usize,
            (t + 2) as usize,
        ),
        forall|t: int| subdivisions <= t < 2 * subdivisions ==> #[trigger] triangle_at(indices@, t) == (
            (2 * t - subdivisions + 3) as usize,
            (2 * t - subdivisions + 4) as usize,
            (2 * t - subdivisions + 5) as usize,
        ),
{
    let s: usize = subdivisions as usize;
    let ghost sn = s as nat;
    let ghost bound: int = 3 * sn as int + 4;
    let base_center_index: usize = 0;
    let mut indices: Vec<usize> = Vec::new();
    let mut i: usize = 1;
    assert(indices@ =~= cone_base_fan(0));
    while i <= s
        invariant
            1 <= i <= s + 1,
            s == sn,
            bound == 3 * sn + 4,
            base_center_index == 0,
            3 * s + 4 <= usize::MAX,
            indices@ == cone_base_fan((i - 1) as nat),
            all_below(indices@, bound),
            indices@.len() == 3 * (i - 1),
        decreases s + 1 - i,
    {
        let current = base_center_index + i + 1;
        let prev = base_center_index + i;
        let ghost before = indices@;
        indices.push(base_center_index);
        indices.push(prev);
        indices.push(current);
        let ghost tri = seq![0usize, i as usize, (i + 1) as usize];
        assert(indices@ =~= before + tri);
        assert(cone_base_fan(i as nat) == cone_base_fan((i - 1) as nat) + tri);
        proof {
            lemma_all_below_concat(before, tri, bound);
        }
        i += 1;
    }
    let side_start_index: usize = s + 2;
    let ghost base = indices@;
    let mut i: usize = 1;
    assert(indices@ =~= base + cone_side(side_start_index as nat, 0));
    while i <= s
        invariant
            1 <= i <= s + 1,
            s == sn,
            bound == 3 * sn + 4,
            side_start_index == s + 2,
            3 * s + 4 <= usize::MAX,
            indices@ == base + cone_side(side_start_index as nat, (i - 1) as nat),
            all_below(indices@, bound),
            indices@.len() == base.len() + 3 * (i - 1),
        decreases s + 1 - i,
    {
        let top_curr = side_start_index + (i * 2);
        let bottom_curr = side_start_index + (i * 2) + 1;
        let bottom_prev = side_start_index + ((i - 1) * 2) + 1;
        let ghost before = indices@;
        indices.push(bottom_prev);
        indices.push(top_curr);
        indices.push(bottom_curr);
        let ghost tri = seq![bottom_prev, top_curr, bottom_curr];
        assert(indices@ =~= before + tri);
        assert(cone_side(side_start_index as nat, i as nat) == cone_side(
            side_start_index as nat,
            (i - 1) as nat,
        ) + tri);
        proof {
            lemma_all_below_concat(before, tri, bound);
        }
        i += 1;
    }
    proof {
        assert(indices@ =~= spec_cone_indices(sn));
        lemma_cone_triangles(sn as int);
    }
    indices
}

} // verus!
