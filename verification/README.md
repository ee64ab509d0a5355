# cglib

The combinatorial core of a small computer-graphics toolkit, verified with
Verus.

`src/` (verified):

- `sort` — `check_sort`, `merge_sort`/`merge`, randomized three-way
  `quick_sort`, `selection_sort` on `usize` slices. Each sort returns a sorted
  rearrangement of its input; a multiset has only one sorted arrangement, so
  all of them agree.
- `tetrahedralization` — `Face`, `Tetrahedron`, sorted corner order,
  signatures of tetrahedra, faces from flat index arrays, the run limit.
- `advancing_front` — the front of open faces of the advancing-front
  tetrahedralization: faces cancel when added twice, faces are handed out in
  queue order, tetrahedra are recorded.
- `octree` — child numbering of octree cells and the parity vote that
  classifies a point as inside or outside a closed mesh.
- `primitives` — triangle index lists of the tessellated sphere, cylinder and
  cone; every index names a vertex.
- `obj_export` — vertex and face numbering of an OBJ export of hull parts.
- `sort::quick_sort` draws its pivot with `rand::random_range`, the one
  trusted call.

`app/` (ordinary Rust): the demonstration program, the floating-point vector
type, and the floating-point geometry (convex hull, octrees, apex selection of
the tetrahedralization, OBJ writing), which call into the library for their
integer decisions.
