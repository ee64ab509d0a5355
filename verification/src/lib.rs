//! Combinatorial core of a small computer-graphics toolkit: the sorting
//! algorithms, the index bookkeeping of the advancing-front
//! tetrahedralization, octree cell numbering and inside/outside votes,
//! triangle index lists of tessellated primitives, and the numbering of an
//! OBJ export. Everything here works on indices and counts; coordinates are
//! the caller's.

pub mod advancing_front;
pub mod obj_export;
pub mod octree;
pub mod primitives;
pub mod sort;
pub mod tetrahedralization;
