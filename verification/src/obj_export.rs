//! The index layout of a Wavefront OBJ export of hull parts: each part
//! becomes a group that lists its distinct vertices in order of first use,
//! and each whole triangle of the part becomes a face whose corners are
//! 1-based positions in the file's running vertex list.

use vstd::prelude::*;

verus! {

/// The elements of `s` without repetitions, each where it first occurs.
pub open spec fn first_occurrences(s: Seq<u32>) -> Seq<u32>
    decreases s.len(),
{
    if s.len() == 0 {
        Seq::empty()
    } else {
        let earlier = first_occurrences(s.drop_last());
        if earlier.contains(s.last()) {
            earlier
        } else {
            earlier.push(s.last())
        }
    }
}

/// The number of vertices written before the group `g`, plus one: the OBJ
/// position of the group's first vertex.
pub open spec fn group_offset(parts: Seq<Seq<u32>>, g: nat) -> nat
    decreases g,
{
    if g == 0 {
        1
    } else {
        group_offset(parts, (g - 1) as nat) + first_occurrences(parts[g - 1]).len()
    }
}

/// The total number of indices over all parts.
pub open spec fn total_len(parts: Seq<Seq<u32>>) -> nat
    decreases parts.len(),
{
    if parts.len() == 0 {
        0
    } else {
        total_len(parts.drop_last()) + parts.last().len()
    }
}

/// One group of an OBJ export.
pub struct ObjGroupLayout {
    /// The mesh indices of the group's vertices, in the order they are
    /// written.
    pub vertices: Vec<u32>,
    /// The faces, as OBJ positions (1-based, counted over the whole file)
    /// of their three corners.
    pub faces: Vec<(usize, usize, usize)>,
}

/// `layout` is the export of the group `part` whose first vertex is written
/// at OBJ position `offset`.
pub open spec fn is_group_layout(part: Seq<u32>, offset: nat, vertices: Seq<u32>, faces: Seq<(usize, usize, usize)>) -> bool {
    &&& vertices == first_occurrences(part)
    &&& faces.len() == part.len() / 3
    &&& forall|k: int|
        #![trigger faces[k]]
        0 <= k < faces.len() ==> {
            &&& offset <= faces[k].0 < offset + vertices.len()
            &&& offset <= faces[k].1 < offset + vertices.len()
            &&& offset <= faces[k].2 < offset + vertices.len()
            &&& vertices[faces[k].0 - offset] == part[3 * k]
            &&& vertices[faces[k].1 - offset] == part[3 * k + 1]
            &&& vertices[faces[k].2 - offset] == part[3 * k + 2]
        }
}

/// The vertices of a group are listed once each, and they are exactly the
/// vertices its part uses; never more of them than the part has indices.
pub proof fn lemma_first_occurrences_facts(s: Seq<u32>)
    ensures
        first_occurrences(s).len() <= s.len(),
        forall|x: u32| first_occurrences(s).contains(x) <==> s.contains(x),
        forall|i: int, j: int|
            0 <= i < j < first_occurrences(s).len() ==> first_occurrences(s)[i] != first_occurrences(
                s,
            )[j],
    decreases s.len(),
{
    if s.len() > 0 {
        let t = s.drop_last();
        let last = s.last();
        let e = first_occurrences(t);
        lemma_first_occurrences_facts(t);
        assert(s =~= t.push(last));
        assert forall|x: u32| s.contains(x) <==> (t.contains(x) || x == last) by {
            if s.contains(x) {
                let i = choose|i: int| 0 <= i < s.len() && s[i] == x;
                if i < t.len() {
                    assert(t[i] == x);
                }
            }
            if t.contains(x) {
                let i = choose|i: int| 0 <= i < t.len() && t[i] == x;
                assert(s[i] == x);
            }
            if x == last {
                assert(s[s.len() - 1] == x);
            }
        }
        if !e.contains(last) {
            assert forall|x: u32| e.push(last).contains(x) <==> (e.contains(x) || x == last) by {
                if e.push(last).contains(x) {
                    let i = choose|i: int| 0 <= i < e.push(last).len() && e.push(last)[i] == x;
                    if i < e.len() {
                        assert(e[i] == x);
                    }
                }
                if e.contains(x) {
                    let i = choose|i: int| 0 <= i < e.len() && e[i] == x;
                    assert(e.push(last)[i] == x);
                }
                if x == last {
                    assert(e.push(last)[e.len() as int] == x);
                }
            }
            assert forall|i: int, j: int|
                0 <= i < j < e.push(last).len() implies e.push(last)[i] != e.push(last)[j] by {
                if j == e.len() {
                    assert(e.push(last)[i] == e[i]);
                    assert(e.contains(e[i]));
                }
            }
        }
    }
}

/// The vertex lines of a file, group after group: the concatenation of
/// the groups' vertex lists.
pub open spec fn written_vertices(lists: Seq<Seq<u32>>) -> Seq<u32>
    decreases lists.len(),
{
    if lists.len() == 0 {
        Seq::empty()
    } else {
        written_vertices(lists.drop_last()) + lists.last()
    }
}

/// The vertex lists of the groups of a layout.
pub open spec fn vertex_lists(groups: Seq<ObjGroupLayout>) -> Seq<Seq<u32>> {
    groups.map_values(|l: ObjGroupLayout| l.vertices@)
}

/// A face corner `position` of a group names, in the file whose vertex
/// lines are `all`, one of the group's own `count` lines, which come after
/// the `before` lines of the earlier groups, and that line holds `expected`.
pub open spec fn names_own_vertex(all: Seq<u32>, before: nat, count: nat, position: usize, expected: u32) -> bool {
    &&& before < position <= before + count
    &&& position <= all.len()
    &&& all[position - 1] == expected
}

/// The lines written for the first `j` groups are the first lines of the
/// file.
pub proof fn lemma_written_prefix(lists: Seq<Seq<u32>>, j: int)
    requires
        0 <= j <= lists.len(),
    ensures
        written_vertices(lists.take(j)).len() <= written_vertices(lists).len(),
        forall|p: int|
            0 <= p < written_vertices(lists.take(j)).len() ==> #[trigger] written_vertices(lists)[p]
                == written_vertices(lists.take(j))[p],
    decreases lists.len(),
{
    if j == lists.len() {
        assert(lists.take(j) =~= lists);
    } else {
        let d = lists.drop_last();
        assert(d.take(j) =~= lists.take(j));
        lemma_written_prefix(d, j);
        assert forall|p: int|
            0 <= p < written_vertices(lists.take(j)).len() implies #[trigger] written_vertices(lists)[p]
                == written_vertices(lists.take(j))[p] by {
            assert(written_vertices(lists) == written_vertices(d) + lists.last());
        }
    }
}

/// The OBJ position of a group's first vertex is one past the number of
/// vertex lines written for the groups before it, when each group lists
/// the distinct vertices of its part.
pub proof fn lemma_group_offset_counts_written(parts: Seq<Seq<u32>>, lists: Seq<Seq<u32>>, g: int)
    requires
        0 <= g <= parts.len(),
        lists.len() == parts.len(),
        forall|h: int| 0 <= h < parts.len() ==> #[trigger] lists[h] == first_occurrences(parts[h]),
    ensures
        group_offset(parts, g as nat) == 1 + written_vertices(lists.take(g)).len(),
    decreases g,
{
    if g > 0 {
        lemma_group_offset_counts_written(parts, lists, g - 1);
        assert(lists.take(g).drop_last() =~= lists.take(g - 1));
        assert(lists[g - 1] == first_occurrences(parts[g - 1]));
    }
}

/// The faces of an OBJ export refer to the right vertex lines: in a file
/// that writes, group after group, each group's vertex list and then its
/// faces, every corner of a face of group `g` is the position of one of the
/// lines written for group `g` itself (after all the lines of the groups
/// before it, and never past the lines written so far), and that line holds
/// the mesh index the part gives for that corner.
pub proof fn lemma_faces_name_written_vertices(
    parts: Seq<Seq<u32>>,
    lists: Seq<Seq<u32>>,
    face_lists: Seq<Seq<(usize, usize, usize)>>,
    g: int,
    k: int,
)
    requires
        lists.len() == parts.len(),
        face_lists.len() == parts.len(),
        forall|h: int|
            0 <= h < parts.len() ==> is_group_layout(
                #[trigger] parts[h],
                group_offset(parts, h as nat),
                lists[h],
                face_lists[h],
            ),
        0 <= g < parts.len(),
        0 <= k < face_lists[g].len(),
    ensures
        names_own_vertex(
            written_vertices(lists),
            written_vertices(lists.take(g)).len(),
            lists[g].len(),
            face_lists[g][k].0,
            parts[g][3 * k],
        ),
        names_own_vertex(
            written_vertices(lists),
            written_vertices(lists.take(g)).len(),
            lists[g].len(),
            face_lists[g][k].1,
            parts[g][3 * k + 1],
        ),
        names_own_vertex(
            written_vertices(lists),
            written_vertices(lists.take(g)).len(),
            lists[g].len(),
            face_lists[g][k].2,
            parts[g][3 * k + 2],
        ),
{
    assert forall|h: int| 0 <= h < parts.len() implies #[trigger] lists[h] == first_occurrences(parts[h]) by {
        assert(is_group_layout(parts[h], group_offset(parts, h as nat), lists[h], face_lists[h]));
    }
    lemma_group_offset_counts_written(parts, lists, g);
    lemma_written_prefix(lists, g + 1);
    assert(lists.take(g + 1).drop_last() =~= lists.take(g));
    assert(lists.take(g + 1).last() == lists[g]);
    let before = written_vertices(lists.take(g));
    let upto = written_vertices(lists.take(g + 1));
    assert(upto == before + lists[g]);
    assert(is_group_layout(parts[g], group_offset(parts, g as nat), lists[g], face_lists[g]));
    let f = face_lists[g][k];
    let off = group_offset(parts, g as nat);
    assert(written_vertices(lists)[f.0 - 1] == upto[f.0 - 1]);
    assert(written_vertices(lists)[f.1 - 1] == upto[f.1 - 1]);
    assert(written_vertices(lists)[f.2 - 1] == upto[f.2 - 1]);
    assert(upto[f.0 - 1] == lists[g][f.0 - off]);
    assert(upto[f.1 - 1] == lists[g][f.1 - off]);
    assert(upto[f.2 - 1] == lists[g][f.2 - off]);
}

/// Reading more of a part never reorders the vertices already listed: the
/// list for any prefix of the part is a prefix of the list for the whole
/// part, so the vertices stand in the order of their first use.
pub proof fn lemma_first_occurrences_prefix(s: Seq<u32>, k: int)
    requires
        0 <= k <= s.len(),
    ensures
        first_occurrences(s.take(k)).len() <= first_occurrences(s).len(),
        first_occurrences(s.take(k)) == first_occurrences(s).take(first_occurrences(s.take(k)).len() as int),
    decreases s.len(),
{
    if k == s.len() {
        assert(s.take(k) =~= s);
        assert(first_occurrences(s).take(first_occurrences(s).len() as int) =~= first_occurrences(s));
    } else {
        let d = s.drop_last();
        assert(d.take(k) =~= s.take(k));
        lemma_first_occurrences_prefix(d, k);
        let p = first_occurrences(s.take(k));
        let e = first_occurrences(d);
        if e.contains(s.last()) {
        } else {
            assert(e.push(s.last()).take(p.len() as int) =~= e.take(p.len() as int));
        }
    }
}

proof fn lemma_group_offset_bound(parts: Seq<Seq<u32>>, g: nat)
    requires
        g <= parts.len(),
    ensures
        group_offset(parts, g) <= 1 + total_len(parts.take(g as int)),
    decreases g,
{
    if g > 0 {
        lemma_group_offset_bound(parts, (g - 1) as nat);
        lemma_first_occurrences_facts(parts[g - 1]);
        assert(parts.take(g as int).drop_last() =~= parts.take(g - 1));
    }
}

proof fn lemma_total_len_prefix(parts: Seq<Seq<u32>>, g: nat)
    requires
        g <= parts.len(),
    ensures
        total_len(parts.take(g as int)) <= total_len(parts),
    decreases parts.len(),
{
    if g < parts.len() {
        assert(parts.drop_last().take(g as int) =~= parts.take(g as int));
        lemma_total_len_prefix(parts.drop_last(), g);
    } else {
        assert(parts.take(g as int) =~= parts);
    }
}

/// The position of `v` in `vertices`, if it is there.
fn position_of(vertices: &Vec<u32>, v: u32) -> (position: Option<usize>)
    ensures
        match position {
            Some(i) => i < vertices@.len() && vertices@[i as int] == v,
            None => !vertices@.contains(v),
        },
{
    let n = vertices.len();
    let mut i: usize = 0;
    while i < n
        invariant
            n == vertices@.len(),
            i <= n,
            forall|j: int| 0 <= j < i ==> vertices@[j] != v,
        decreases n - i,
    {
        if vertices[i] == v {
            return Some(i);
        }
        i += 1;
    }
    None
}

/// Lays out the groups of an OBJ export of `hull_parts`: for each part, its
/// distinct vertices in order of first use, and for each whole triangle
/// (three consecutive indices) the OBJ positions of its corners. Trailing
/// indices that do not make up a whole triangle are not written.
pub fn obj_layout(hull_parts: &Vec<Vec<u32>>) -> (groups: Vec<ObjGroupLayout>)
    requires
        total_len(hull_parts@.map_values(|p: Vec<u32>| p@)) < usize::MAX,
    ensures
        groups@.len() == hull_parts@.len(),
        forall|g: int|
            0 <= g < groups@.len() ==> is_group_layout(
                #[trigger] hull_parts@[g]@,
                group_offset(hull_parts@.map_values(|p: Vec<u32>| p@), g as nat),
                groups@[g].vertices@,
                groups@[g].faces@,
            ),
        forall|g: int, k: int|
            0 <= g < groups@.len() && 0 <= k < groups@[g].faces@.len() ==> {
                let all = written_vertices(vertex_lists(groups@));
                let before = written_vertices(vertex_lists(groups@).take(g)).len();
                let count = groups@[g].vertices@.len();
                let face = #[trigger] groups@[g].faces@[k];
                &&& names_own_vertex(all, before, count, face.0, hull_parts@[g]@[3 * k])
                &&& names_own_vertex(all, before, count, face.1, hull_parts@[g]@[3 * k + 1])
                &&& names_own_vertex(all, before, count, face.2, hull_parts@[g]@[3 * k + 2])
            },
{
    let ghost parts = hull_parts@.map_values(|p: Vec<u32>| p@);
    let mut groups: Vec<ObjGroupLayout> = Vec::new();
    let mut vertex_offset: usize = 1;
    let n = hull_parts.len();
    let mut g: usize = 0;
    while g < n
        invariant
            n == hull_parts@.len(),
            parts == hull_parts@.map_values(|p: Vec<u32>| p@),
            total_len(parts) < usize::MAX,
            g <= n,
            groups@.len() == g,
            vertex_offset == group_offset(parts, g as nat),
            forall|h: int|
                0 <= h < g ==> is_group_layout(
                    #[trigger] hull_parts@[h]@,
                    group_offset(parts, h as nat),
                    groups@[h].vertices@,
                    groups@[h].faces@,
                ),
        decreases n - g,
    {
        let group_faces = &hull_parts[g];
        assert(parts[g as int] == group_faces@);
        proof {
            lemma_group_offset_bound(parts, (g + 1) as nat);
            lemma_total_len_prefix(parts, (g + 1) as nat);
            assert(parts.take(g + 1).drop_last() =~= parts.take(g as int));
            lemma_first_occurrences_facts(group_faces@);
            lemma_group_offset_bound(parts, g as nat);
        }
        let m = group_faces.len();
        let mut local_vertices: Vec<u32> = Vec::new();
        let mut j: usize = 0;
        assert(group_faces@.take(0) =~= Seq::<u32>::empty());
        while j < m
            invariant
                m == group_faces@.len(),
                j <= m,
                local_vertices@ == first_occurrences(group_faces@.take(j as int)),
            decreases m - j,
        {
            let mesh_idx = group_faces[j];
            assert(group_faces@.take(j + 1).drop_last() =~= group_faces@.take(j as int));
            assert(group_faces@.take(j + 1).last() == mesh_idx);
            match position_of(&local_vertices, mesh_idx) {
                Some(_) => {},
                None => {
                    local_vertices.push(mesh_idx);
                },
            }
            j += 1;
        }
        assert(group_faces@.take(m as int) =~= group_faces@);
        proof {
            lemma_first_occurrences_facts(group_faces@);
            assert(group_offset(parts, (g + 1) as nat) == vertex_offset + local_vertices@.len());
            assert(total_len(parts.take(g + 1)) == total_len(parts.take(g as int)) + group_faces@.len());
        }
        let count = m / 3;
        let mut faces: Vec<(usize, usize, usize)> = Vec::new();
        let mut k: usize = 0;
        while k < count
            invariant
                m == group_faces@.len(),
                count == m / 3,
                k <= count,
                local_vertices@ == first_occurrences(group_faces@),
                forall|x: u32| local_vertices@.contains(x) <==> group_faces@.contains(x),
                vertex_offset + local_vertices@.len() <= usize::MAX,
                faces@.len() == k,
                forall|t: int|
                    #![trigger faces@[t]]
                    0 <= t < k ==> {
                        &&& vertex_offset <= faces@[t].0 < vertex_offset + local_vertices@.len()
                        &&& vertex_offset <= faces@[t].1 < vertex_offset + local_vertices@.len()
                        &&& vertex_offset <= faces@[t].2 < vertex_offset + local_vertices@.len()
                        &&& local_vertices@[faces@[t].0 - vertex_offset] == group_faces@[3 * t]
                        &&& local_vertices@[faces@[t].1 - vertex_offset] == group_faces@[3 * t + 1]
                        &&& local_vertices@[faces@[t].2 - vertex_offset] == group_faces@[3 * t + 2]
                    },
            decreases count - k,
        {
            assert(3 * k + 2 < m) by (nonlinear_arith)
                requires
                    k < count,
                    count == m / 3,
            ;
            assert(group_faces@.contains(group_faces@[3 * k as int]));
            assert(group_faces@.contains(group_faces@[3 * k + 1]));
            assert(group_faces@.contains(group_faces@[3 * k + 2]));
            let p0 = match position_of(&local_vertices, group_faces[3 * k]) {
                Some(p) => p,
                None => 0,
            };
            let p1 = match position_of(&local_vertices, group_faces[3 * k + 1]) {
                Some(p) => p,
                None => 0,
            };
            let p2 = match position_of(&local_vertices, group_faces[3 * k + 2]) {
                Some(p) => p,
                None => 0,
            };
            faces.push((p0 + vertex_offset, p1 + vertex_offset, p2 + vertex_offset));
            k += 1;
        }
        let local_len = local_vertices.len();
        groups.push(ObjGroupLayout { vertices: local_vertices, faces });
        assert(group_offset(parts, (g + 1) as nat) == vertex_offset + local_len);
        vertex_offset += local_len;
        g += 1;
    }
    proof {
        let lists = vertex_lists(groups@);
        let face_lists = groups@.map_values(|l: ObjGroupLayout| l.faces@);
        assert forall|h: int|
            0 <= h < parts.len() implies is_group_layout(
            #[trigger] parts[h],
            group_offset(parts, h as nat),
            lists[h],
            face_lists[h],
        ) by {
            assert(parts[h] == hull_parts@[h]@);
            assert(is_group_layout(hull_parts@[h]@, group_offset(parts, h as nat), groups@[h].vertices@, groups@[h].faces@));
        }
        assert forall|g: int, k: int|
            0 <= g < groups@.len() && 0 <= k < groups@[g].faces@.len() implies {
                let all = written_vertices(lists);
                let before = written_vertices(lists.take(g)).len();
                let count = groups@[g].vertices@.len();
                let face = #[trigger] groups@[g].faces@[k];
                &&& names_own_vertex(all, before, count, face.0, hull_parts@[g]@[3 * k])
                &&& names_own_vertex(all, before, count, face.1, hull_parts@[g]@[3 * k + 1])
                &&& names_own_vertex(all, before, count, face.2, hull_parts@[g]@[3 * k + 2])
            } by {
            assert(parts[g] == hull_parts@[g]@);
            assert(lists[g] == groups@[g].vertices@);
            assert(face_lists[g] == groups@[g].faces@);
            lemma_faces_name_written_vertices(parts, lists, face_lists, g, k);
        }
    }
    groups
}

} // verus!
