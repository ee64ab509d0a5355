//! The front of the advancing-front tetrahedralization: the open faces that
//! still wait for a tetrahedron, in the order they were opened, together
//! with the tetrahedra built so far.
//!
//! A face is open while it has been added an odd number of times: adding a
//! face that is already open closes it, because the two tetrahedra (or the
//! hull triangle and the tetrahedron) on its two sides now meet there.

use vstd::multiset::Multiset;
use vstd::prelude::*;
use std::collections::VecDeque;

use crate::tetrahedralization::{
    face_key,
    is_sorted_face,
    is_sorted_tetra,
    lemma_sorted_face_key_injective,
    lemma_sorted_tetra_key_injective,
    spec_tetrahedron_limit,
    tetra_key,
    tetra_seq,
    tetrahedron_limit,
    tetrahedron_signature,
    Face,
    Tetrahedron,
};

verus! {

/// The abstract state of a front.
pub struct FrontView {
    /// Faces in the order they were opened; a queued face may have been
    /// closed since.
    pub queue: Seq<Face>,
    /// The corner multisets of the faces that are open.
    pub active: Set<Multiset<usize>>,
    /// The corner multisets of the tetrahedra built so far.
    pub generated: Set<Multiset<usize>>,
    /// The tetrahedra built so far, in order.
    pub tetrahedrons: Seq<Tetrahedron>,
    /// The number of tetrahedra at which the run is abandoned.
    pub limit: nat,
    /// Whether the run was abandoned at the limit.
    pub aborted: bool,
}

/// A front with nothing open and nothing built.
pub open spec fn empty_front(limit: nat) -> FrontView {
    FrontView {
        queue: Seq::empty(),
        active: Set::empty(),
        generated: Set::empty(),
        tetrahedrons: Seq::empty(),
        limit,
        aborted: false,
    }
}

/// Adds `f` to the front: closes it when it is open, otherwise opens it and
/// queues it.
pub open spec fn toggled(v: FrontView, f: Face) -> FrontView {
    if v.active.contains(face_key(f)) {
        FrontView { active: v.active.remove(face_key(f)), ..v }
    } else {
        FrontView { active: v.active.insert(face_key(f)), queue: v.queue.push(f), ..v }
    }
}

/// Adds the faces of `faces` to the front one after the other.
pub open spec fn toggled_all(v: FrontView, faces: Seq<Face>) -> FrontView
    decreases faces.len(),
{
    if faces.len() == 0 {
        v
    } else {
        toggled(toggled_all(v, faces.drop_last()), faces.last())
    }
}

/// The front that a run starts from: the hull faces added in the given order.
pub open spec fn initial_front(faces: Seq<Face>, point_count: nat) -> FrontView {
    toggled_all(empty_front(spec_tetrahedron_limit(point_count)), faces)
}

/// Takes the next open face off the queue, skipping queued faces that were
/// closed since; the face taken is no longer open. When the limit is
/// reached, one entry is dropped, the run is marked abandoned and no face is
/// returned.
pub open spec fn popped(v: FrontView) -> (FrontView, Option<Face>)
    decreases v.queue.len(),
{
    if v.queue.len() == 0 {
        (v, None)
    } else if v.tetrahedrons.len() >= v.limit {
        (FrontView { queue: v.queue.drop_first(), aborted: true, ..v }, None)
    } else {
        let f = v.queue[0];
        let rest = FrontView { queue: v.queue.drop_first(), ..v };
        if v.active.contains(face_key(f)) {
            (FrontView { active: v.active.remove(face_key(f)), ..rest }, Some(f))
        } else {
            popped(rest)
        }
    }
}

/// The three side faces of the tetrahedron built on `f` with apex `p`.
pub open spec fn side_faces(f: Face, p: usize) -> Seq<Face> {
    seq![Face(f.0, f.1, p), Face(f.1, f.2, p), Face(f.2, f.0, p)]
}

/// Builds the tetrahedron on `f` with apex `p`: records it, then adds its
/// three side faces to the front.
pub open spec fn added(v: FrontView, f: Face, p: usize) -> FrontView {
    let t = Tetrahedron(f.0, f.1, f.2, p);
    toggled_all(
        FrontView {
            tetrahedrons: v.tetrahedrons.push(t),
            generated: v.generated.insert(tetra_key(t)),
            ..v
        },
        side_faces(f, p),
    )
}

/// The corner multisets of a list of faces.
pub open spec fn face_keys(s: Seq<Face>) -> Set<Multiset<usize>> {
    Set::new(|k: Multiset<usize>| exists|i: int| 0 <= i < s.len() && face_key(#[trigger] s[i]) == k)
}

/// The corner multisets of a list of tetrahedra.
pub open spec fn tetra_keys(s: Seq<Tetrahedron>) -> Set<Multiset<usize>> {
    Set::new(|k: Multiset<usize>| exists|i: int| 0 <= i < s.len() && tetra_key(#[trigger] s[i]) == k)
}

/// Adding a face and then the same face again (its corners in any order)
/// leaves the set of open faces as it was: a face shared by two neighbours
/// closes. Nothing but the front changes.
pub proof fn lemma_toggle_twice(v: FrontView, f: Face, g: Face)
    requires
        face_key(f) == face_key(g),
    ensures
        toggled(toggled(v, f), g).active == v.active,
        toggled(toggled(v, f), g).generated == v.generated,
        toggled(toggled(v, f), g).tetrahedrons == v.tetrahedrons,
        !v.active.contains(face_key(f)) ==> toggled(toggled(v, f), g).queue == v.queue.push(f),
        v.active.contains(face_key(f)) ==> toggled(toggled(v, f), g).queue == v.queue.push(g),
{
    let k = face_key(f);
    if v.active.contains(k) {
        assert(v.active.remove(k).insert(k) =~= v.active);
    } else {
        assert(v.active.insert(k).remove(k) =~= v.active);
    }
}

/// Adding faces to the front changes nothing but the queue and the set of
/// open faces.
pub proof fn lemma_toggled_all_keeps_rest(v: FrontView, faces: Seq<Face>)
    ensures
        toggled_all(v, faces).generated == v.generated,
        toggled_all(v, faces).tetrahedrons == v.tetrahedrons,
        toggled_all(v, faces).limit == v.limit,
        toggled_all(v, faces).aborted == v.aborted,
    decreases faces.len(),
{
    if faces.len() > 0 {
        lemma_toggled_all_keeps_rest(v, faces.drop_last());
    }
}

proof fn lemma_three_corner_key(a: usize, b: usize, c: usize)
    ensures
        seq![a, b, c].to_multiset() == Multiset::<usize>::empty().insert(a).insert(b).insert(c),
{
    broadcast use vstd::seq_lib::to_multiset_build;

    assert(seq![a, b, c] =~= Seq::<usize>::empty().push(a).push(b).push(c));
    assert(Seq::<usize>::empty().to_multiset() =~= Multiset::<usize>::empty()) by {
        broadcast use vstd::seq_lib::group_to_multiset_ensures;

    }
}

/// The side faces of a tetrahedron built on `f` with apex `p` are its other
/// three faces: the base `f` and each side face lack one corner of the
/// tetrahedron, a different one each (the apex for the base, then the
/// third, first and second corner of `f`).
pub proof fn lemma_side_faces_are_the_other_faces(f: Face, p: usize)
    ensures
        side_faces(f, p).len() == 3,
        face_key(f).insert(p) == tetra_key(Tetrahedron(f.0, f.1, f.2, p)),
        face_key(side_faces(f, p)[0]).insert(f.2) == tetra_key(Tetrahedron(f.0, f.1, f.2, p)),
        face_key(side_faces(f, p)[1]).insert(f.0) == tetra_key(Tetrahedron(f.0, f.1, f.2, p)),
        face_key(side_faces(f, p)[2]).insert(f.1) == tetra_key(Tetrahedron(f.0, f.1, f.2, p)),
{
    broadcast use vstd::seq_lib::to_multiset_build;
    broadcast use vstd::multiset::group_multiset_axioms;

    let t = Tetrahedron(f.0, f.1, f.2, p);
    assert(tetra_seq(t) =~= seq![f.0, f.1, f.2].push(p));
    lemma_three_corner_key(f.0, f.1, f.2);
    lemma_three_corner_key(f.0, f.1, p);
    lemma_three_corner_key(f.1, f.2, p);
    lemma_three_corner_key(f.2, f.0, p);
    let e = Multiset::<usize>::empty();
    let key = e.insert(f.0).insert(f.1).insert(f.2).insert(p);
    assert(tetra_key(t) == key);
    assert(e.insert(f.0).insert(f.1).insert(p).insert(f.2) =~= key);
    assert(e.insert(f.1).insert(f.2).insert(p).insert(f.0) =~= key);
    assert(e.insert(f.2).insert(f.0).insert(p).insert(f.1) =~= key);
}

/// Building a tetrahedron appends exactly it to the tetrahedra built and
/// records its corners as built.
pub proof fn lemma_added_records(v: FrontView, f: Face, p: usize)
    ensures
        added(v, f, p).tetrahedrons == v.tetrahedrons.push(Tetrahedron(f.0, f.1, f.2, p)),
        added(v, f, p).generated == v.generated.insert(tetra_key(Tetrahedron(f.0, f.1, f.2, p))),
        added(v, f, p).generated.contains(tetra_key(Tetrahedron(f.0, f.1, f.2, p))),
        added(v, f, p).limit == v.limit,
        added(v, f, p).aborted == v.aborted,
{
    let t = Tetrahedron(f.0, f.1, f.2, p);
    lemma_toggled_all_keeps_rest(
        FrontView {
            tetrahedrons: v.tetrahedrons.push(t),
            generated: v.generated.insert(tetra_key(t)),
            ..v
        },
        side_faces(f, p),
    );
}

/// The face that the front hands out was open, and is closed afterwards;
/// apart from that, only queue entries are consumed. When no face comes
/// out, the queue ran empty or the run was abandoned at the limit.
pub proof fn lemma_popped_face_was_open(v: FrontView)
    ensures
        popped(v).0.generated == v.generated,
        popped(v).0.tetrahedrons == v.tetrahedrons,
        popped(v).0.limit == v.limit,
        popped(v).0.queue.len() <= v.queue.len(),
        match popped(v).1 {
            Some(f) => v.active.contains(face_key(f)) && popped(v).0.active == v.active.remove(
                face_key(f),
            ) && !popped(v).0.active.contains(face_key(f)) && popped(v).0.aborted == v.aborted,
            None => popped(v).0.active == v.active && (popped(v).0.queue.len() == 0
                || popped(v).0.aborted),
        },
    decreases v.queue.len(),
{
    if v.queue.len() > 0 && v.tetrahedrons.len() < v.limit {
        let f = v.queue[0];
        if !v.active.contains(face_key(f)) {
            lemma_popped_face_was_open(FrontView { queue: v.queue.drop_first(), ..v });
        }
    }
}

/// The front hands faces out first in, first out: below the limit, the
/// face handed out is the earliest queued face that is still open, every
/// queued face before it had been closed and is dropped with it, and the
/// rest of the queue stays as it was. When no face comes out below the
/// limit, no queued face was open. At the limit, one entry is dropped and
/// the run is abandoned.
pub proof fn lemma_popped_takes_first_open(v: FrontView)
    ensures
        v.tetrahedrons.len() < v.limit ==> match popped(v).1 {
            Some(f) => exists|i: int|
                0 <= i < v.queue.len() && v.queue[i] == f && (forall|j: int|
                    0 <= j < i ==> !v.active.contains(face_key(#[trigger] v.queue[j])))
                    && popped(v).0.queue == v.queue.skip(i + 1),
            None => forall|j: int| 0 <= j < v.queue.len() ==> !v.active.contains(face_key(#[trigger] v.queue[j])),
        },
        v.tetrahedrons.len() >= v.limit && v.queue.len() > 0 ==> popped(v).1 is None && popped(v).0.aborted
            && popped(v).0.queue == v.queue.drop_first(),
    decreases v.queue.len(),
{
    if v.queue.len() > 0 && v.tetrahedrons.len() < v.limit {
        let f = v.queue[0];
        let rest = FrontView { queue: v.queue.drop_first(), ..v };
        if v.active.contains(face_key(f)) {
            assert(v.queue.drop_first() =~= v.queue.skip(1));
        } else {
            lemma_popped_takes_first_open(rest);
            match popped(rest).1 {
                Some(g) => {
                    let i = choose|i: int|
                        0 <= i < rest.queue.len() && rest.queue[i] == g && (forall|j: int|
                            0 <= j < i ==> !rest.active.contains(face_key(#[trigger] rest.queue[j])))
                            && popped(rest).0.queue == rest.queue.skip(i + 1);
                    assert(v.queue[i + 1] == g);
                    assert(rest.queue.skip(i + 1) =~= v.queue.skip(i + 2));
                    assert forall|j: int| 0 <= j < i + 1 implies !v.active.contains(face_key(#[trigger] v.queue[j])) by {
                        if j > 0 {
                            assert(v.queue[j] == rest.queue[j - 1]);
                        }
                    }
                },
                None => {
                    assert forall|j: int| 0 <= j < v.queue.len() implies !v.active.contains(face_key(#[trigger] v.queue[j])) by {
                        if j > 0 {
                            assert(v.queue[j] == rest.queue[j - 1]);
                        }
                    }
                },
            }
        }
    }
}

/// What a run keeps of the tetrahedra it builds: at most `limit` of them,
/// no two with the same corners, and their corner multisets are exactly the
/// signatures recorded.
pub open spec fn records_consistent(v: FrontView) -> bool {
    &&& v.tetrahedrons.len() <= v.limit
    &&& forall|i: int, j: int|
        0 <= i < j < v.tetrahedrons.len() ==> tetra_key(v.tetrahedrons[i]) != tetra_key(
            v.tetrahedrons[j],
        )
    &&& v.generated == tetra_keys(v.tetrahedrons)
}

/// Appending a tetrahedron adds its corner multiset to those of the list.
pub proof fn lemma_tetra_keys_push(s: Seq<Tetrahedron>, t: Tetrahedron)
    ensures
        tetra_keys(s.push(t)) == tetra_keys(s).insert(tetra_key(t)),
{
    assert(tetra_key(s.push(t)[s.len() as int]) == tetra_key(t));
    assert forall|m: Multiset<usize>| tetra_keys(s).contains(m) implies tetra_keys(s.push(t)).contains(m) by {
        let j = choose|j: int| 0 <= j < s.len() && tetra_key(#[trigger] s[j]) == m;
        assert(s.push(t)[j] == s[j]);
    }
    assert forall|m: Multiset<usize>| tetra_keys(s.push(t)).contains(m) implies tetra_keys(s).insert(
        tetra_key(t),
    ).contains(m) by {
        let i = choose|i: int| 0 <= i < s.push(t).len() && tetra_key(#[trigger] s.push(t)[i]) == m;
        if i < s.len() {
            assert(s.push(t)[i] == s[i]);
        }
    }
    assert(tetra_keys(s.push(t)) =~= tetra_keys(s).insert(tetra_key(t)));
}

/// Distinct faces with sorted corners have distinct corner multisets, so
/// there are as many of those as there are faces.
pub proof fn lemma_face_keys_len(s: Seq<Face>)
    requires
        forall|i: int| 0 <= i < s.len() ==> is_sorted_face(#[trigger] s[i]),
        forall|i: int, j: int| 0 <= i < j < s.len() ==> s[i] != s[j],
    ensures
        face_keys(s).finite(),
        face_keys(s).len() == s.len(),
    decreases s.len(),
{
    if s.len() == 0 {
        assert(face_keys(s) =~= Set::empty());
    } else {
        let t = s.drop_last();
        let k = face_key(s.last());
        lemma_face_keys_len(t);
        assert(face_keys(s) =~= face_keys(t).insert(k)) by {
            assert(face_key(s[s.len() - 1]) == k);
            assert forall|m: Multiset<usize>| face_keys(t).contains(m) implies face_keys(s).contains(m) by {
                let j = choose|j: int| 0 <= j < t.len() && face_key(#[trigger] t[j]) == m;
                assert(s[j] == t[j]);
            }
            assert forall|m: Multiset<usize>| face_keys(s).contains(m) implies face_keys(t).insert(k).contains(m) by {
                let i = choose|i: int| 0 <= i < s.len() && face_key(#[trigger] s[i]) == m;
                if i < t.len() {
                    assert(t[i] == s[i]);
                }
            }
        }
        assert(!face_keys(t).contains(k)) by {
            if face_keys(t).contains(k) {
                let j = choose|j: int| 0 <= j < t.len() && face_key(#[trigger] t[j]) == k;
                assert(t[j] == s[j]);
                lemma_sorted_face_key_injective(s[j], s.last());
                assert(s[j] != s[s.len() - 1]);
            }
        }
    }
}

/// The front of an advancing-front tetrahedralization.
pub struct AdvancingFront {
    queue: VecDeque<Face>,
    active: Vec<Face>,
    generated: Vec<Tetrahedron>,
    tetrahedrons: Vec<Tetrahedron>,
    limit: usize,
    aborted: bool,
}

impl View for AdvancingFront {
    type V = FrontView;

    closed spec fn view(&self) -> FrontView {
        FrontView {
            queue: self.queue@,
            active: face_keys(self.active@),
            generated: tetra_keys(self.generated@),
            tetrahedrons: self.tetrahedrons@,
            limit: self.limit as nat,
            aborted: self.aborted,
        }
    }
}

impl AdvancingFront {
    /// The open faces are stored once each, with sorted corners; so are the
    /// signatures of the tetrahedra built.
    pub closed spec fn wf(&self) -> bool {
        &&& self.lists_wf()
        &&& records_consistent(self@)
    }

    /// The stored lists alone: open faces sorted and distinct, signatures
    /// sorted.
    closed spec fn lists_wf(&self) -> bool {
        &&& forall|i: int| 0 <= i < self.active@.len() ==> is_sorted_face(#[trigger] self.active@[i])
        &&& forall|i: int, j: int|
            0 <= i < j < self.active@.len() ==> self.active@[i] != self.active@[j]
        &&& forall|i: int|
            0 <= i < self.generated@.len() ==> is_sorted_tetra(#[trigger] self.generated@[i])
    }

    /// A well-formed front keeps its records consistent: never more
    /// tetrahedra than the limit, no two with the same corners, and the
    /// signatures recorded are exactly those of the tetrahedra built.
    pub proof fn lemma_wf_records_consistent(&self)
        requires
            self.wf(),
        ensures
            records_consistent(self@),
    {
    }

    /// Opens the hull faces in the given order; a face listed twice (by its
    /// corners, in any order) cancels out.
    pub fn new(initial_faces: &Vec<Face>, point_count: usize) -> (front: Self)
        requires
            point_count <= usize::MAX / 20,
        ensures
            front.wf(),
            records_consistent(front@),
            front@ == initial_front(initial_faces@, point_count as nat),
    {
        let limit = tetrahedron_limit(point_count);
        let mut front = AdvancingFront {
            queue: VecDeque::new(),
            active: Vec::new(),
            generated: Vec::new(),
            tetrahedrons: Vec::new(),
            limit,
            aborted: false,
        };
        assert(front@ =~= empty_front(limit as nat)) by {
            assert(face_keys(front.active@) =~= Set::empty());
            assert(tetra_keys(front.generated@) =~= Set::empty());
        }
        assert(tetra_keys(front.tetrahedrons@) =~= Set::empty());
        assert(records_consistent(front@));
        let n = initial_faces.len();
        let mut k: usize = 0;
        while k < n
            invariant
                n == initial_faces@.len(),
                k <= n,
                front.wf(),
                front@ == toggled_all(empty_front(limit as nat), initial_faces@.take(k as int)),
            decreases n - k,
        {
            front.toggle(initial_faces[k]);
            assert(initial_faces@.take(k + 1).drop_last() =~= initial_faces@.take(k as int));
            k += 1;
        }
        assert(initial_faces@.take(n as int) =~= initial_faces@);
        front
    }

    /// The position of `key` among the open faces, if it is open.
    fn position_of(&self, key: Face) -> (position: Option<usize>)
        requires
            self.wf(),
            is_sorted_face(key),
        ensures
            match position {
                Some(i) => i < self.active@.len() && self.active@[i as int] == key,
                None => !self@.active.contains(face_key(key)),
            },
    {
        let n = self.active.len();
        let mut idx: usize = 0;
        while idx < n
            invariant
                n == self.active@.len(),
                idx <= n,
                forall|i: int| 0 <= i < idx ==> self.active@[i] != key,
            decreases n - idx,
        {
            if self.active[idx] == key {
                return Some(idx);
            }
            idx += 1;
        }
        proof {
            if self@.active.contains(face_key(key)) {
                let i = choose|i: int|
                    0 <= i < self.active@.len() && face_key(#[trigger] self.active@[i]) == face_key(key);
                lemma_sorted_face_key_injective(self.active@[i], key);
                assert(self.active@[i] != key);
            }
        }
        None
    }

    /// Closes the open face stored at `idx`.
    fn close_at(&mut self, idx: usize)
        requires
            old(self).wf(),
            idx < old(self).active@.len(),
        ensures
            final(self).wf(),
            final(self)@ == (FrontView {
                active: old(self)@.active.remove(face_key(old(self).active@[idx as int])),
                ..old(self)@
            }),
    {
        let ghost old_active = self.active@;
        let ghost k = face_key(old_active[idx as int]);
        self.active.remove(idx);
        assert(face_keys(self.active@) =~= face_keys(old_active).remove(k)) by {
            assert forall|m: Multiset<usize>| face_keys(self.active@).contains(m) implies face_keys(
                old_active,
            ).remove(k).contains(m) by {
                let i = choose|i: int|
                    0 <= i < self.active@.len() && face_key(#[trigger] self.active@[i]) == m;
                let j = if i < idx { i } else { i + 1 };
                assert(self.active@[i] == old_active[j]);
                assert(old_active[j] != old_active[idx as int]);
                lemma_sorted_face_key_injective(old_active[j], old_active[idx as int]);
            }
            assert forall|m: Multiset<usize>| face_keys(old_active).remove(k).contains(m) implies face_keys(
                self.active@,
            ).contains(m) by {
                let j = choose|j: int| 0 <= j < old_active.len() && face_key(#[trigger] old_active[j]) == m;
                assert(j != idx);
                let i = if j < idx { j } else { j - 1 };
                assert(self.active@[i] == old_active[j]);
            }
        }
        assert forall|i: int, j: int| 0 <= i < j < self.active@.len() implies self.active@[i] != self.active@[j] by {
            let i2 = if i < idx { i } else { i + 1 };
            let j2 = if j < idx { j } else { j + 1 };
            assert(self.active@[i] == old_active[i2]);
            assert(self.active@[j] == old_active[j2]);
        }
        assert forall|i: int| 0 <= i < self.active@.len() implies is_sorted_face(#[trigger] self.active@[i]) by {
            let i2 = if i < idx { i } else { i + 1 };
            assert(self.active@[i] == old_active[i2]);
        }
    }

    /// Adds `face` to the front: closes it when it is open, otherwise opens
    /// it and queues it.
    fn toggle(&mut self, face: Face)
        requires
            old(self).wf(),
        ensures
            final(self).wf(),
            final(self)@ == toggled(old(self)@, face),
    {
        let key = face.sorted();
        let ghost k = face_key(face);
        match self.position_of(key) {
            Some(idx) => {
                self.close_at(idx);
            },
            None => {
                let ghost old_active = self.active@;
                let n = self.active.len();
                self.active.push(key);
                self.queue.push_back(face);
                assert(face_keys(self.active@) =~= face_keys(old_active).insert(k)) by {
                    assert(face_key(self.active@[n as int]) == k);
                    assert forall|m: Multiset<usize>| face_keys(old_active).contains(m) implies face_keys(
                        self.active@,
                    ).contains(m) by {
                        let j = choose|j: int| 0 <= j < old_active.len() && face_key(#[trigger] old_active[j]) == m;
                        assert(self.active@[j] == old_active[j]);
                    }
                    assert forall|m: Multiset<usize>| face_keys(self.active@).contains(m) implies face_keys(
                        old_active,
                    ).insert(k).contains(m) by {
                        let i = choose|i: int|
                            0 <= i < self.active@.len() && face_key(#[trigger] self.active@[i]) == m;
                        if i < n {
                            assert(self.active@[i] == old_active[i]);
                        }
                    }
                }
                assert forall|i: int, j: int| 0 <= i < j < self.active@.len() implies self.active@[i] != self.active@[j] by {
                    if j == n {
                        assert(self.active@[i] == old_active[i]);
                        assert(face_keys(old_active).contains(face_key(old_active[i])));
                    }
                }
            },
        }
    }

    /// Takes the next open face off the queue, skipping queued faces that
    /// were closed since; the face taken is closed. Returns `None` when the
    /// queue runs out, or when the limit of tetrahedra is reached, in which
    /// case the run is marked abandoned.
    pub fn next_face(&mut self) -> (face: Option<Face>)
        requires
            old(self).wf(),
        ensures
            final(self).wf(),
            records_consistent(final(self)@),
            (final(self)@, face) == popped(old(self)@),
    {
        loop
            invariant
                self.wf(),
                popped(self@) == popped(old(self)@),
            decreases self.queue@.len(),
        {
            let ghost before = self@;
            match self.queue.pop_front() {
                None => {
                    return None;
                },
                Some(face) => {
                    assert(self.queue@ =~= before.queue.drop_first());
                    if self.tetrahedrons.len() >= self.limit {
                        self.aborted = true;
                        return None;
                    }
                    let key = face.sorted();
                    match self.position_of(key) {
                        Some(idx) => {
                            assert(face_key(self.active@[idx as int]) == face_key(face));
                            self.close_at(idx);
                            return Some(face);
                        },
                        None => {},
                    }
                },
            }
        }
    }

    /// Builds the tetrahedron on `face` with apex `apex`: records it, then
    /// adds its three side faces to the front. A run builds only below the
    /// limit, and never a tetrahedron whose corners were built already.
    pub fn add_tetrahedron(&mut self, face: Face, apex: usize)
        requires
            old(self).wf(),
            old(self)@.tetrahedrons.len() < old(self)@.limit,
            !old(self)@.generated.contains(tetra_key(Tetrahedron(face.0, face.1, face.2, apex))),
        ensures
            final(self).wf(),
            records_consistent(final(self)@),
            final(self)@ == added(old(self)@, face, apex),
    {
        let t = Tetrahedron(face.0, face.1, face.2, apex);
        let ghost old_tetrahedrons = self.tetrahedrons@;
        self.record(face, apex);
        self.tetrahedrons.push(t);
        proof {
            lemma_tetra_keys_push(old_tetrahedrons, t);
            assert forall|i: int, j: int|
                0 <= i < j < self.tetrahedrons@.len() implies tetra_key(self.tetrahedrons@[i]) != tetra_key(
                self.tetrahedrons@[j],
            ) by {
                assert(self.tetrahedrons@[i] == old_tetrahedrons[i]);
                if j < old_tetrahedrons.len() {
                    assert(self.tetrahedrons@[j] == old_tetrahedrons[j]);
                } else {
                    assert(tetra_keys(old_tetrahedrons).contains(tetra_key(old_tetrahedrons[i])));
                }
            }
            assert(records_consistent(self@));
        }
        let ghost mid = self@;
        assert(mid == (FrontView {
            tetrahedrons: old(self)@.tetrahedrons.push(t),
            generated: old(self)@.generated.insert(tetra_key(t)),
            ..old(self)@
        }));
        self.toggle(Face(face.0, face.1, apex));
        let ghost v1 = self@;
        self.toggle(Face(face.1, face.2, apex));
        let ghost v2 = self@;
        self.toggle(Face(face.2, face.0, apex));
        proof {
            let s = side_faces(face, apex);
            let s1 = s.drop_last().drop_last();
            let s2 = s.drop_last();
            assert(s1.drop_last() =~= Seq::<Face>::empty());
            assert(s1.last() == s[0]);
            assert(s2.drop_last() =~= s1);
            assert(s2.last() == s[1]);
            assert(s.last() == s[2]);
            assert(toggled_all(mid, s1.drop_last()) == mid);
            assert(toggled_all(mid, s1) == v1);
            assert(toggled_all(mid, s2) == v2);
            assert(toggled_all(mid, s) == self@);
        }
    }

    /// Records the signature of the tetrahedron on `face` with apex `apex`
    /// among those built, unless it is recorded already.
    fn record(&mut self, face: Face, apex: usize)
        requires
            old(self).lists_wf(),
        ensures
            final(self).lists_wf(),
            final(self)@ == (FrontView {
                generated: old(self)@.generated.insert(
                    tetra_key(Tetrahedron(face.0, face.1, face.2, apex)),
                ),
                ..old(self)@
            }),
    {
        let signature = tetrahedron_signature(face, apex);
        let ghost k = tetra_key(signature);
        if !self.contains_signature(signature) {
            let ghost old_generated = self.generated@;
            let n = self.generated.len();
            self.generated.push(signature);
            assert(tetra_keys(self.generated@) =~= tetra_keys(old_generated).insert(k)) by {
                assert(tetra_key(self.generated@[n as int]) == k);
                assert forall|m: Multiset<usize>| tetra_keys(old_generated).contains(m) implies tetra_keys(
                    self.generated@,
                ).contains(m) by {
                    let j = choose|j: int| 0 <= j < old_generated.len() && tetra_key(#[trigger] old_generated[j]) == m;
                    assert(self.generated@[j] == old_generated[j]);
                }
                assert forall|m: Multiset<usize>| tetra_keys(self.generated@).contains(m) implies tetra_keys(
                    old_generated,
                ).insert(k).contains(m) by {
                    let i = choose|i: int|
                        0 <= i < self.generated@.len() && tetra_key(#[trigger] self.generated@[i]) == m;
                    if i < n {
                        assert(self.generated@[i] == old_generated[i]);
                    }
                }
            }
        } else {
            assert(self@.generated.insert(k) =~= self@.generated);
        }
    }

    /// Whether a tetrahedron with the corners of `signature` was built.
    fn contains_signature(&self, signature: Tetrahedron) -> (found: bool)
        requires
            self.lists_wf(),
            is_sorted_tetra(signature),
        ensures
            found == self@.generated.contains(tetra_key(signature)),
    {
        let n = self.generated.len();
        let mut idx: usize = 0;
        while idx < n
            invariant
                n == self.generated@.len(),
                idx <= n,
                forall|i: int| 0 <= i < idx ==> self.generated@[i] != signature,
            decreases n - idx,
        {
            if self.generated[idx] == signature {
                assert(tetra_key(self.generated@[idx as int]) == tetra_key(signature));
                return true;
            }
            idx += 1;
        }
        proof {
            if self@.generated.contains(tetra_key(signature)) {
                let i = choose|i: int|
                    0 <= i < self.generated@.len() && tetra_key(#[trigger] self.generated@[i]) == tetra_key(
                        signature,
                    );
                lemma_sorted_tetra_key_injective(self.generated@[i], signature);
                assert(self.generated@[i] != signature);
            }
        }
        false
    }

    /// Whether the tetrahedron on `face` with apex `apex` (its corners in
    /// any order) was built already.
    pub fn was_generated(&self, face: Face, apex: usize) -> (found: bool)
        requires
            self.wf(),
        ensures
            found == self@.generated.contains(tetra_key(Tetrahedron(face.0, face.1, face.2, apex))),
    {
        let signature = tetrahedron_signature(face, apex);
        self.contains_signature(signature)
    }

    /// The open faces, each once, with sorted corners.
    pub fn active_faces(&self) -> (faces: &Vec<Face>)
        requires
            self.wf(),
        ensures
            face_keys(faces@) == self@.active,
            forall|i: int| 0 <= i < faces@.len() ==> is_sorted_face(#[trigger] faces@[i]),
            forall|i: int, j: int| 0 <= i < j < faces@.len() ==> faces@[i] != faces@[j],
    {
        &self.active
    }

    /// The number of tetrahedra at which the run is abandoned.
    pub fn limit(&self) -> (limit: usize)
        ensures
            limit == self@.limit,
    {
        self.limit
    }

    /// The number of tetrahedra built.
    pub fn tetrahedron_count(&self) -> (count: usize)
        ensures
            count == self@.tetrahedrons.len(),
    {
        self.tetrahedrons.len()
    }

    /// The number of entries still queued, closed ones included.
    pub fn queued_count(&self) -> (count: usize)
        ensures
            count == self@.queue.len(),
    {
        self.queue.len()
    }

    /// The number of open faces.
    pub fn active_count(&self) -> (count: usize)
        requires
            self.wf(),
        ensures
            count == self@.active.len(),
    {
        proof {
            lemma_face_keys_len(self.active@);
        }
        self.active.len()
    }

    /// Whether the run was abandoned at the limit of tetrahedra.
    pub fn is_aborted(&self) -> (aborted: bool)
        ensures
            aborted == self@.aborted,
    {
        self.aborted
    }

    /// The tetrahedra built, in the order they were built: at most the
    /// limit of them, no two with the same corners.
    pub fn into_tetrahedrons(self) -> (tetrahedrons: Vec<Tetrahedron>)
        requires
            self.wf(),
        ensures
            tetrahedrons@ == self@.tetrahedrons,
            tetrahedrons@.len() <= self@.limit,
            forall|i: int, j: int|
                0 <= i < j < tetrahedrons@.len() ==> tetra_key(tetrahedrons@[i]) != tetra_key(tetrahedrons@[j]),
    {
        self.tetrahedrons
    }
}

} // verus!
