//! Bounding-volume hierarchy: a binary tree over the objects of a scene,
//! each node carrying a box that holds the boxes of all objects below it.

use vstd::prelude::*;
use vstd::multiset::{Multiset, group_multiset_axioms};
use vstd::seq_lib::{
    group_to_multiset_ensures, lemma_multiset_commutative, to_multiset_build, to_multiset_insert,
};
use crate::aabb::AABB;
use crate::hit::{Hit, nearer, deterministic, reported_by, none_nearer, last_of_nearest};

verus! {

/// What a node holds: two subtrees, or one object.
pub enum BvhContents<T> {
    Node { left: Box<Bvh<T>>, right: Box<Bvh<T>> },
    Leaf(T),
}

/// A node of the hierarchy with its bounding box and the number of objects
/// below it.
pub struct Bvh<T> {
    bounding_box: AABB,
    contents: BvhContents<T>,
    size: usize,
}

impl<T> Bvh<T> {
    /// The objects of the tree from left to right, each with the box it was
    /// placed under.
    pub closed spec fn leaves(self) -> Seq<(T, AABB)>
        decreases self,
    {
        match self.contents {
            BvhContents::Leaf(o) => seq![(o, self.bounding_box)],
            BvhContents::Node { left, right } => left.leaves() + right.leaves(),
        }
    }

    /// The objects of the tree from left to right.
    pub open spec fn objects(self) -> Seq<T> {
        self.leaves().map_values(|e: (T, AABB)| e.0)
    }

    /// The box of the whole tree.
    pub closed spec fn bbox(self) -> AABB {
        self.bounding_box
    }

    /// The object count of the tree.
    pub closed spec fn count(self) -> nat {
        self.size as nat
    }

    /// Each inner node's box is the union of its children's boxes and its
    /// count the sum of theirs; a leaf counts one.
    pub closed spec fn wf(self) -> bool
        decreases self,
    {
        match self.contents {
            BvhContents::Leaf(_) => self.size == 1,
            BvhContents::Node { left, right } => {
                &&& left.wf()
                &&& right.wf()
                &&& self.size == left.size + right.size
                &&& self.bounding_box == left.bounding_box.union_spec(right.bounding_box)
            },
        }
    }

    /// Every inner node gives its left child half of its objects, rounded
    /// down, and its right child the rest.
    pub closed spec fn balanced(self) -> bool
        decreases self,
    {
        match self.contents {
            BvhContents::Leaf(_) => true,
            BvhContents::Node { left, right } => {
                &&& left.balanced()
                &&& right.balanced()
                &&& left.size == self.size / 2
            },
        }
    }

    /// Every inner node was split as the construction prescribes: along an
    /// axis that `widest_axis` gives for the span of the node's boxes, with no
    /// box under the left child having a larger midpoint along it than a box
    /// under the right child.
    pub closed spec fn split_as_built<FW: Fn(&AABB) -> usize, FM: Fn(&AABB, usize) -> i64>(
        self,
        widest_axis: FW,
        midpoint: FM,
    ) -> bool
        decreases self,
    {
        match self.contents {
            BvhContents::Leaf(_) => true,
            BvhContents::Node { left, right } => {
                &&& left.split_as_built(widest_axis, midpoint)
                &&& right.split_as_built(widest_axis, midpoint)
                &&& exists|axis: usize, span: AABB|
                    spans(self.leaves(), span) && #[trigger] widest_axis.ensures((&span,), axis)
                        && midpoints_ordered(left.leaves(), right.leaves(), midpoint, axis)
            },
        }
    }

    /// A box test may report a miss for a box only where no object placed
    /// inside that box can be hit.
    pub open spec fn prunes_soundly<H, FB: Fn(&AABB) -> bool, FP: Fn(&T) -> Option<Hit<H>>>(
        self,
        box_test: FB,
        query: FP,
    ) -> bool {
        forall|i: int, b: AABB, h: Hit<H>, answer: bool|
            0 <= i < self.leaves().len() && b.encloses(self.leaves()[i].1)
                && #[trigger] query.ensures((&self.leaves()[i].0,), Some(h))
                && #[trigger] box_test.ensures((&b,), answer) ==> answer
    }

    /// Face `k` of the tree's box is the same face of some object's box.
    pub open spec fn face_reached_by_leaf(self, k: int) -> bool {
        exists|i: int|
            0 <= i < self.leaves().len() && #[trigger] face(self.leaves()[i].1, k) == face(
                self.bbox(),
                k,
            )
    }

    /// A well-formed tree holds `count` objects, at least one, and its box is
    /// the union of their boxes: it encloses the box of every one of them, and
    /// each of its six faces is the same face of some object's box.
    pub proof fn lemma_wf(self)
        requires
            self.wf(),
        ensures
            self.leaves().len() == self.count(),
            self.count() >= 1,
            forall|i: int|
                0 <= i < self.leaves().len() ==> self.bbox().encloses(#[trigger] self.leaves()[i].1),
            forall|k: int| 0 <= k < 6 ==> #[trigger] self.face_reached_by_leaf(k),
        decreases self,
    {
        match self.contents {
            BvhContents::Leaf(_) => {
                assert forall|k: int| 0 <= k < 6 implies #[trigger] self.face_reached_by_leaf(k) by {
                    assert(self.leaves().len() == 1);
                    assert(self.leaves()[0].1 == self.bbox());
                    assert(face(self.leaves()[0].1, k) == face(self.bbox(), k));
                }
            },
            BvhContents::Node { left, right } => {
                left.lemma_wf();
                right.lemma_wf();
                let ll = left.leaves();
                let rl = right.leaves();
                assert forall|i: int| 0 <= i < self.leaves().len() implies self.bbox().encloses(
                    #[trigger] self.leaves()[i].1,
                ) by {
                    if i < ll.len() {
                        assert(self.leaves()[i] == ll[i]);
                        lemma_encloses_trans(self.bounding_box, left.bounding_box, ll[i].1);
                    } else {
                        assert(self.leaves()[i] == rl[i - ll.len()]);
                        lemma_encloses_trans(
                            self.bounding_box,
                            right.bounding_box,
                            rl[i - ll.len()].1,
                        );
                    }
                }
                assert forall|k: int| 0 <= k < 6 implies #[trigger] self.face_reached_by_leaf(k) by {
                    assert(left.face_reached_by_leaf(k) && right.face_reached_by_leaf(k));
                    if face(self.bbox(), k) == face(left.bbox(), k) {
                        let i = choose|i: int|
                            0 <= i < ll.len() && #[trigger] face(ll[i].1, k) == face(left.bbox(), k);
                        assert(self.leaves()[i] == ll[i]);
                        assert(face(self.leaves()[i].1, k) == face(self.bbox(), k));
                    } else {
                        assert(face(self.bbox(), k) == face(right.bbox(), k));
                        let i = choose|i: int|
                            0 <= i < rl.len() && #[trigger] face(rl[i].1, k) == face(right.bbox(), k);
                        assert(self.leaves()[ll.len() + i] == rl[i]);
                        assert(face(self.leaves()[ll.len() + i].1, k) == face(self.bbox(), k));
                    }
                }
            },
        }
    }

    /// The box holding every object of the tree.
    pub fn bounding_box(&self) -> (b: AABB)
        ensures
            b == self.bbox(),
    {
        self.bounding_box
    }

    /// The number of objects in the tree.
    pub fn size(&self) -> (n: usize)
        ensures
            n == self.count(),
    {
        self.size
    }

    /// The nearest hit among the objects of the tree. A subtree whose box
    /// `box_test` misses is skipped; otherwise both children are asked with
    /// the same query and the nearer answer kept (the right one on a tie).
    pub fn hit<H, FB: Fn(&AABB) -> bool, FP: Fn(&T) -> Option<Hit<H>>>(
        &self,
        box_test: &FB,
        query: &FP,
    ) -> (r: Option<Hit<H>>)
        requires
            self.wf(),
            forall|b: AABB| box_test.requires((&b,)),
            forall|o: T| query.requires((&o,)),
        ensures
            reported_by(self.objects(), *query, r),
            deterministic(*query) && self.prunes_soundly(*box_test, *query) ==> none_nearer(
                self.objects(),
                *query,
                r,
            ),
            deterministic(*query) && self.prunes_soundly(*box_test, *query) ==> last_of_nearest(
                self.objects(),
                *query,
                r,
            ),
            (forall|a: bool| #[trigger] box_test.ensures((&self.bbox(),), a) ==> !a) ==> r is None,
        decreases self,
    {
        proof {
            self.lemma_wf();
        }
        let inside = box_test(&self.bounding_box);
        if !inside {
            proof {
                if deterministic(*query) && self.prunes_soundly(*box_test, *query) {
                    assert forall|i: int, h: Hit<H>|
                        0 <= i < self.objects().len() && #[trigger] query.ensures(
                            (&self.objects()[i],),
                            Some(h),
                        ) implies false by {
                        assert(self.objects()[i] == self.leaves()[i].0);
                        assert(self.bbox().encloses(self.leaves()[i].1));
                    }
                }
            }
            return None;
        }
        match &self.contents {
            BvhContents::Leaf(o) => {
                proof {
                    assert(box_test.ensures((&self.bbox(),), inside));
                }
                let r = query(o);
                proof {
                    assert(self.objects()[0] == *o);
                    assert(query.ensures((&self.objects()[0],), r));
                    assert(self.objects().len() == 1);
                }
                r
            },
            BvhContents::Node { left, right } => {
                proof {
                    assert(box_test.ensures((&self.bbox(),), inside));
                }
                let hl = left.hit(box_test, query);
                let hr = right.hit(box_test, query);
                let ghost (gl, gr) = (hl, hr);
                let r = nearer(hl, hr);
                proof {
                    self.lemma_children(*box_test, *query);
                    let lo = left.objects();
                    let ro = right.objects();
                    if r is Some {
                        if r == gl {
                            let i = choose|i: int|
                                0 <= i < lo.len() && #[trigger] query.ensures((&lo[i],), gl);
                            assert(self.objects()[i] == lo[i]);
                            assert(query.ensures((&self.objects()[i],), r));
                        } else {
                            let i = choose|i: int|
                                0 <= i < ro.len() && #[trigger] query.ensures((&ro[i],), gr);
                            assert(self.objects()[lo.len() + i] == ro[i]);
                            assert(query.ensures((&self.objects()[lo.len() + i],), r));
                        }
                    }
                    if deterministic(*query) && self.prunes_soundly(*box_test, *query) {
                        assert forall|i: int, h: Hit<H>|
                            0 <= i < self.objects().len() && #[trigger] query.ensures(
                                (&self.objects()[i],),
                                Some(h),
                            ) implies r is Some && r->Some_0.t <= h.t by {
                            if i < lo.len() {
                                assert(self.objects()[i] == lo[i]);
                                assert(query.ensures((&lo[i],), Some(h)));
                            } else {
                                assert(self.objects()[i] == ro[i - lo.len()]);
                                assert(query.ensures((&ro[i - lo.len()],), Some(h)));
                            }
                        }
                        let from_right = gr is Some && (gl is None || !(gl->Some_0.t
                            < gr->Some_0.t));
                        if from_right {
                            let w = choose|w: int|
                                0 <= w < ro.len() && #[trigger] query.ensures((&ro[w],), gr)
                                    && forall|j: int, h: Hit<H>|
                                    w < j < ro.len() && #[trigger] query.ensures((&ro[j],), Some(h))
                                        ==> h.t > gr->Some_0.t;
                            let k = lo.len() + w;
                            assert(self.objects()[k] == ro[w]);
                            assert forall|j: int, h: Hit<H>|
                                k < j < self.objects().len() && #[trigger] query.ensures(
                                    (&self.objects()[j],),
                                    Some(h),
                                ) implies h.t > r->Some_0.t by {
                                assert(self.objects()[j] == ro[j - lo.len()]);
                                assert(query.ensures((&ro[j - lo.len()],), Some(h)));
                            }
                            assert(query.ensures((&self.objects()[k],), r));
                        } else if r is Some {
                            assert(r == gl);
                            let w = choose|w: int|
                                0 <= w < lo.len() && #[trigger] query.ensures((&lo[w],), gl)
                                    && forall|j: int, h: Hit<H>|
                                    w < j < lo.len() && #[trigger] query.ensures((&lo[j],), Some(h))
                                        ==> h.t > gl->Some_0.t;
                            assert(self.objects()[w] == lo[w]);
                            assert forall|j: int, h: Hit<H>|
                                w < j < self.objects().len() && #[trigger] query.ensures(
                                    (&self.objects()[j],),
                                    Some(h),
                                ) implies h.t > r->Some_0.t by {
                                if j < lo.len() {
                                    assert(self.objects()[j] == lo[j]);
                                    assert(query.ensures((&lo[j],), Some(h)));
                                } else {
                                    assert(self.objects()[j] == ro[j - lo.len()]);
                                    assert(query.ensures((&ro[j - lo.len()],), Some(h)));
                                }
                            }
                            assert(query.ensures((&self.objects()[w],), r));
                        }
                    }
                }
                r
            },
        }
    }

    /// The objects of an inner node are those of its left child followed by
    /// those of its right child, and a sound box test stays sound below it.
    proof fn lemma_children<H, FB: Fn(&AABB) -> bool, FP: Fn(&T) -> Option<Hit<H>>>(
        self,
        box_test: FB,
        query: FP,
    )
        requires
            self.contents is Node,
        ensures
            ({
                let left = *self.contents->left;
                let right = *self.contents->right;
                &&& self.objects() == left.objects() + right.objects()
                &&& self.prunes_soundly(box_test, query) ==> left.prunes_soundly(box_test, query)
                    && right.prunes_soundly(box_test, query)
            }),
    {
        let left = *self.contents->left;
        let right = *self.contents->right;
        let ll = left.leaves();
        let rl = right.leaves();
        assert(self.objects() =~= left.objects() + right.objects());
        if self.prunes_soundly(box_test, query) {
            assert forall|i: int, b: AABB, h: Hit<H>, answer: bool|
                0 <= i < ll.len() && b.encloses(ll[i].1)
                    && #[trigger] query.ensures((&ll[i].0,), Some(h))
                    && #[trigger] box_test.ensures((&b,), answer) implies answer by {
                assert(self.leaves()[i] == ll[i]);
            }
            assert forall|i: int, b: AABB, h: Hit<H>, answer: bool|
                0 <= i < rl.len() && b.encloses(rl[i].1)
                    && #[trigger] query.ensures((&rl[i].0,), Some(h))
                    && #[trigger] box_test.ensures((&b,), answer) implies answer by {
                assert(self.leaves()[ll.len() + i] == rl[i]);
            }
        }
    }
}

/// Face `k` of a box: its minimum along axis `k` for `k < 3`, else its
/// maximum along axis `k - 3`.
pub open spec fn face(b: AABB, k: int) -> int {
    if k < 3 {
        b.min.at(k)
    } else {
        b.max.at(k - 3)
    }
}

/// Some box of `entries`, with its corners put in order, reaches face `k`
/// of `span`.
pub open spec fn face_reached<T>(entries: Seq<(T, AABB)>, span: AABB, k: int) -> bool {
    exists|i: int|
        0 <= i < entries.len() && #[trigger] face(entries[i].1.normalized_spec(), k) == face(
            span,
            k,
        )
}

/// `span` is the smallest box that holds every box of `entries`, each with
/// its corners put in order.
pub open spec fn spans<T>(entries: Seq<(T, AABB)>, span: AABB) -> bool {
    &&& forall|i: int|
        0 <= i < entries.len() ==> span.encloses(#[trigger] entries[i].1.normalized_spec())
    &&& forall|k: int| 0 <= k < 6 ==> #[trigger] face_reached(entries, span, k)
}

/// The span of a group does not depend on the order of its entries.
proof fn lemma_spans_permutation<T>(s1: Seq<(T, AABB)>, s2: Seq<(T, AABB)>, span: AABB)
    requires
        s1.to_multiset() == s2.to_multiset(),
        spans(s1, span),
    ensures
        spans(s2, span),
{
    assert forall|i: int| 0 <= i < s2.len() implies span.encloses(
        #[trigger] s2[i].1.normalized_spec(),
    ) by {
        lemma_same_entry(s2, s1, i);
        let j = choose|j: int| 0 <= j < s1.len() && s1[j] == s2[i];
        assert(span.encloses(s1[j].1.normalized_spec()));
    }
    assert forall|k: int| 0 <= k < 6 implies #[trigger] face_reached(s2, span, k) by {
        assert(face_reached(s1, span, k));
        let i = choose|i: int|
            0 <= i < s1.len() && #[trigger] face(s1[i].1.normalized_spec(), k) == face(span, k);
        lemma_same_entry(s1, s2, i);
        let j = choose|j: int| 0 <= j < s2.len() && s2[j] == s1[i];
        assert(face(s2[j].1.normalized_spec(), k) == face(span, k));
    }
}

/// An entry of one sequence stands somewhere in a sequence with the same
/// entries.
proof fn lemma_same_entry<T>(s1: Seq<(T, AABB)>, s2: Seq<(T, AABB)>, i: int)
    requires
        s1.to_multiset() == s2.to_multiset(),
        0 <= i < s1.len(),
    ensures
        exists|j: int| 0 <= j < s2.len() && s2[j] == s1[i],
{
    broadcast use group_to_multiset_ensures;

    assert(s1.to_multiset().count(s1[i]) > 0);
    assert(s2.contains(s1[i]));
}

/// Adding an entry to a group widens its span by the entry's box.
proof fn lemma_spans_extend<T>(s: Seq<(T, AABB)>, span: AABB, e: (T, AABB))
    requires
        spans(s, span),
    ensures
        spans(s.push(e), span.union_spec(e.1.normalized_spec())),
{
    let t = s.push(e);
    let n = e.1.normalized_spec();
    let u = span.union_spec(n);
    let last = s.len() as int;
    assert(t[last] == e);
    assert forall|i: int| 0 <= i < t.len() implies u.encloses(
        #[trigger] t[i].1.normalized_spec(),
    ) by {
        if i < s.len() {
            assert(t[i] == s[i]);
            assert(span.encloses(s[i].1.normalized_spec()));
        }
    }
    assert forall|k: int| 0 <= k < 6 implies #[trigger] face_reached(t, u, k) by {
        assert(face_reached(s, span, k));
        let i = choose|i: int|
            0 <= i < s.len() && #[trigger] face(s[i].1.normalized_spec(), k) == face(span, k);
        assert(t[i] == s[i]);
        if face(u, k) == face(n, k) {
            assert(face(t[last].1.normalized_spec(), k) == face(u, k));
        } else {
            assert(face(t[i].1.normalized_spec(), k) == face(u, k));
        }
    }
}

/// No box of `lo` has a larger midpoint along `axis` than a box of `hi`.
pub open spec fn midpoints_ordered<T, FM: Fn(&AABB, usize) -> i64>(
    lo: Seq<(T, AABB)>,
    hi: Seq<(T, AABB)>,
    midpoint: FM,
    axis: usize,
) -> bool {
    forall|i: int, j: int, ki: i64, kj: i64|
        0 <= i < lo.len() && 0 <= j < hi.len() && #[trigger] midpoint.ensures((&lo[i].1, axis), ki)
            && #[trigger] midpoint.ensures((&hi[j].1, axis), kj) ==> ki <= kj
}

/// A midpoint function that, asked twice about one box and axis, answers the
/// same.
pub open spec fn deterministic_midpoint<FM: Fn(&AABB, usize) -> i64>(midpoint: FM) -> bool {
    forall|b: AABB, a: usize, k1: i64, k2: i64|
        #[trigger] midpoint.ensures((&b, a), k1) && #[trigger] midpoint.ensures((&b, a), k2) ==> k1
            == k2
}

/// The arithmetic that choosing a split needs: `widest_axis` names the axis
/// along which a box is longest, `midpoint` gives the order key of a box's
/// centre along an axis.
pub open spec fn split_tests<FW: Fn(&AABB) -> usize, FM: Fn(&AABB, usize) -> i64>(
    widest_axis: FW,
    midpoint: FM,
) -> bool {
    &&& forall|b: AABB| widest_axis.requires((&b,))
    &&& forall|b: AABB, a: usize| #[trigger] widest_axis.ensures((&b,), a) ==> a < 3
    &&& forall|b: AABB, a: usize| a < 3 ==> #[trigger] midpoint.requires((&b, a))
}

impl<T> Bvh<T> {
    /// Builds the tree over `objects`, taking ownership of them. The objects
    /// are split along the axis on which the boxes of their group spread
    /// widest, in the order of their boxes' midpoints along it: the first
    /// half goes left, the rest right, down to one object per leaf.
    pub fn new<FB, FW, FM>(
        objects: Vec<T>,
        bounding_box: &FB,
        widest_axis: &FW,
        midpoint: &FM,
    ) -> (bvh: Bvh<T>)
        where
            FB: Fn(&T) -> AABB,
            FW: Fn(&AABB) -> usize,
            FM: Fn(&AABB, usize) -> i64,
        requires
            objects@.len() >= 1,
            forall|o: T| bounding_box.requires((&o,)),
            split_tests(*widest_axis, *midpoint),
        ensures
            bvh.wf(),
            bvh.balanced(),
            deterministic_midpoint(*midpoint) ==> bvh.split_as_built(*widest_axis, *midpoint),
            bvh.count() == objects@.len(),
            bvh.objects().to_multiset() == objects@.to_multiset(),
            forall|i: int|
                0 <= i < bvh.leaves().len() ==> bounding_box.ensures(
                    (&bvh.leaves()[i].0,),
                    #[trigger] bvh.leaves()[i].1,
                ),
    {
        broadcast use group_to_multiset_ensures, group_multiset_axioms;

        let ghost all = objects@;
        let mut rest = objects;
        let mut entries: Vec<(T, AABB)> = Vec::new();
        while rest.len() > 0
            invariant
                forall|o: T| bounding_box.requires((&o,)),
                entries@.map_values(|e: (T, AABB)| e.0).to_multiset().add(rest@.to_multiset())
                    == all.to_multiset(),
                entries@.len() + rest@.len() == all.len(),
                forall|i: int|
                    0 <= i < entries@.len() ==> bounding_box.ensures(
                        (&entries@[i].0,),
                        #[trigger] entries@[i].1,
                    ),
            decreases rest@.len(),
        {
            let ghost before = rest@;
            let o = rest.pop().unwrap();
            let b = bounding_box(&o);
            let ghost prev = entries@;
            entries.push((o, b));
            proof {
                let firsts = prev.map_values(|e: (T, AABB)| e.0);
                assert(before =~= rest@.push(o));
                to_multiset_build(rest@, o);
                assert(entries@.map_values(|e: (T, AABB)| e.0) =~= firsts.push(o));
                to_multiset_build(firsts, o);
                let now = entries@.map_values(|e: (T, AABB)| e.0);
                assert(now.to_multiset().add(rest@.to_multiset()) =~= firsts.to_multiset().add(
                    before.to_multiset(),
                ));
            }
        }
        proof {
            assert(rest@.to_multiset() =~= Multiset::empty());
        }
        let bvh = Self::build(entries, widest_axis, midpoint);
        proof {
            bvh.lemma_wf();
            assert(bvh.leaves().to_multiset().len() == bvh.leaves().len());
            assert(entries@.to_multiset().len() == entries@.len());
            lemma_multiset_map(bvh.leaves(), entries@);
            assert forall|i: int| 0 <= i < bvh.leaves().len() implies bounding_box.ensures(
                (&bvh.leaves()[i].0,),
                #[trigger] bvh.leaves()[i].1,
            ) by {
                let e = bvh.leaves()[i];
                assert(bvh.leaves().to_multiset().count(e) > 0);
                assert(entries@.contains(e));
            }
        }
        bvh
    }

    fn build<FW, FM>(entries: Vec<(T, AABB)>, widest_axis: &FW, midpoint: &FM) -> (bvh: Bvh<T>)
        where
            FW: Fn(&AABB) -> usize,
            FM: Fn(&AABB, usize) -> i64,
        requires
            entries@.len() >= 1,
            split_tests(*widest_axis, *midpoint),
        ensures
            bvh.wf(),
            bvh.balanced(),
            deterministic_midpoint(*midpoint) ==> bvh.split_as_built(*widest_axis, *midpoint),
            bvh.leaves().to_multiset() == entries@.to_multiset(),
        decreases entries@.len(),
    {
        broadcast use group_to_multiset_ensures, group_multiset_axioms;

        let mut span = entries[0].1.normalized();
        let mut i: usize = 1;
        proof {
            let first = entries@.subrange(0, 1);
            assert(first[0] == entries@[0]);
            assert forall|k: int| 0 <= k < 6 implies #[trigger] face_reached(first, span, k) by {
                assert(face(first[0].1.normalized_spec(), k) == face(span, k));
            }
        }
        while i < entries.len()
            invariant
                1 <= i <= entries@.len(),
                spans(entries@.subrange(0, i as int), span),
            decreases entries@.len() - i,
        {
            let ghost (prev, done) = (span, entries@.subrange(0, i as int));
            let n = entries[i].1.normalized();
            span = span.union(&n);
            proof {
                let next = entries@.subrange(0, i as int + 1);
                assert(next =~= done.push(entries@[i as int]));
                lemma_spans_extend(done, prev, entries@[i as int]);
            }
            i = i + 1;
        }
        proof {
            assert(entries@.subrange(0, i as int) =~= entries@);
        }
        let axis = widest_axis(&span);
        let ghost given = entries@;
        let (mut sorted, keys) = sort_by_midpoint(entries, axis, midpoint);
        let ghost ks = keys@;
        if sorted.len() == 1 {
            let ghost whole = sorted@;
            let e = sorted.pop().unwrap();
            let (o, b) = e;
            proof {
                assert(whole =~= seq![e]);
            }
            let bvh = Bvh { bounding_box: b, contents: BvhContents::Leaf(o), size: 1 };
            proof {
                assert(bvh.leaves() =~= seq![e]);
            }
            bvh
        } else {
            let ghost whole = sorted@;
            let half = sorted.len() / 2;
            let right_entries = sorted.split_off(half);
            let ghost (lpart, rpart) = (sorted@, right_entries@);
            let right = Self::build(right_entries, widest_axis, midpoint);
            let left = Self::build(sorted, widest_axis, midpoint);
            proof {
                left.lemma_wf();
                right.lemma_wf();
                assert(whole =~= lpart + rpart);
                lemma_multiset_commutative(lpart, rpart);
                lemma_multiset_commutative(left.leaves(), right.leaves());
                assert(left.leaves().to_multiset().len() == left.leaves().len());
                assert(lpart.to_multiset().len() == lpart.len());
                assert(right.leaves().to_multiset().len() == right.leaves().len());
                assert(rpart.to_multiset().len() == rpart.len());
            }
            let bvh = Bvh {
                bounding_box: left.bounding_box.union(&right.bounding_box),
                size: left.size + right.size,
                contents: BvhContents::Node { left: Box::new(left), right: Box::new(right) },
            };
            proof {
                assert(bvh.leaves() == left.leaves() + right.leaves());
                let ll = left.leaves();
                let rl = right.leaves();
                if deterministic_midpoint(*midpoint) {
                    assert forall|i: int, j: int, ki: i64, kj: i64|
                        0 <= i < ll.len() && 0 <= j < rl.len()
                            && #[trigger] midpoint.ensures((&ll[i].1, axis), ki)
                            && #[trigger] midpoint.ensures((&rl[j].1, axis), kj) implies ki <= kj by {
                        let ei = ll[i];
                        let ej = rl[j];
                        assert(ll.to_multiset().count(ei) > 0);
                        assert(lpart.contains(ei));
                        let p = choose|p: int| 0 <= p < lpart.len() && lpart[p] == ei;
                        assert(rl.to_multiset().count(ej) > 0);
                        assert(rpart.contains(ej));
                        let q = choose|q: int| 0 <= q < rpart.len() && rpart[q] == ej;
                        assert(whole[p] == ei);
                        assert(whole[half + q] == ej);
                        assert(midpoint.ensures((&whole[p].1, axis), ks[p]));
                        assert(midpoint.ensures((&whole[half + q].1, axis), ks[half + q]));
                        assert(ks[p] <= ks[half + q]);
                    }
                    assert(midpoints_ordered(ll, rl, *midpoint, axis));
                    lemma_spans_permutation(given, bvh.leaves(), span);
                    assert(widest_axis.ensures((&span,), axis));
                }
            }
            bvh
        }
    }
}

/// Sorts `entries` by the midpoints of their boxes along `axis`; returns the
/// sorted entries with their midpoints.
fn sort_by_midpoint<T, FM: Fn(&AABB, usize) -> i64>(
    entries: Vec<(T, AABB)>,
    axis: usize,
    midpoint: &FM,
) -> (r: (Vec<(T, AABB)>, Vec<i64>))
    requires
        axis < 3,
        forall|b: AABB, a: usize| a < 3 ==> #[trigger] midpoint.requires((&b, a)),
    ensures
        r.0@.len() == entries@.len(),
        r.0@.to_multiset() == entries@.to_multiset(),
        r.1@.len() == r.0@.len(),
        forall|i: int, j: int| 0 <= i < j < r.1@.len() ==> r.1@[i] <= r.1@[j],
        forall|i: int|
            0 <= i < r.1@.len() ==> midpoint.ensures((&r.0@[i].1, axis), #[trigger] r.1@[i]),
{
    broadcast use group_to_multiset_ensures, group_multiset_axioms;

    let ghost given = entries@;
    let mut rest = entries;
    let mut sorted: Vec<(T, AABB)> = Vec::new();
    let mut keys: Vec<i64> = Vec::new();
    while rest.len() > 0
        invariant
            axis < 3,
            forall|b: AABB, a: usize| a < 3 ==> #[trigger] midpoint.requires((&b, a)),
            sorted@.len() == keys@.len(),
            sorted@.len() + rest@.len() == given.len(),
            sorted@.to_multiset().add(rest@.to_multiset()) == given.to_multiset(),
            forall|i: int, j: int| 0 <= i < j < keys@.len() ==> keys@[i] <= keys@[j],
            forall|i: int|
                0 <= i < keys@.len() ==> midpoint.ensures(
                    (&sorted@[i].1, axis),
                    #[trigger] keys@[i],
                ),
        decreases rest@.len(),
    {
        let ghost before = rest@;
        let e = rest.pop().unwrap();
        proof {
            assert(before =~= rest@.push(e));
            to_multiset_build(rest@, e);
        }
        let k = midpoint(&e.1, axis);
        let mut pos: usize = 0;
        while pos < keys.len() && keys[pos] <= k
            invariant
                pos <= keys@.len(),
                forall|i: int| 0 <= i < pos ==> keys@[i] <= k,
            decreases keys@.len() - pos,
        {
            pos = pos + 1;
        }
        let ghost (ks, ss) = (keys@, sorted@);
        keys.insert(pos, k);
        sorted.insert(pos, e);
        proof {
            to_multiset_insert(ss, pos as int, e);
            assert(sorted@.to_multiset().add(rest@.to_multiset()) =~= ss.to_multiset().add(
                before.to_multiset(),
            ));
            assert forall|i: int, j: int| 0 <= i < j < keys@.len() implies keys@[i] <= keys@[j] by {
                if j < pos {
                } else if j == pos {
                } else if i < pos {
                    assert(keys@[j] == ks[j - 1]);
                    if pos < ks.len() {
                        assert(ks[pos as int] <= ks[j - 1]);
                    }
                } else if i == pos {
                    assert(ks[pos as int] > k);
                    assert(ks[pos as int] <= ks[j - 1] || j - 1 == pos);
                } else {
                }
            }
            assert forall|i: int| 0 <= i < keys@.len() implies midpoint.ensures(
                (&sorted@[i].1, axis),
                #[trigger] keys@[i],
            ) by {
                if i < pos {
                    assert(keys@[i] == ks[i] && sorted@[i] == ss[i]);
                } else if i > pos {
                    assert(keys@[i] == ks[i - 1] && sorted@[i] == ss[i - 1]);
                }
            }
        }
    }
    proof {
        assert(rest@.to_multiset() =~= Multiset::empty());
    }
    (sorted, keys)
}

/// Sequences holding the same entries hold the same objects.
proof fn lemma_multiset_map<T>(s1: Seq<(T, AABB)>, s2: Seq<(T, AABB)>)
    requires
        s1.to_multiset() == s2.to_multiset(),
    ensures
        s1.map_values(|e: (T, AABB)| e.0).to_multiset() == s2.map_values(
            |e: (T, AABB)| e.0,
        ).to_multiset(),
    decreases s1.len(),
{
    broadcast use group_to_multiset_ensures, group_multiset_axioms;

    if s1.len() == 0 {
        assert(s1.to_multiset().len() == 0);
        assert(s2.to_multiset().len() == s2.len());
        assert(s1.map_values(|e: (T, AABB)| e.0) =~= s2.map_values(|e: (T, AABB)| e.0));
    } else {
        let x = s1.last();
        let t1 = s1.drop_last();
        assert(s1 =~= t1.push(x));
        assert(s2.to_multiset().count(x) > 0);
        assert(s2.contains(x));
        let j = choose|j: int| 0 <= j < s2.len() && s2[j] == x;
        let t2 = s2.remove(j);
        assert(t1.to_multiset() =~= t2.to_multiset());
        lemma_multiset_map(t1, t2);
        let m1 = s1.map_values(|e: (T, AABB)| e.0);
        let m2 = s2.map_values(|e: (T, AABB)| e.0);
        assert(m1 =~= t1.map_values(|e: (T, AABB)| e.0).push(x.0));
        assert(t2.map_values(|e: (T, AABB)| e.0) =~= m2.remove(j));
        assert(m2.to_multiset().count(x.0) > 0) by {
            assert(m2[j] == x.0);
        }
        assert(m1.to_multiset() =~= m2.to_multiset());
    }
}

proof fn lemma_encloses_trans(a: AABB, b: AABB, c: AABB)
    requires
        a.encloses(b),
        b.encloses(c),
    ensures
        a.encloses(c),
{
}

} // verus!
