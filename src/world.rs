//! A scene before acceleration: an unordered list of objects, answered by
//! asking each of them in turn.

use vstd::prelude::*;
use vstd::seq_lib::group_to_multiset_ensures;
use crate::aabb::AABB;
use crate::bvh::{Bvh, split_tests, deterministic_midpoint};
use crate::hit::{Hit, deterministic, reported_by, none_nearer, first_of_nearest};

verus! {

/// The objects of a scene, in the order they were added.
pub struct World<T> {
    objects: Vec<T>,
}

impl<T> World<T> {
    /// The objects held, in the order they were added.
    pub closed spec fn objects(&self) -> Seq<T> {
        self.objects@
    }

    pub fn new() -> (w: World<T>)
        ensures
            w.objects() == Seq::<T>::empty(),
    {
        World { objects: Vec::new() }
    }

    pub fn add_object(&mut self, obj: T)
        ensures
            final(self).objects() == old(self).objects().push(obj),
    {
        self.objects.push(obj);
    }

    pub fn len(&self) -> (n: usize)
        ensures
            n == self.objects().len(),
    {
        self.objects.len()
    }

    /// Hands every object over to a new bounding-volume hierarchy; see
    /// `Bvh::new`. A scene without objects has no hierarchy.
    pub fn generate_bvh<FB, FW, FM>(
        self,
        bounding_box: &FB,
        widest_axis: &FW,
        midpoint: &FM,
    ) -> (bvh: Bvh<T>)
        where
            FB: Fn(&T) -> AABB,
            FW: Fn(&AABB) -> usize,
            FM: Fn(&AABB, usize) -> i64,
        requires
            self.objects().len() >= 1,
            forall|o: T| bounding_box.requires((&o,)),
            split_tests(*widest_axis, *midpoint),
        ensures
            bvh.wf(),
            bvh.balanced(),
            deterministic_midpoint(*midpoint) ==> bvh.split_as_built(*widest_axis, *midpoint),
            bvh.count() == self.objects().len(),
            bvh.objects().to_multiset() == self.objects().to_multiset(),
            forall|i: int|
                0 <= i < bvh.leaves().len() ==> bounding_box.ensures(
                    (&bvh.leaves()[i].0,),
                    #[trigger] bvh.leaves()[i].1,
                ),
    {
        Bvh::new(self.objects, bounding_box, widest_axis, midpoint)
    }

    /// The nearest hit among all objects, found by asking every one of them;
    /// of several at the same distance the first one asked wins.
    pub fn hit<H, F: Fn(&T) -> Option<Hit<H>>>(&self, query: &F) -> (r: Option<Hit<H>>)
        requires
            forall|o: T| query.requires((&o,)),
        ensures
            reported_by(self.objects(), *query, r),
            deterministic(*query) ==> none_nearer(self.objects(), *query, r),
            deterministic(*query) ==> first_of_nearest(self.objects(), *query, r),
    {
        let mut best: Option<Hit<H>> = None;
        let mut i: usize = 0;
        while i < self.objects.len()
            invariant
                forall|o: T| query.requires((&o,)),
                i <= self.objects@.len(),
                reported_by(self.objects@, *query, best),
                deterministic(*query) ==> none_nearer(
                    self.objects@.subrange(0, i as int),
                    *query,
                    best,
                ),
                deterministic(*query) ==> first_of_nearest(
                    self.objects@.subrange(0, i as int),
                    *query,
                    best,
                ),
            decreases self.objects@.len() - i,
        {
            let answer = query(&self.objects[i]);
            let ghost prev = best;
            let ghost got = answer;
            let ghost mut took = false;
            match answer {
                Some(h) => {
                    let nearer = match &best {
                        Some(b) => h.t < b.t,
                        None => true,
                    };
                    if nearer {
                        best = Some(h);
                        proof {
                            took = true;
                        }
                    }
                },
                None => {},
            }
            proof {
                if deterministic(*query) {
                    let done = self.objects@.subrange(0, i as int);
                    let next = self.objects@.subrange(0, i as int + 1);
                    assert forall|j: int, h: Hit<H>|
                        0 <= j < next.len() && #[trigger] query.ensures((&next[j],), Some(h))
                        implies best is Some && best->Some_0.t <= h.t by {
                        if j < i {
                            assert(next[j] == done[j]);
                            assert(prev is Some && prev->Some_0.t <= h.t);
                        } else {
                            assert(next[j] == self.objects@[i as int]);
                            assert(got == Some(h));
                        }
                    }
                    if best is Some {
                        if took {
                            assert(best == got);
                            assert(query.ensures((&next[i as int],), best));
                            assert forall|j: int, h: Hit<H>|
                                0 <= j < i && #[trigger] query.ensures((&next[j],), Some(h))
                                implies h.t > best->Some_0.t by {
                                assert(next[j] == done[j]);
                                assert(query.ensures((&done[j],), Some(h)));
                            }
                        } else {
                            assert(best == prev);
                            let w = choose|w: int|
                                0 <= w < done.len() && #[trigger] query.ensures((&done[w],), prev)
                                    && forall|j: int, h: Hit<H>|
                                    0 <= j < w && #[trigger] query.ensures((&done[j],), Some(h))
                                        ==> h.t > prev->Some_0.t;
                            assert(next[w] == done[w]);
                            assert forall|j: int, h: Hit<H>|
                                0 <= j < w && #[trigger] query.ensures((&next[j],), Some(h))
                                implies h.t > best->Some_0.t by {
                                assert(next[j] == done[j]);
                            }
                            assert(query.ensures((&next[w],), best));
                        }
                    }
                }
            }
            i = i + 1;
        }
        proof {
            assert(self.objects@.subrange(0, i as int) =~= self.objects@);
        }
        best
    }
}

/// For any scene, query and box test: asking the hierarchy built from the
/// scene's objects and asking every object in turn agree. Both find a hit or
/// neither does, and the hits lie at the same distance; where only one
/// object can be hit at that distance, both give the same hit. This holds
/// provided the query answers alike when asked twice and the box test never
/// misses a box that holds an object's box where that object can be hit.
pub proof fn lemma_bvh_agrees_with_scan<T, H, FB: Fn(&AABB) -> bool, FP: Fn(&T) -> Option<Hit<H>>>(
    world: World<T>,
    bvh: Bvh<T>,
    box_test: FB,
    query: FP,
    by_tree: Option<Hit<H>>,
    by_scan: Option<Hit<H>>,
)
    requires
        bvh.objects().to_multiset() == world.objects().to_multiset(),
        deterministic(query),
        bvh.prunes_soundly(box_test, query),
        reported_by(bvh.objects(), query, by_tree),
        deterministic(query) && bvh.prunes_soundly(box_test, query) ==> none_nearer(
            bvh.objects(),
            query,
            by_tree,
        ),
        reported_by(world.objects(), query, by_scan),
        deterministic(query) ==> none_nearer(world.objects(), query, by_scan),
    ensures
        by_tree is Some <==> by_scan is Some,
        by_tree is Some ==> by_tree->Some_0.t == by_scan->Some_0.t,
        by_scan is Some && (forall|i: int, j: int, hi: Hit<H>, hj: Hit<H>|
            0 <= i < world.objects().len() && 0 <= j < world.objects().len()
                && #[trigger] query.ensures((&world.objects()[i],), Some(hi))
                && #[trigger] query.ensures((&world.objects()[j],), Some(hj)) && hi.t
                == by_scan->Some_0.t && hj.t == by_scan->Some_0.t ==> world.objects()[i]
                == world.objects()[j]) ==> by_tree == by_scan,
{
    broadcast use group_to_multiset_ensures;

    let tree = bvh.objects();
    let scan = world.objects();
    if by_tree is Some {
        let i = choose|i: int|
            0 <= i < tree.len() && #[trigger] query.ensures((&tree[i],), by_tree);
        assert(tree.to_multiset().count(tree[i]) > 0);
        assert(scan.contains(tree[i]));
        let j = choose|j: int| 0 <= j < scan.len() && scan[j] == tree[i];
        assert(query.ensures((&scan[j],), Some(by_tree->Some_0)));
    }
    if by_scan is Some {
        let j = choose|j: int|
            0 <= j < scan.len() && #[trigger] query.ensures((&scan[j],), by_scan);
        assert(scan.to_multiset().count(scan[j]) > 0);
        assert(tree.contains(scan[j]));
        let i = choose|i: int| 0 <= i < tree.len() && tree[i] == scan[j];
        assert(query.ensures((&tree[i],), Some(by_scan->Some_0)));
    }
    if by_tree is Some && by_scan is Some && (forall|i: int, j: int, hi: Hit<H>, hj: Hit<H>|
        0 <= i < scan.len() && 0 <= j < scan.len() && #[trigger] query.ensures(
            (&scan[i],),
            Some(hi),
        ) && #[trigger] query.ensures((&scan[j],), Some(hj)) && hi.t == by_scan->Some_0.t && hj.t
            == by_scan->Some_0.t ==> scan[i] == scan[j]) {
        let i = choose|i: int|
            0 <= i < tree.len() && #[trigger] query.ensures((&tree[i],), by_tree);
        lemma_same_object(tree, scan, i);
        let j = choose|j: int| 0 <= j < scan.len() && scan[j] == tree[i];
        let k = choose|k: int|
            0 <= k < scan.len() && #[trigger] query.ensures((&scan[k],), by_scan);
        lemma_same_object(scan, tree, k);
        let m = choose|m: int| 0 <= m < tree.len() && tree[m] == scan[k];
        assert(query.ensures((&scan[j],), Some(by_tree->Some_0)));
        assert(query.ensures((&tree[m],), Some(by_scan->Some_0)));
        assert(by_tree->Some_0.t == by_scan->Some_0.t);
        assert(query.ensures((&scan[k],), Some(by_scan->Some_0)));
        assert(scan[j] == scan[k]);
        assert(query.ensures((&scan[k],), by_tree));
    }
}

/// An object of one sequence stands somewhere in a sequence with the same
/// objects.
proof fn lemma_same_object<T>(s1: Seq<T>, s2: Seq<T>, i: int)
    requires
        s1.to_multiset() == s2.to_multiset(),
        0 <= i < s1.len(),
    ensures
        exists|j: int| 0 <= j < s2.len() && s2[j] == s1[i],
{
    broadcast use group_to_multiset_ensures;

    assert(s1.to_multiset().count(s1[i]) > 0);
    assert(s2.contains(s1[i]));
}

} // verus!
