use pathtrace::aabb::{Point, AABB};
use pathtrace::bvh::Bvh;
use pathtrace::hit::{nearer, Hit};
use pathtrace::world::World;

/// A segment of the x axis, `[lo, hi]`, named `id`.
#[derive(Debug, Clone, Copy, PartialEq)]
struct Segment {
    id: u32,
    lo: i64,
    hi: i64,
}

fn seg(id: u32, lo: i64, hi: i64) -> Segment {
    Segment { id, lo, hi }
}

fn bounds(s: &Segment) -> AABB {
    AABB::new(Point::new(s.lo, 0, 0), Point::new(s.hi, 0, 0))
}

fn widest(b: &AABB) -> usize {
    let mut best = 0;
    let mut extent = b.max.get(0) - b.min.get(0);
    for a in 1..3 {
        let e = b.max.get(a) - b.min.get(a);
        if e > extent {
            best = a;
            extent = e;
        }
    }
    best
}

fn midpoint(b: &AABB, axis: usize) -> i64 {
    b.min.get(axis) + b.max.get(axis)
}

/// A ray along +x starting at the origin, asked within `(tmin, tmax)`:
/// it enters a segment at `lo` and leaves it at `hi`.
fn query(s: &Segment, tmin: i64, tmax: i64) -> Option<Hit<u32>> {
    if s.lo > tmin && s.lo < tmax {
        Some(Hit::new(s.lo, s.id))
    } else if s.hi > tmin && s.hi < tmax {
        Some(Hit::new(s.hi, s.id))
    } else {
        None
    }
}

fn box_meets(b: &AABB, tmin: i64, tmax: i64) -> bool {
    b.max.x >= tmin && b.min.x <= tmax
}

fn scene() -> Vec<Segment> {
    vec![
        seg(0, 40, 44),
        seg(1, 3, 9),
        seg(2, 70, 90),
        seg(3, 12, 13),
        seg(4, 25, 60),
        seg(5, 5, 6),
        seg(6, 100, 120),
        seg(7, 58, 59),
        seg(8, 33, 34),
    ]
}

fn build(objects: Vec<Segment>) -> Bvh<Segment> {
    Bvh::new(objects, &bounds, &widest, &midpoint)
}

fn leaves_of(bvh: &Bvh<Segment>, tmin: i64, tmax: i64) -> Option<(i64, u32)> {
    bvh.hit(&|b: &AABB| box_meets(b, tmin, tmax), &|s: &Segment| query(s, tmin, tmax))
        .map(|h| (h.t, h.record))
}

#[test]
fn bvh_counts_and_bounds_all_objects() {
    let bvh = build(scene());
    assert_eq!(bvh.size(), 9);
    let b = bvh.bounding_box();
    assert_eq!(b, AABB::new(Point::new(3, 0, 0), Point::new(120, 0, 0)));
}

#[test]
fn bvh_single_object_is_a_leaf() {
    let bvh = build(vec![seg(9, 1, 2)]);
    assert_eq!(bvh.size(), 1);
    assert_eq!(bvh.bounding_box(), bounds(&seg(9, 1, 2)));
    assert_eq!(leaves_of(&bvh, 0, 1000), Some((1, 9)));
}

#[test]
fn bvh_finds_nearest_hit() {
    let bvh = build(scene());
    assert_eq!(leaves_of(&bvh, 0, 1000), Some((3, 1)));
    assert_eq!(leaves_of(&bvh, 4, 1000), Some((5, 5)));
    assert_eq!(leaves_of(&bvh, 10, 1000), Some((12, 3)));
    assert_eq!(leaves_of(&bvh, 61, 1000), Some((70, 2)));
    assert_eq!(leaves_of(&bvh, 121, 1000), None);
    assert_eq!(leaves_of(&bvh, 0, 3), None);
}

#[test]
fn bvh_agrees_with_linear_scan() {
    let objects = scene();
    let mut world = World::new();
    for s in objects.iter() {
        world.add_object(*s);
    }
    let bvh = build(objects);
    for tmin in -5..130 {
        for tmax in [tmin + 1, tmin + 7, tmin + 30, 1000] {
            let by_tree = leaves_of(&bvh, tmin, tmax);
            let by_scan = world
                .hit(&|s: &Segment| query(s, tmin, tmax))
                .map(|h| (h.t, h.record));
            // every distance in the scene is reached by one segment only
            assert_eq!(by_tree, by_scan, "tmin {} tmax {}", tmin, tmax);
        }
    }
}

#[test]
fn generate_bvh_takes_every_object() {
    let mut world = World::new();
    for s in scene() {
        world.add_object(s);
    }
    assert_eq!(world.len(), 9);
    let bvh = world.generate_bvh(&bounds, &widest, &midpoint);
    assert_eq!(bvh.size(), 9);
    for s in scene() {
        let inside = leaves_of(&bvh, s.lo - 1, s.lo + 1);
        assert_eq!(inside.map(|h| h.0), Some(s.lo));
    }
}

#[test]
fn bvh_skips_subtrees_whose_box_is_missed() {
    let bvh = build(scene());
    // a box test that misses everything hides every object
    let r = bvh.hit(&|_: &AABB| false, &|s: &Segment| query(s, 0, 1000));
    assert!(r.is_none());
}

#[test]
fn world_scan_keeps_first_of_equal_hits() {
    let mut world = World::new();
    world.add_object(seg(1, 10, 20));
    world.add_object(seg(2, 10, 30));
    world.add_object(seg(3, 15, 16));
    let r = world.hit(&|s: &Segment| query(s, 0, 100)).unwrap();
    assert_eq!((r.t, r.record), (10, 1));
}

#[test]
fn empty_world_has_no_hit() {
    let world: World<Segment> = World::new();
    assert_eq!(world.len(), 0);
    assert!(world.hit(&|s: &Segment| query(s, 0, 100)).is_none());
}

#[test]
fn nearer_prefers_smaller_distance_then_second() {
    let a = Some(Hit::new(3, 'a'));
    let b = Some(Hit::new(5, 'b'));
    assert_eq!(nearer(a, b).map(|h| h.record), Some('a'));
    let a = Some(Hit::new(7, 'a'));
    let b = Some(Hit::new(5, 'b'));
    assert_eq!(nearer(a, b).map(|h| h.record), Some('b'));
    let a = Some(Hit::new(5, 'a'));
    let b = Some(Hit::new(5, 'b'));
    assert_eq!(nearer(a, b).map(|h| h.record), Some('b'));
    assert_eq!(nearer(Some(Hit::new(1, 'a')), None).map(|h| h.record), Some('a'));
    assert_eq!(nearer(None, Some(Hit::new(1, 'b'))).map(|h| h.record), Some('b'));
    assert!(nearer::<char>(None, None).is_none());
}

#[test]
fn bvh_box_missed_at_root_gives_no_hit() {
    let bvh = build(scene());
    let root = bvh.bounding_box();
    let r = bvh.hit(&|b: &AABB| *b != root, &|s: &Segment| query(s, 0, 1000));
    assert!(r.is_none());
}
