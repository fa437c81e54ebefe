use pathtrace::aabb::{Point, AABB};

fn bx(a: (i64, i64, i64), b: (i64, i64, i64)) -> AABB {
    AABB::new(Point::new(a.0, a.1, a.2), Point::new(b.0, b.1, b.2))
}

fn holds(outer: &AABB, p: &Point) -> bool {
    (0..3).all(|a| outer.min.get(a) <= p.get(a) && p.get(a) <= outer.max.get(a))
}

fn corners(b: &AABB) -> Vec<Point> {
    let mut v = Vec::new();
    for i in 0..8 {
        let x = if i & 1 == 0 { b.min.x } else { b.max.x };
        let y = if i & 2 == 0 { b.min.y } else { b.max.y };
        let z = if i & 4 == 0 { b.min.z } else { b.max.z };
        v.push(Point::new(x, y, z));
    }
    v
}

#[test]
fn union_takes_componentwise_extremes() {
    let a = bx((0, -5, 2), (3, 1, 9));
    let b = bx((-1, -2, 4), (2, 7, 5));
    let u = a.union(&b);
    assert_eq!(u, bx((-1, -5, 2), (3, 7, 9)));
    assert_eq!(b.union(&a), u);
}

#[test]
fn union_holds_every_corner_and_is_tight() {
    let a = bx((0, 0, 0), (1, 2, 3));
    let b = bx((5, -4, 1), (6, -1, 2));
    let u = a.union(&b);
    for p in corners(&a).iter().chain(corners(&b).iter()) {
        assert!(holds(&u, p));
    }
    // shrinking any face loses a corner
    for axis in 0..3 {
        let mut lo = u;
        let mut hi = u;
        match axis {
            0 => {
                lo.min.x += 1;
                hi.max.x -= 1;
            }
            1 => {
                lo.min.y += 1;
                hi.max.y -= 1;
            }
            _ => {
                lo.min.z += 1;
                hi.max.z -= 1;
            }
        }
        let all: Vec<Point> = corners(&a).into_iter().chain(corners(&b)).collect();
        assert!(all.iter().any(|p| !holds(&lo, p)));
        assert!(all.iter().any(|p| !holds(&hi, p)));
    }
}

#[test]
fn union_with_itself_is_identity() {
    let a = bx((-3, 4, 0), (8, 9, 1));
    assert_eq!(a.union(&a), a);
}

#[test]
fn normalized_orders_inverted_axes() {
    let inverted = bx((3, -1, 5), (1, 2, 5));
    assert_eq!(inverted.normalized(), bx((1, -1, 5), (3, 2, 5)));
    let plain = bx((0, 0, 0), (1, 1, 1));
    assert_eq!(plain.normalized(), plain);
}

#[test]
fn point_axes() {
    let p = Point::new(4, -7, 11);
    assert_eq!((p.get(0), p.get(1), p.get(2)), (4, -7, 11));
}
