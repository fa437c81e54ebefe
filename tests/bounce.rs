use pathtrace::trace::{trace_path, PathEnd, MAX_DEPTH};
use std::cell::Cell;

#[derive(Debug, Clone, Copy, PartialEq)]
struct Ray {
    origin: [f32; 3],
    dir: [f32; 3],
}

fn dot(a: [f32; 3], b: [f32; 3]) -> f32 {
    a[0] * b[0] + a[1] * b[1] + a[2] * b[2]
}

fn sub(a: [f32; 3], b: [f32; 3]) -> [f32; 3] {
    [a[0] - b[0], a[1] - b[1], a[2] - b[2]]
}

/// Nearest root in `(0.001, inf)` of a ray against a sphere.
fn sphere_hit(ray: &Ray, center: [f32; 3], radius: f32) -> Option<f32> {
    let oc = sub(ray.origin, center);
    let a = dot(ray.dir, ray.dir);
    let b = dot(oc, ray.dir);
    let c = dot(oc, oc) - radius * radius;
    let disc = b * b - a * c;
    if disc <= 0.0 {
        return None;
    }
    for t in [(-b - disc.sqrt()) / a, (-b + disc.sqrt()) / a] {
        if t > 0.001 && t < f32::MAX {
            return Some(t);
        }
    }
    None
}

fn background(ray: &Ray) -> [f32; 3] {
    let t = 0.5 * (ray.dir[1] + 1.0);
    [
        (1.0 - t) * 1.0 + t * 0.5,
        (1.0 - t) * 1.0 + t * 0.7,
        (1.0 - t) * 1.0 + t * 1.0,
    ]
}

/// Radiance of a traced path: product of its attenuations and what it sees.
fn radiance(atts: &[[f32; 3]], end: &PathEnd<Ray>) -> [f32; 3] {
    let mut c = match end {
        PathEnd::Background(r) => background(r),
        PathEnd::Absorbed => [0.0, 0.0, 0.0],
    };
    for a in atts.iter().rev() {
        c = [a[0] * c[0], a[1] * c[1], a[2] * c[2]];
    }
    c
}

#[test]
fn ray_missing_everything_sees_exact_background() {
    // one diffuse sphere of albedo 0.5 below the camera; the ray looks up
    let center = [0.0, -100.5, -1.0];
    let ray = Ray { origin: [0.0, 0.0, 0.0], dir: [0.0, 0.6, -0.8] };
    let scatters = Cell::new(0u32);
    let path = trace_path(
        ray,
        &|r: &Ray| sphere_hit(r, center, 100.0),
        &|r: &Ray, _t: &f32| {
            scatters.set(scatters.get() + 1);
            Some(([0.5f32, 0.5, 0.5], *r))
        },
    );
    assert!(path.attenuations.is_empty());
    assert_eq!(scatters.get(), 0);
    match &path.end {
        PathEnd::Background(r) => assert_eq!(*r, ray),
        PathEnd::Absorbed => panic!("the ray hits nothing"),
    }
    let t = 0.5f32 * (0.6 + 1.0);
    let expected = [(1.0 - t) + t * 0.5, (1.0 - t) + t * 0.7, (1.0 - t) + t * 1.0];
    assert_eq!(radiance(&path.attenuations, &path.end), expected);
}

#[test]
fn ray_hitting_diffuse_sphere_is_attenuated_once() {
    let center = [0.0, -100.5, -1.0];
    let down = Ray { origin: [0.0, 0.0, 0.0], dir: [0.0, -1.0, 0.0] };
    let up = Ray { origin: [0.0, -0.5, 0.0], dir: [0.0, 1.0, 0.0] };
    let path = trace_path(
        down,
        &|r: &Ray| sphere_hit(r, center, 100.0),
        &|_r: &Ray, _t: &f32| Some(([0.5f32, 0.5, 0.5], up)),
    );
    assert_eq!(path.attenuations, vec![[0.5f32, 0.5, 0.5]]);
    match &path.end {
        PathEnd::Background(r) => assert_eq!(*r, up),
        PathEnd::Absorbed => panic!("the scattered ray escapes"),
    }
    assert_eq!(radiance(&path.attenuations, &path.end), [0.25, 0.35, 0.5]);
}

#[test]
fn absorbed_ray_carries_no_light() {
    let ray = Ray { origin: [0.0; 3], dir: [1.0, 0.0, 0.0] };
    let path = trace_path(ray, &|_: &Ray| Some(1.0f32), &|_: &Ray, _: &f32| None::<([f32; 3], Ray)>);
    assert!(path.attenuations.is_empty());
    assert!(matches!(path.end, PathEnd::Absorbed));
    assert_eq!(radiance(&path.attenuations, &path.end), [0.0, 0.0, 0.0]);
}

#[test]
fn path_is_cut_at_depth_limit() {
    let ray = Ray { origin: [0.0; 3], dir: [1.0, 0.0, 0.0] };
    let scatters = Cell::new(0u32);
    let path = trace_path(ray, &|_: &Ray| Some(1.0f32), &|r: &Ray, _: &f32| {
        scatters.set(scatters.get() + 1);
        Some(([0.9f32, 0.9, 0.9], *r))
    });
    assert_eq!(MAX_DEPTH, 50);
    assert_eq!(path.attenuations.len(), 50);
    assert_eq!(scatters.get(), 50);
    assert!(matches!(path.end, PathEnd::Absorbed));
}
