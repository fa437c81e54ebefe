//! The bounce loop of the radiance estimator. A ray is followed through the
//! scene: at each hit the surface's material either scatters it, giving an
//! attenuation and a new ray, or absorbs it; a ray that hits nothing sees the
//! background. The radiance of the path is the product of its attenuations
//! and the background seen at its end, or black for an absorbed path.

use vstd::prelude::*;

verus! {

/// The most scatterings a path may have; a hit after that many absorbs the ray.
pub const MAX_DEPTH: u32 = 50;

/// How a path ended.
pub enum PathEnd<R> {
    /// The ray hit nothing: the path sees the background along it.
    Background(R),
    /// The ray was absorbed, or the path was cut at the depth limit: it
    /// carries no light.
    Absorbed,
}

/// The attenuations met along a path, in order from the camera, and how it
/// ended.
pub struct Path<R, C> {
    pub attenuations: Vec<C>,
    pub end: PathEnd<R>,
}

/// `path` is one that following `ray` can give: `rays` are the rays of its
/// segments and `hits` the hits that ended them. Each of the first
/// `n` segments hit something that scattered it with the `n` attenuations;
/// the last one hit nothing, or hit something that absorbed the ray, or was
/// cut at the depth limit.
pub open spec fn follows<R, M, C, FT: Fn(&R) -> Option<M>, FS: Fn(&R, &M) -> Option<(C, R)>>(
    ray: R,
    find: FT,
    scatter: FS,
    path: Path<R, C>,
    rays: Seq<R>,
    hits: Seq<M>,
) -> bool {
    let n = path.attenuations@.len();
    &&& n <= MAX_DEPTH
    &&& rays.len() == n + 1
    &&& hits.len() == n + 1
    &&& rays[0] == ray
    &&& forall|k: int|
        0 <= k < n ==> #[trigger] find.ensures((&rays[k],), Some(hits[k])) && scatter.ensures(
            (&rays[k], &hits[k]),
            Some((path.attenuations@[k], rays[k + 1])),
        )
    &&& match path.end {
        PathEnd::Background(r) => r == rays[n as int] && find.ensures((&rays[n as int],), None),
        PathEnd::Absorbed => find.ensures((&rays[n as int],), Some(hits[n as int])) && (n
            == MAX_DEPTH || scatter.ensures((&rays[n as int], &hits[n as int]), None)),
    }
}

/// Follows `ray` from the camera: `find` gives the nearest hit of a ray, if
/// any, and `scatter` what the material at a hit does with the ray. The
/// material is asked only while fewer than `MAX_DEPTH` scatterings happened.
pub fn trace_path<R, M, C, FT, FS>(ray: R, find: &FT, scatter: &FS) -> (path: Path<R, C>)
    where
        FT: Fn(&R) -> Option<M>,
        FS: Fn(&R, &M) -> Option<(C, R)>,
    requires
        forall|r: R| find.requires((&r,)),
        forall|r: R, m: M| scatter.requires((&r, &m)),
    ensures
        exists|rays: Seq<R>, hits: Seq<M>| follows(ray, *find, *scatter, path, rays, hits),
        (forall|m: Option<M>| #[trigger] find.ensures((&ray,), m) ==> m is None)
            ==> path.attenuations@.len() == 0 && path.end == PathEnd::<R>::Background(ray),
{
    let ghost start = ray;
    let mut current = ray;
    let mut attenuations: Vec<C> = Vec::new();
    let mut depth: u32 = 0;
    let ghost mut rays: Seq<R> = seq![ray];
    let ghost mut hits: Seq<M> = Seq::empty();
    loop
        invariant
            forall|r: R| find.requires((&r,)),
            forall|r: R, m: M| scatter.requires((&r, &m)),
            depth as int == attenuations@.len(),
            depth <= MAX_DEPTH,
            rays.len() == depth + 1,
            hits.len() == depth,
            rays[0] == start,
            start == ray,
            rays[depth as int] == current,
            forall|k: int|
                0 <= k < depth ==> #[trigger] find.ensures((&rays[k],), Some(hits[k]))
                    && scatter.ensures(
                    (&rays[k], &hits[k]),
                    Some((attenuations@[k], rays[k + 1])),
                ),
        decreases MAX_DEPTH - depth,
    {
        let found = find(&current);
        match found {
            None => {
                let path = Path { attenuations, end: PathEnd::Background(current) };
                proof {
                    let any_hit = arbitrary::<M>();
                    if depth > 0 {
                        assert(find.ensures((&rays[0],), Some(hits[0])));
                    }
                    assert(follows(start, *find, *scatter, path, rays, hits.push(any_hit)));
                }
                return path;
            },
            Some(h) => {
                if depth < MAX_DEPTH {
                    let scattered = scatter(&current, &h);
                    match scattered {
                        Some((a, next)) => {
                            proof {
                                hits = hits.push(h);
                                rays = rays.push(next);
                            }
                            attenuations.push(a);
                            current = next;
                            depth = depth + 1;
                        },
                        None => {
                            let path = Path { attenuations, end: PathEnd::Absorbed };
                            proof {
                                if depth > 0 {
                                    assert(find.ensures((&rays[0],), Some(hits[0])));
                                }
                                assert(follows(start, *find, *scatter, path, rays, hits.push(h)));
                            }
                            return path;
                        },
                    }
                } else {
                    let path = Path { attenuations, end: PathEnd::Absorbed };
                    proof {
                        if depth > 0 {
                            assert(find.ensures((&rays[0],), Some(hits[0])));
                        }
                        assert(follows(start, *find, *scatter, path, rays, hits.push(h)));
                    }
                    return path;
                }
            },
        }
    }
}

} // verus!
