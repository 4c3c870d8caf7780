//! The recursive radiance estimate along one sampled path. What a ray meets
//! (`trace`) and how colors are combined (`shade`) are supplied by the caller;
//! this module fixes the recursion: the depth cutoff, the background on a miss,
//! emission alone when nothing scatters, and emission plus attenuated incoming
//! light when something does.
use vstd::prelude::*;

verus! {

/// What a ray meets: `None` when it hits nothing; otherwise the light the
/// surface emits and, when its material scatters, the scattered ray with its
/// attenuation.
pub type Interaction<Ray, C> = Option<(C, Option<(Ray, C)>)>;

/// `r` is a possible estimate for `ray` with `depth` bounces left: black once
/// the depth is spent; the background when the ray hits nothing; the emitted
/// light when the surface does not scatter; else `shade(emitted, attenuation,
/// incoming)` for a possible estimate `incoming` of the scattered ray with one
/// bounce less.
pub open spec fn radiance_outcome<Ray, C, T: Fn(Ray) -> Interaction<Ray, C>, S: Fn(C, C, C) -> C>(
    trace: T,
    shade: S,
    background: C,
    black: C,
    ray: Ray,
    depth: int,
    r: C,
) -> bool
    decreases depth,
{
    if depth <= 0 {
        r == black
    } else {
        exists|o: Interaction<Ray, C>|
            #![trigger trace.ensures((ray,), o)]
            trace.ensures((ray,), o) && match o {
                None => r == background,
                Some((emitted, None)) => r == emitted,
                Some((emitted, Some((next, attenuation)))) => exists|incoming: C|
                    radiance_outcome(trace, shade, background, black, next, depth - 1, incoming)
                        && shade.ensures((emitted, attenuation, incoming), r),
            }
    }
}

/// The radiance estimate for `ray` with at most `depth` bounces.
pub fn radiance<Ray, C: Copy, T: Fn(Ray) -> Interaction<Ray, C>, S: Fn(C, C, C) -> C>(
    ray: Ray,
    background: C,
    black: C,
    depth: i32,
    trace: &T,
    shade: &S,
) -> (r: C)
    requires
        forall|x: Ray| #[trigger] trace.requires((x,)),
        forall|e: C, a: C, i: C| #[trigger] shade.requires((e, a, i)),
    ensures
        radiance_outcome(*trace, *shade, background, black, ray, depth as int, r),
    decreases depth,
{
    if depth <= 0 {
        return black;
    }
    let o = trace(ray);
    match o {
        None => background,
        Some((emitted, None)) => emitted,
        Some((emitted, Some((next, attenuation)))) => {
            let incoming = radiance(next, background, black, depth - 1, trace, shade);
            shade(emitted, attenuation, incoming)
        },
    }
}

/// With no bounce left the estimate is black, whatever the ray or the scene.
pub proof fn lemma_no_depth_is_black<Ray, C, T: Fn(Ray) -> Interaction<Ray, C>, S: Fn(C, C, C) -> C>(
    trace: T,
    shade: S,
    background: C,
    black: C,
    ray: Ray,
    depth: int,
    r: C,
)
    requires
        depth <= 0,
        radiance_outcome(trace, shade, background, black, ray, depth, r),
    ensures
        r == black,
{
}

/// With bounces left, a ray that hits nothing is estimated as exactly the
/// background.
pub proof fn lemma_miss_is_background<Ray, C, T: Fn(Ray) -> Interaction<Ray, C>, S: Fn(C, C, C) -> C>(
    trace: T,
    shade: S,
    background: C,
    black: C,
    ray: Ray,
    depth: int,
    r: C,
)
    requires
        depth > 0,
        forall|o: Interaction<Ray, C>| #[trigger] trace.ensures((ray,), o) ==> o is None,
        radiance_outcome(trace, shade, background, black, ray, depth, r),
    ensures
        r == background,
{
}

} // verus!
