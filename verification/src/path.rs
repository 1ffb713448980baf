use vstd::prelude::*;

verus! {

/// The depth at which camera rays are traced.
pub const PRIMARY_DEPTH: usize = 0;

/// What a ray finds in the scene.  `R` is the type of rays, `C` the type of
/// radiance values and `S` what a surface needs to remember in order to weigh
/// the radiance that reaches it.
pub enum Found<R, C, S> {
    /// Nothing: the ray leaves the scene.
    Miss,
    /// A light source, with the radiance it emits.  The path ends here.
    Light(C),
    /// A surface that reflects nothing along the direction that was drawn
    /// for this sample.
    Absorbed,
    /// A reflecting surface: the ray along which radiance arrives, and what
    /// the surface remembers.
    Reflector { next: R, state: S },
}

/// `out` is a radiance that a ray of the given depth may carry.  A ray
/// deeper than the bounce limit carries `black`.  Otherwise `look` says what
/// the ray finds: a ray that leaves the scene carries `background`; a ray that
/// ends on a light source carries what the light emits; a ray that is absorbed
/// carries `black`; and a ray that is reflected carries what `shade` makes of
/// the radiance carried by the reflected ray, which is one level deeper.
pub open spec fn traced<R, C, S, L: Fn(&R) -> Found<R, C, S>, H: Fn(S, C) -> C>(
    ray: R,
    depth: int,
    bounce_limit: int,
    black: C,
    background: C,
    look: L,
    shade: H,
    out: C,
) -> bool
    decreases bounce_limit + 1 - depth,
{
    if depth > bounce_limit {
        out == black
    } else {
        exists|found: Found<R, C, S>|
            #[trigger] call_ensures(look, (&ray,), found) && match found {
                Found::Miss => out == background,
                Found::Light(emitted) => out == emitted,
                Found::Absorbed => out == black,
                Found::Reflector { next, state } => exists|incoming: C|
                    traced(next, depth + 1, bounce_limit, black, background, look, shade, incoming)
                        && #[trigger] call_ensures(shade, (state, incoming), out),
            }
    }
}

/// Estimates the radiance that arrives along a ray by following one path of
/// reflections, at most `bounce_limit + 1 - depth` surfaces long.
pub fn trace<R, C: Copy, S, L: Fn(&R) -> Found<R, C, S>, H: Fn(S, C) -> C>(
    ray: R,
    depth: usize,
    bounce_limit: usize,
    black: C,
    background: C,
    look: &L,
    shade: &H,
) -> (out: C)
    requires
        forall|r: &R| call_requires(*look, (r,)),
        forall|s: S, c: C| call_requires(*shade, (s, c)),
    ensures
        traced(ray, depth as int, bounce_limit as int, black, background, *look, *shade, out),
    decreases bounce_limit + 1 - depth,
{
    if depth > bounce_limit {
        return black;
    }
    let found = look(&ray);
    let ghost seen = found;
    assert(call_ensures(*look, (&ray,), seen));
    match found {
        Found::Miss => background,
        Found::Light(emitted) => emitted,
        Found::Absorbed => black,
        Found::Reflector { next, state } => {
            let incoming = if depth == usize::MAX {
                black
            } else {
                trace(next, depth + 1, bounce_limit, black, background, look, shade)
            };
            assert(traced(
                next,
                depth + 1,
                bounce_limit as int,
                black,
                background,
                *look,
                *shade,
                incoming,
            ));
            let out = shade(state, incoming);
            assert(call_ensures(*shade, (state, incoming), out));
            out
        },
    }
}

/// Law: a ray deeper than the bounce limit carries nothing, so a path visits
/// at most `bounce_limit + 1` surfaces.
pub proof fn lemma_deep_rays_are_black<R, C, S, L: Fn(&R) -> Found<R, C, S>, H: Fn(S, C) -> C>(
    ray: R,
    depth: int,
    bounce_limit: int,
    black: C,
    background: C,
    look: L,
    shade: H,
    out: C,
)
    requires
        depth > bounce_limit,
    ensures
        traced(ray, depth, bounce_limit, black, background, look, shade, out) <==> out == black,
{
}

/// Law: a ray within the bounce limit that ends on a light source carries
/// exactly what the light emits, whatever the bounce limit; so does every
/// camera ray that ends on a light.
pub proof fn lemma_light_ends_path<R, C, S, L: Fn(&R) -> Found<R, C, S>, H: Fn(S, C) -> C>(
    ray: R,
    depth: int,
    bounce_limit: int,
    black: C,
    background: C,
    look: L,
    shade: H,
    emitted: C,
    out: C,
)
    requires
        depth <= bounce_limit,
        forall|found: Found<R, C, S>|
            call_ensures(look, (&ray,), found) ==> found == Found::<R, C, S>::Light(emitted),
        traced(ray, depth, bounce_limit, black, background, look, shade, out),
    ensures
        out == emitted,
{
}

/// Law: a ray within the bounce limit that leaves the scene carries the
/// background.
pub proof fn lemma_miss_is_background<R, C, S, L: Fn(&R) -> Found<R, C, S>, H: Fn(S, C) -> C>(
    ray: R,
    depth: int,
    bounce_limit: int,
    black: C,
    background: C,
    look: L,
    shade: H,
    out: C,
)
    requires
        depth <= bounce_limit,
        forall|found: Found<R, C, S>|
            call_ensures(look, (&ray,), found) ==> found == Found::<R, C, S>::Miss,
        traced(ray, depth, bounce_limit, black, background, look, shade, out),
    ensures
        out == background,
{
}

} // verus!
