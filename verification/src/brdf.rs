use vstd::prelude::*;

verus! {

/// How often a direction is drawn for one sample before the sample is given
/// up.
pub const RESAMPLE_LIMIT: usize = 64;

/// Draws until a draw succeeds, at most `attempts` times.  Importance
/// sampling uses it to draw again when a direction falls below the horizon:
/// `draw` answers `None` for such a direction.  The result is the first
/// successful draw, or `None` if there was none.
pub fn resample<T, D: Fn() -> Option<T>>(attempts: usize, draw: &D) -> (r: Option<T>)
    requires
        call_requires(*draw, ()),
    ensures
        r is Some ==> attempts > 0 && call_ensures(*draw, (), r),
        r is None && attempts > 0 ==> call_ensures(*draw, (), None::<T>),
{
    let mut left: usize = attempts;
    while left > 0
        invariant
            left <= attempts,
            call_requires(*draw, ()),
            left < attempts ==> call_ensures(*draw, (), None::<T>),
        decreases left,
    {
        let drawn = draw();
        if drawn.is_some() {
            return drawn;
        }
        left -= 1;
    }
    None
}

} // verus!
