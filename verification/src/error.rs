use vstd::prelude::*;

verus! {

/// The failures the render core reports to its caller.
#[derive(Clone, Copy, Debug, PartialEq, Eq, Structural)]
pub enum RenderError {
    /// A mesh cannot be indexed by a grid: its bounds are degenerate or its
    /// triangles reach cells that the grid does not own.
    InvalidScene,
    /// The settings ask for an empty tile, no samples, no workers or too many
    /// bounces.
    InvalidSettings,
}

impl RenderError {
    /// A short human-readable description of the failure.
    pub fn describe(&self) -> (text: &'static str)
        ensures
            text@ == (match *self {
                RenderError::InvalidScene => "invalid scene"@,
                RenderError::InvalidSettings => "invalid settings"@,
            }),
    {
        match self {
            RenderError::InvalidScene => "invalid scene",
            RenderError::InvalidSettings => "invalid settings",
        }
    }
}

} // verus!
