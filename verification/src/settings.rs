use vstd::prelude::*;
use crate::error::RenderError;

verus! {

/// The largest bounce limit that settings may ask for.
pub const BOUNCE_CAP: usize = 64;

/// How many worker threads a render uses.
#[derive(Clone, Copy, Debug, PartialEq, Eq, Structural)]
pub enum WorkerCount {
    /// One worker per logical CPU of the machine.
    Auto,
    /// Exactly this many workers.
    Fixed(usize),
}

/// Calls `num_cpus::get`.  Its documentation promises that the count of
/// logical CPUs it reports is at least one; nothing else is claimed, since the
/// value depends on the machine.
#[verifier::external_body]
fn logical_cpus() -> (n: usize)
    ensures
        n >= 1,
{
    num_cpus::get()
}

impl WorkerCount {
    /// The worker count on a machine with `cpus` logical CPUs.
    pub open spec fn on_machine(self, cpus: usize) -> usize {
        match self {
            WorkerCount::Auto => cpus,
            WorkerCount::Fixed(c) => c,
        }
    }

    /// Resolves the worker count given the machine's CPU count.
    pub fn resolve(self, cpus: usize) -> (n: usize)
        ensures
            n == self.on_machine(cpus),
    {
        match self {
            WorkerCount::Auto => cpus,
            WorkerCount::Fixed(c) => c,
        }
    }

    /// Resolves the worker count on this machine: a fixed count is returned
    /// as it is, `Auto` becomes the machine's CPU count, which is at least one.
    pub fn get(self) -> (n: usize)
        ensures
            exists|cpus: usize| cpus >= 1 && n == #[trigger] self.on_machine(cpus),
            self matches WorkerCount::Fixed(c) ==> n == c,
            self is Auto ==> n >= 1,
    {
        let cpus = logical_cpus();
        let n = self.resolve(cpus);
        assert(n == self.on_machine(cpus));
        n
    }
}

/// Sampling parameters of the integrator.
#[derive(Clone, Copy, Debug, PartialEq, Eq, Structural)]
pub struct TraceSettings {
    pub worker_count: WorkerCount,
    pub samples_per_pixel: usize,
    pub bounce_limit: usize,
}

impl Default for TraceSettings {
    fn default() -> (s: Self)
        ensures
            s == (TraceSettings {
                worker_count: WorkerCount::Auto,
                samples_per_pixel: 30,
                bounce_limit: 5,
            }),
    {
        TraceSettings { worker_count: WorkerCount::Auto, samples_per_pixel: 30, bounce_limit: 5 }
    }
}

/// The raster a camera renders into.  The optical parameters of the camera
/// are real-valued and live with the caller.
#[derive(Clone, Copy, Debug, PartialEq, Eq, Structural)]
pub struct CameraSettings {
    pub backbuffer_width: usize,
    pub backbuffer_height: usize,
}

impl Default for CameraSettings {
    fn default() -> (c: Self)
        ensures
            c == (CameraSettings { backbuffer_width: 1280, backbuffer_height: 720 }),
    {
        CameraSettings { backbuffer_width: 1280, backbuffer_height: 720 }
    }
}

/// Everything the tiled renderer needs to schedule its work.
#[derive(Clone, Copy, Debug, PartialEq, Eq)]
pub struct Settings {
    pub worker_count: usize,
    pub camera_settings: CameraSettings,
    /// Samples each pixel receives in total.
    pub sample_count: usize,
    /// A progress message is sent whenever a tile's sample count reaches a
    /// multiple of this; zero disables progress messages.
    pub samples_per_iteration: usize,
    /// Width and height of a full tile.
    pub tile_size: (usize, usize),
    pub bounce_limit: usize,
}

impl Settings {
    /// Settings the renderer accepts.
    pub open spec fn valid(self) -> bool {
        &&& self.tile_size.0 > 0
        &&& self.tile_size.1 > 0
        &&& self.sample_count > 0
        &&& self.bounce_limit <= BOUNCE_CAP
        &&& self.worker_count > 0
    }

    /// Number of pixels of the backbuffer.
    pub open spec fn pixel_count(self) -> int {
        self.camera_settings.backbuffer_width * self.camera_settings.backbuffer_height
    }

    /// Rejects settings with an empty tile, no samples, no workers or a bounce
    /// limit above [`BOUNCE_CAP`].
    pub fn validate(&self) -> (r: Result<(), RenderError>)
        ensures
            r is Ok <==> self.valid(),
            r is Err ==> r == Err::<(), RenderError>(RenderError::InvalidSettings),
    {
        if self.tile_size.0 == 0 || self.tile_size.1 == 0 || self.sample_count == 0
            || self.bounce_limit > BOUNCE_CAP || self.worker_count == 0 {
            Err(RenderError::InvalidSettings)
        } else {
            Ok(())
        }
    }
}

} // verus!
