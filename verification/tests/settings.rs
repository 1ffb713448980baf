use raymond::error::RenderError;
use raymond::settings::{CameraSettings, Settings, TraceSettings, WorkerCount};

fn base() -> Settings {
    Settings {
        worker_count: 4,
        camera_settings: CameraSettings { backbuffer_width: 64, backbuffer_height: 48 },
        sample_count: 8,
        samples_per_iteration: 4,
        tile_size: (16, 16),
        bounce_limit: 5,
    }
}

#[test]
fn default_trace_settings() {
    let s = TraceSettings::default();
    assert_eq!(s.worker_count, WorkerCount::Auto);
    assert_eq!(s.samples_per_pixel, 30);
    assert_eq!(s.bounce_limit, 5);
}

#[test]
fn default_camera_raster() {
    let c = CameraSettings::default();
    assert_eq!(c.backbuffer_width, 1280);
    assert_eq!(c.backbuffer_height, 720);
}

#[test]
fn fixed_worker_count_is_kept() {
    assert_eq!(WorkerCount::Fixed(7).get(), 7);
    assert_eq!(WorkerCount::Fixed(0).get(), 0);
    assert_eq!(WorkerCount::Fixed(3).resolve(16), 3);
}

#[test]
fn auto_worker_count_follows_the_machine() {
    assert!(WorkerCount::Auto.get() >= 1);
    assert_eq!(WorkerCount::Auto.resolve(12), 12);
}

#[test]
fn valid_settings_pass() {
    assert_eq!(base().validate(), Ok(()));
    let mut s = base();
    s.bounce_limit = 64;
    s.samples_per_iteration = 0;
    assert_eq!(s.validate(), Ok(()));
}

#[test]
fn empty_tile_is_rejected() {
    let mut s = base();
    s.tile_size = (0, 16);
    assert_eq!(s.validate(), Err(RenderError::InvalidSettings));
    s.tile_size = (16, 0);
    assert_eq!(s.validate(), Err(RenderError::InvalidSettings));
}

#[test]
fn zero_samples_are_rejected() {
    let mut s = base();
    s.sample_count = 0;
    assert_eq!(s.validate(), Err(RenderError::InvalidSettings));
}

#[test]
fn too_many_bounces_are_rejected() {
    let mut s = base();
    s.bounce_limit = 65;
    assert_eq!(s.validate(), Err(RenderError::InvalidSettings));
}

#[test]
fn zero_workers_are_rejected() {
    let mut s = base();
    s.worker_count = 0;
    assert_eq!(s.validate(), Err(RenderError::InvalidSettings));
}

#[test]
fn errors_describe_themselves() {
    assert_eq!(RenderError::InvalidScene.describe(), "invalid scene");
    assert_eq!(RenderError::InvalidSettings.describe(), "invalid settings");
}
