use raymond::brdf::{resample, RESAMPLE_LIMIT};
use raymond::path::{trace, Found, PRIMARY_DEPTH};
use std::cell::Cell;

const BLACK: i64 = 0;
const SKY: i64 = 1000;

// Rays are numbered; ray n finds what `scene[n]` says.
#[derive(Clone, Copy)]
enum Sight {
    Nothing,
    Lamp(i64),
    Dark,
    Mirror(i64),
}

fn follow(scene: &[Sight], depth: usize, bounce_limit: usize) -> i64 {
    let look = |ray: &usize| match scene[*ray] {
        Sight::Nothing => Found::Miss,
        Sight::Lamp(emitted) => Found::Light(emitted),
        Sight::Dark => Found::Absorbed,
        Sight::Mirror(gain) => Found::Reflector { next: *ray + 1, state: gain },
    };
    let shade = |gain: i64, incoming: i64| gain * incoming + 1;
    trace(0usize, depth, bounce_limit, BLACK, SKY, &look, &shade)
}

#[test]
fn primary_rays_start_at_depth_zero() {
    assert_eq!(PRIMARY_DEPTH, 0);
}

#[test]
fn miss_returns_background() {
    assert_eq!(follow(&[Sight::Nothing], PRIMARY_DEPTH, 0), SKY);
    assert_eq!(follow(&[Sight::Nothing], 3, 5), SKY);
}

#[test]
fn emissive_primary_hit_emits_whatever_the_bounce_limit() {
    for limit in [0usize, 1, 5, 64, usize::MAX] {
        assert_eq!(follow(&[Sight::Lamp(7)], PRIMARY_DEPTH, limit), 7);
    }
}

#[test]
fn rays_beyond_the_limit_are_black() {
    assert_eq!(follow(&[Sight::Nothing], 1, 0), BLACK);
    assert_eq!(follow(&[Sight::Lamp(7)], 1, 0), BLACK);
    assert_eq!(follow(&[Sight::Mirror(2)], 6, 5), BLACK);
}

#[test]
fn absorbed_sample_is_black() {
    assert_eq!(follow(&[Sight::Dark], 0, 5), BLACK);
    assert_eq!(follow(&[Sight::Mirror(3), Sight::Dark], 0, 5), 3 * BLACK + 1);
}

#[test]
fn reflections_weigh_what_arrives() {
    let scene = [Sight::Mirror(2), Sight::Mirror(3), Sight::Lamp(10)];
    // the lamp is seen through two mirrors: 2 * (3 * 10 + 1) + 1
    assert_eq!(follow(&scene, 0, 2), 63);
    assert_eq!(follow(&scene, 0, 64), 63);
    let open = [Sight::Mirror(2), Sight::Nothing];
    assert_eq!(follow(&open, 0, 1), 2 * SKY + 1);
}

#[test]
fn bounce_limit_cuts_the_path() {
    let scene = [Sight::Mirror(2), Sight::Mirror(3), Sight::Lamp(10)];
    // the second mirror's ray is too deep and carries nothing
    assert_eq!(follow(&scene, 0, 1), 2 * (3 * BLACK + 1) + 1);
    // the first mirror's ray is too deep already
    assert_eq!(follow(&scene, 0, 0), 2 * BLACK + 1);
    // a path never looks further than the limit allows
    let endless = [Sight::Mirror(1); 8];
    assert_eq!(follow(&endless, 0, 6), 7);
    assert_eq!(follow(&endless, 3, 6), 4);
}

#[test]
fn deepest_ray_does_not_overflow() {
    let scene = [Sight::Mirror(5), Sight::Lamp(1)];
    let look = |ray: &usize| match scene[*ray] {
        Sight::Mirror(gain) => Found::Reflector { next: *ray + 1, state: gain },
        _ => Found::Light(9i64),
    };
    let shade = |gain: i64, incoming: i64| gain * incoming + 1;
    assert_eq!(trace(0usize, usize::MAX, usize::MAX, BLACK, SKY, &look, &shade), 1);
}

#[test]
fn resample_returns_the_first_success() {
    let calls = Cell::new(0);
    let draw = || {
        calls.set(calls.get() + 1);
        if calls.get() >= 3 {
            Some(calls.get())
        } else {
            None
        }
    };
    assert_eq!(resample(10, &draw), Some(3));
    assert_eq!(calls.get(), 3);
}

#[test]
fn resample_gives_up_after_the_limit() {
    let calls = Cell::new(0usize);
    let draw = || {
        calls.set(calls.get() + 1);
        None::<u8>
    };
    assert_eq!(resample(RESAMPLE_LIMIT, &draw), None);
    assert_eq!(calls.get(), 64);
    assert_eq!(resample(0, &|| Some(1u8)), None);
    assert_eq!(resample(1, &|| Some(1u8)), Some(1));
}
