use raymond::frame::{blit, collect_finished, PixelSum};
use raymond::settings::{CameraSettings, Settings};
use raymond::tile::{Radiance, Tile};
use raymond::trace::{finish_pass, render_tiled, Message};

fn lit(left: usize, top: usize, width: usize, height: usize, value: u32, samples: usize) -> Tile {
    let mut t = Tile::new(left, top, width, height);
    t.sample_count = samples;
    for (i, p) in t.data.iter_mut().enumerate() {
        *p = Radiance { r: value, g: value + 1, b: i as u32 };
    }
    t
}

fn blank() -> PixelSum {
    PixelSum { sum: Radiance { r: 0, g: 0, b: 0 }, samples: 0 }
}

#[test]
fn blit_writes_the_covered_pixels_only() {
    let mut image = vec![blank(); 4 * 3];
    blit(&mut image, &lit(1, 1, 2, 2, 10, 5), 4, 3);
    let px = |b: u32| PixelSum { sum: Radiance { r: 10, g: 11, b }, samples: 5 };
    assert_eq!(
        image,
        vec![
            blank(), blank(), blank(), blank(),
            blank(), px(0), px(1), blank(),
            blank(), px(2), px(3), blank(),
        ]
    );
}

#[test]
fn collect_reads_finished_tiles_in_order() {
    let messages = vec![
        Message::TileFinished(lit(0, 0, 2, 1, 10, 4)),
        Message::TileFinished(lit(1, 0, 1, 1, 20, 6)),
    ];
    let image = collect_finished(&messages, 2, 1);
    assert_eq!(
        image,
        vec![
            PixelSum { sum: Radiance { r: 10, g: 11, b: 0 }, samples: 4 },
            PixelSum { sum: Radiance { r: 20, g: 21, b: 0 }, samples: 6 },
        ]
    );
}

#[test]
fn collect_passes_over_other_messages() {
    let messages = vec![
        Message::TileFinished(lit(0, 0, 1, 1, 10, 4)),
        Message::TileProgressed(lit(1, 0, 1, 1, 20, 2)),
        Message::TileFinished(lit(1, 0, 1, 1, 30, 4)),
        Message::Finished,
    ];
    let image = collect_finished(&messages, 2, 1);
    assert_eq!(image[0], PixelSum { sum: Radiance { r: 10, g: 11, b: 0 }, samples: 4 });
    assert_eq!(image[1], PixelSum { sum: Radiance { r: 30, g: 31, b: 0 }, samples: 4 });
    let ended = vec![Message::Finished, Message::TileFinished(lit(0, 0, 1, 1, 10, 4))];
    assert_eq!(
        collect_finished(&ended, 2, 1),
        vec![PixelSum { sum: Radiance { r: 10, g: 11, b: 0 }, samples: 4 }, blank()]
    );
    let progress_only = vec![Message::TileProgressed(lit(0, 0, 1, 1, 10, 4)), Message::Finished];
    assert_eq!(collect_finished(&progress_only, 2, 1), vec![blank(), blank()]);
}

// One pixel, two samples, progress after every sample: the caller hears of
// progress, of completion and of the end, and the image holds both samples.
#[test]
fn progress_in_front_of_completion_does_not_blank_the_image() {
    let s = Settings {
        worker_count: 1,
        camera_settings: CameraSettings { backbuffer_width: 1, backbuffer_height: 1 },
        sample_count: 2,
        samples_per_iteration: 1,
        tile_size: (1, 1),
        bounce_limit: 0,
    };
    let queue = render_tiled(&s).expect("valid settings");
    let mut messages = Vec::new();
    while let Some(mut tile) = queue.pop() {
        tile.data[0].r += 5;
        let report = finish_pass(tile, &s);
        messages.extend(report.message);
        if let Some(t) = report.requeue {
            assert!(queue.push(t).is_ok());
        }
    }
    messages.extend(raymond::trace::worker_exit(1));
    assert_eq!(messages.len(), 3);
    assert!(matches!(messages[0], Message::TileProgressed(_)));
    assert!(matches!(messages[1], Message::TileFinished(_)));
    assert_eq!(messages[2], Message::Finished);
    let image = collect_finished(&messages, 1, 1);
    assert_eq!(image, vec![PixelSum { sum: Radiance { r: 10, g: 0, b: 0 }, samples: 2 }]);
}

#[test]
fn collect_of_nothing_is_a_blank_image() {
    assert_eq!(collect_finished(&Vec::new(), 3, 2), vec![blank(); 6]);
    assert_eq!(collect_finished(&Vec::new(), 0, 5), Vec::<PixelSum>::new());
}

// A render of a 5 by 3 image in tiles of 2 by 2 with three samples a pixel:
// once every tile has been reported finished, every pixel of the assembled
// image has three samples.
#[test]
fn finished_render_fills_every_pixel() {
    let s = Settings {
        worker_count: 2,
        camera_settings: CameraSettings { backbuffer_width: 5, backbuffer_height: 3 },
        sample_count: 3,
        samples_per_iteration: 0,
        tile_size: (2, 2),
        bounce_limit: 1,
    };
    let queue = render_tiled(&s).expect("valid settings");
    let mut messages = Vec::new();
    while let Some(mut tile) = queue.pop() {
        for y in tile.top..tile.top + tile.height {
            for x in tile.left..tile.left + tile.width {
                let i = tile.pixel_index(x, y).expect("pixel of the tile");
                tile.data[i].r += (x + 10 * y) as u32;
            }
        }
        let report = finish_pass(tile, &s);
        messages.extend(report.message);
        if let Some(t) = report.requeue {
            assert!(queue.push(t).is_ok());
        }
    }
    assert_eq!(messages.len(), 6);
    let image = collect_finished(&messages, 5, 3);
    assert_eq!(image.len(), 15);
    for y in 0..3 {
        for x in 0..5 {
            let p = image[x + y * 5];
            assert_eq!(p.samples, 3);
            assert_eq!(p.sum.r, 3 * (x + 10 * y) as u32);
        }
    }
}

// An image of one pixel that receives one sample of the background.
#[test]
fn single_pixel_render() {
    let s = Settings {
        worker_count: 1,
        camera_settings: CameraSettings { backbuffer_width: 1, backbuffer_height: 1 },
        sample_count: 1,
        samples_per_iteration: 0,
        tile_size: (16, 16),
        bounce_limit: 0,
    };
    let queue = render_tiled(&s).expect("valid settings");
    let mut tile = queue.pop().expect("one tile");
    assert_eq!(tile.data.len(), 1);
    assert!(queue.pop().is_none());
    let sky = [1.0f32, 1.0, 1.0];
    let look = |_: &u8| raymond::path::Found::<u8, [f32; 3], u8>::Miss;
    let shade = |_: u8, incoming: [f32; 3]| incoming;
    let accumulate = |_x: usize, _y: usize, sum: Radiance| {
        let sample = raymond::path::trace(
            0u8,
            raymond::path::PRIMARY_DEPTH,
            s.bounce_limit,
            [0.0; 3],
            sky,
            &look,
            &shade,
        );
        Radiance {
            r: (f32::from_bits(sum.r) + sample[0]).to_bits(),
            g: (f32::from_bits(sum.g) + sample[1]).to_bits(),
            b: (f32::from_bits(sum.b) + sample[2]).to_bits(),
        }
    };
    tile = {
        let mut sampled = tile;
        sampled.add_samples(&accumulate);
        sampled
    };
    let report = finish_pass(tile, &s);
    assert!(report.requeue.is_none());
    let messages: Vec<Message> = report.message.into_iter().collect();
    let image = collect_finished(&messages, 1, 1);
    assert_eq!(image.len(), 1);
    assert_eq!(image[0].samples, 1);
    let mean = f32::from_bits(image[0].sum.r) / image[0].samples as f32;
    assert_eq!(mean, 1.0);
    assert_eq!(f32::from_bits(image[0].sum.g), 1.0);
    assert_eq!(f32::from_bits(image[0].sum.b), 1.0);
}
