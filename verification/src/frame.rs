use vstd::prelude::*;
use vstd::arithmetic::div_mod::lemma_fundamental_div_mod_converse;
use crate::settings::Settings;
use crate::tile::{lemma_slot_in_range, Radiance, Tile, TileView};
use crate::trace::{lemma_plan_partitions, owner, planned_tile, Message, MessageView};

verus! {

/// One pixel of the final image: the sum of the radiance samples it received
/// and their number.  The mean is the sum divided by the count; a pixel that
/// no finished tile covers has neither.
#[derive(Clone, Copy, Debug, PartialEq, Eq, Structural)]
pub struct PixelSum {
    pub sum: Radiance,
    pub samples: usize,
}

impl PixelSum {
    /// A pixel without samples.
    pub open spec fn blank() -> PixelSum {
        PixelSum { sum: Radiance::zero(), samples: 0 }
    }
}

/// The pixel a tile holds for column `x`, row `y` of the image.
pub open spec fn tile_pixel(t: TileView, x: int, y: int) -> PixelSum {
    PixelSum { sum: t.data[t.slot(x, y)], samples: t.sample_count }
}

/// A row-major image of the given width after a tile has been written over
/// it: the pixels the tile covers are the tile's, the others stay.
pub open spec fn stamp(image: Seq<PixelSum>, t: TileView, width: int) -> Seq<PixelSum> {
    Seq::new(
        image.len(),
        |i: int|
            if t.covers(i % width, i / width) {
                tile_pixel(t, i % width, i / width)
            } else {
                image[i]
            },
    )
}

/// The image that results from writing the tiles, in order, over a blank
/// image of `width` by `height` pixels.
pub open spec fn composite(tiles: Seq<TileView>, width: int, height: int) -> Seq<PixelSum>
    decreases tiles.len(),
{
    if tiles.len() == 0 {
        Seq::new((width * height) as nat, |i: int| PixelSum::blank())
    } else {
        stamp(composite(tiles.drop_last(), width, height), tiles.last(), width)
    }
}

/// The tiles that a message sequence reports as finished, in the order of
/// the messages.  Messages of any other kind are passed over.
pub open spec fn finished_tiles(messages: Seq<MessageView>) -> Seq<TileView>
    decreases messages.len(),
{
    if messages.len() == 0 {
        Seq::empty()
    } else if messages[0] is TileFinished {
        seq![messages[0]->TileFinished_0] + finished_tiles(messages.drop_first())
    } else {
        finished_tiles(messages.drop_first())
    }
}

/// The values of a sequence of messages.
pub open spec fn message_views(messages: Seq<Message>) -> Seq<MessageView> {
    messages.map_values(|m: Message| m@)
}

/// Lemma: a composite image has one entry per pixel.
pub proof fn lemma_composite_len(tiles: Seq<TileView>, width: int, height: int)
    requires
        0 <= width,
        0 <= height,
    ensures
        composite(tiles, width, height).len() == width * height,
    decreases tiles.len(),
{
    assert(0 <= width * height) by (nonlinear_arith)
        requires
            0 <= width,
            0 <= height,
    ;
    if tiles.len() > 0 {
        lemma_composite_len(tiles.drop_last(), width, height);
    }
}

/// Law: a pixel that no tile covers is blank in the composite image.
pub proof fn lemma_composite_blank(tiles: Seq<TileView>, width: int, height: int, x: int, y: int)
    requires
        0 <= x < width,
        0 <= y < height,
        forall|k: int| 0 <= k < tiles.len() ==> !(#[trigger] tiles[k]).covers(x, y),
    ensures
        composite(tiles, width, height)[x + y * width] == PixelSum::blank(),
    decreases tiles.len(),
{
    lemma_pixel_position(width, height, x, y);
    lemma_composite_len(tiles, width, height);
    if tiles.len() > 0 {
        let rest = tiles.drop_last();
        assert(!tiles[tiles.len() - 1].covers(x, y));
        assert forall|k: int| 0 <= k < rest.len() implies !(#[trigger] rest[k]).covers(x, y) by {
            assert(rest[k] == tiles[k]);
        }
        lemma_composite_blank(rest, width, height, x, y);
        lemma_composite_len(rest, width, height);
    }
}

/// Law: a pixel of the composite image is the pixel of the last tile that
/// covers it.
pub proof fn lemma_composite_pixel(
    tiles: Seq<TileView>,
    width: int,
    height: int,
    x: int,
    y: int,
    k: int,
)
    requires
        0 <= x < width,
        0 <= y < height,
        0 <= k < tiles.len(),
        tiles[k].covers(x, y),
        forall|j: int| k < j < tiles.len() ==> !(#[trigger] tiles[j]).covers(x, y),
    ensures
        composite(tiles, width, height)[x + y * width] == tile_pixel(tiles[k], x, y),
    decreases tiles.len(),
{
    lemma_pixel_position(width, height, x, y);
    lemma_composite_len(tiles, width, height);
    let rest = tiles.drop_last();
    lemma_composite_len(rest, width, height);
    if k < tiles.len() - 1 {
        assert(!tiles[tiles.len() - 1].covers(x, y));
        assert(rest[k] == tiles[k]);
        assert forall|j: int| k < j < rest.len() implies !(#[trigger] rest[j]).covers(x, y) by {
            assert(rest[j] == tiles[j]);
        }
        lemma_composite_pixel(rest, width, height, x, y, k);
    }
}

/// Lemma: the row-major position of a pixel determines its column and row.
pub proof fn lemma_pixel_position(width: int, height: int, x: int, y: int)
    requires
        0 <= x < width,
        0 <= y < height,
    ensures
        0 <= x + y * width < width * height,
        (x + y * width) % width == x,
        (x + y * width) / width == y,
{
    assert(0 <= y * width && y * width + width <= height * width) by (nonlinear_arith)
        requires
            0 <= y < height,
            0 < width,
    ;
    assert(height * width == width * height) by (nonlinear_arith);
    lemma_fundamental_div_mod_converse(x + y * width, width, y, x);
}

/// Law: when every finished tile has the number of samples the settings ask
/// for, a pixel that some finished tile covers is, in the assembled image, the
/// pixel of a finished tile that covers it, with exactly that number of
/// samples.  What else was reported in between does not matter.
pub proof fn lemma_finished_frame(s: Settings, tiles: Seq<TileView>, x: int, y: int)
    requires
        s.tile_size.0 > 0,
        s.tile_size.1 > 0,
        0 <= x < s.camera_settings.backbuffer_width,
        0 <= y < s.camera_settings.backbuffer_height,
        forall|k: int| 0 <= k < tiles.len() ==> (#[trigger] tiles[k]).sample_count == s.sample_count,
        exists|k: int| 0 <= k < tiles.len() && (#[trigger] tiles[k]).covers(x, y),
    ensures
        composite(
            tiles,
            s.camera_settings.backbuffer_width as int,
            s.camera_settings.backbuffer_height as int,
        )[x + y * s.camera_settings.backbuffer_width].samples == s.sample_count,
        exists|k: int|
            {
                &&& 0 <= k < tiles.len()
                &&& (#[trigger] tiles[k]).covers(x, y)
                &&& tiles[k].sample_count == s.sample_count
                &&& composite(
                    tiles,
                    s.camera_settings.backbuffer_width as int,
                    s.camera_settings.backbuffer_height as int,
                )[x + y * s.camera_settings.backbuffer_width] == tile_pixel(tiles[k], x, y)
            },
{
    let w = s.camera_settings.backbuffer_width as int;
    let h = s.camera_settings.backbuffer_height as int;
    let k = lemma_last_cover(tiles, x, y);
    lemma_composite_pixel(tiles, w, h, x, y, k);
    assert(tiles[k].covers(x, y));
}

/// Lemma: among the tiles that cover a pixel there is a last one.
proof fn lemma_last_cover(tiles: Seq<TileView>, x: int, y: int) -> (k: int)
    requires
        exists|k: int| 0 <= k < tiles.len() && (#[trigger] tiles[k]).covers(x, y),
    ensures
        0 <= k < tiles.len(),
        tiles[k].covers(x, y),
        forall|j: int| k < j < tiles.len() ==> !(#[trigger] tiles[j]).covers(x, y),
    decreases tiles.len(),
{
    let n = tiles.len() as int;
    if tiles[n - 1].covers(x, y) {
        n - 1
    } else {
        let rest = tiles.drop_last();
        let w = choose|k: int| 0 <= k < tiles.len() && (#[trigger] tiles[k]).covers(x, y);
        assert(rest[w] == tiles[w]);
        let k = lemma_last_cover(rest, x, y);
        assert(rest[k] == tiles[k]);
        assert forall|j: int| k < j < tiles.len() implies !(#[trigger] tiles[j]).covers(x, y) by {
            if j < n - 1 {
                assert(rest[j] == tiles[j]);
            }
        }
        k
    }
}

/// Law: the plan's own tiles, each brought to the wanted number of samples,
/// assemble into an image in which every pixel has that number of samples.
pub proof fn lemma_plan_fills_frame(s: Settings, tiles: Seq<TileView>, x: int, y: int)
    requires
        s.tile_size.0 > 0,
        s.tile_size.1 > 0,
        0 <= x < s.camera_settings.backbuffer_width,
        0 <= y < s.camera_settings.backbuffer_height,
        forall|k: int| 0 <= k < tiles.len() ==> (#[trigger] tiles[k]).sample_count == s.sample_count,
        exists|k: int|
            0 <= k < tiles.len() && #[trigger] same_rectangle(
                tiles[k],
                planned_tile(s, owner(s, x, y)),
            ),
    ensures
        composite(
            tiles,
            s.camera_settings.backbuffer_width as int,
            s.camera_settings.backbuffer_height as int,
        )[x + y * s.camera_settings.backbuffer_width].samples == s.sample_count,
{
    lemma_plan_partitions(s, x, y);
    let k = choose|k: int|
        0 <= k < tiles.len() && #[trigger] same_rectangle(
            tiles[k],
            planned_tile(s, owner(s, x, y)),
        );
    assert(tiles[k].covers(x, y));
    lemma_finished_frame(s, tiles, x, y);
}

/// Two tiles occupy the same rectangle of the image.
pub open spec fn same_rectangle(a: TileView, b: TileView) -> bool {
    a.left == b.left && a.top == b.top && a.width == b.width && a.height == b.height
}

/// Writes a tile's sums and its sample count over the pixels it covers in a
/// row-major image of `width` by `height` pixels.
pub fn blit(image: &mut Vec<PixelSum>, tile: &Tile, width: usize, height: usize)
    requires
        tile.wf(),
        tile@.fits(width as int, height as int),
        old(image).len() == width * height,
    ensures
        final(image)@ == stamp(old(image)@, tile@, width as int),
{
    let ghost before = image@;
    let ghost t = tile@;
    let mut y: usize = 0;
    while y < tile.height
        invariant
            tile.wf(),
            t == tile@,
            t.fits(width as int, height as int),
            before.len() == width * height,
            image.len() == before.len(),
            y <= tile.height,
            forall|i: int|
                0 <= i < image.len() ==> #[trigger] image@[i] == (if t.covers(
                    i % (width as int),
                    i / (width as int),
                ) && i / (width as int) < t.top + y {
                    tile_pixel(t, i % (width as int), i / (width as int))
                } else {
                    before[i]
                }),
        decreases tile.height - y,
    {
        let mut x: usize = 0;
        while x < tile.width
            invariant
                tile.wf(),
                t == tile@,
                t.fits(width as int, height as int),
                before.len() == width * height,
                image.len() == before.len(),
                y < tile.height,
                x <= tile.width,
                forall|i: int|
                    0 <= i < image.len() ==> #[trigger] image@[i] == (if t.covers(
                        i % (width as int),
                        i / (width as int),
                    ) && (i / (width as int) < t.top + y || (i / (width as int) == t.top + y && i
                        % (width as int) < t.left + x)) {
                        tile_pixel(t, i % (width as int), i / (width as int))
                    } else {
                        before[i]
                    }),
            decreases tile.width - x,
        {
            let px: usize = tile.left + x;
            let py: usize = tile.top + y;
            assert(tile.data.len() == tile.data@.len());
            proof {
                lemma_pixel_position(width as int, height as int, px as int, py as int);
                lemma_slot_in_range(t, px as int, py as int);
                assert(t.slot(px as int, py as int) == x + y * tile.width);
                assert(0 <= y * tile.width) by (nonlinear_arith)
                    requires
                        0 <= y,
                        0 <= tile.width,
                ;
            }
            let from: usize = x + y * tile.width;
            let to: usize = px + py * width;
            let pixel = PixelSum { sum: tile.data[from], samples: tile.sample_count };
            let ghost prior = image@;
            image.set(to, pixel);
            assert forall|i: int| 0 <= i < image.len() implies #[trigger] image@[i] == (if t.covers(
                i % (width as int),
                i / (width as int),
            ) && (i / (width as int) < t.top + y || (i / (width as int) == t.top + y && i % (
            width as int) < t.left + x + 1)) {
                tile_pixel(t, i % (width as int), i / (width as int))
            } else {
                before[i]
            }) by {
                vstd::arithmetic::div_mod::lemma_fundamental_div_mod(i, width as int);
                if i != to {
                    assert(image@[i] == prior[i]);
                    if i / (width as int) == py && i % (width as int) == px {
                        assert(i == (width as int) * py + px);
                        assert((width as int) * py == py * width) by (nonlinear_arith);
                    }
                }
            }
            x += 1;
        }
        y += 1;
    }
    assert(image@ =~= stamp(before, t, width as int));
}

/// Assembles the final image from the messages of a render.  The tiles that
/// were reported as finished are written over a blank image in the order in
/// which they were reported; messages of any other kind are passed over.
pub fn collect_finished(messages: &Vec<Message>, width: usize, height: usize) -> (image: Vec<
    PixelSum,
>)
    requires
        width * height <= usize::MAX,
        forall|k: int|
            0 <= k < finished_tiles(message_views(messages@)).len() ==> {
                &&& (#[trigger] finished_tiles(message_views(messages@))[k]).wf()
                &&& finished_tiles(message_views(messages@))[k].fits(width as int, height as int)
            },
    ensures
        image@ == composite(
            finished_tiles(message_views(messages@)),
            width as int,
            height as int,
        ),
{
    let n: usize = width * height;
    let mut image: Vec<PixelSum> = Vec::new();
    while image.len() < n
        invariant
            image.len() <= n,
            forall|i: int| 0 <= i < image.len() ==> image@[i] == PixelSum::blank(),
        decreases n - image.len(),
    {
        image.push(PixelSum { sum: Radiance::black(), samples: 0 });
    }
    let ghost all = message_views(messages@);
    let ghost done: Seq<TileView> = Seq::empty();
    assert(image@ =~= composite(done, width as int, height as int));
    assert(all.skip(0) =~= all);
    assert(done + finished_tiles(all) =~= finished_tiles(all));
    let mut i: usize = 0;
    while i < messages.len()
        invariant
            all == message_views(messages@),
            i <= messages.len(),
            image.len() == width * height,
            image@ == composite(done, width as int, height as int),
            finished_tiles(all) == done + finished_tiles(all.skip(i as int)),
            forall|k: int|
                0 <= k < finished_tiles(all).len() ==> {
                    &&& (#[trigger] finished_tiles(all)[k]).wf()
                    &&& finished_tiles(all)[k].fits(width as int, height as int)
                },
        decreases messages.len() - i,
    {
        let ghost tail = all.skip(i as int);
        assert(tail[0] == messages@[i as int]@);
        assert(tail.drop_first() =~= all.skip(i + 1));
        match &messages[i] {
            Message::TileFinished(tile) => {
                proof {
                    let found = finished_tiles(all);
                    assert(found =~= (done + seq![tile@]) + finished_tiles(all.skip(i + 1)));
                    assert(found[done.len() as int] == tile@);
                    assert((done + seq![tile@]).drop_last() =~= done);
                }
                blit(&mut image, tile, width, height);
                proof {
                    done = done + seq![tile@];
                }
            },
            _ => {},
        }
        i += 1;
    }
    assert(all.skip(i as int).len() == 0);
    assert(done + Seq::<TileView>::empty() =~= done);
    image
}

} // verus!
