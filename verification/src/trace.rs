use vstd::prelude::*;
use vstd::arithmetic::div_mod::{lemma_fundamental_div_mod, lemma_fundamental_div_mod_converse};
use crossbeam::queue::ArrayQueue;
use crate::error::RenderError;
use crate::settings::Settings;
use crate::tile::{pass_outcome, sampled, PassOutcome, Radiance, Tile, TileView};

verus! {

/// How many tiles of length `tile` it takes to cover a side of length
/// `extent`; a side of length zero still gets one (empty) tile.
pub open spec fn tiles_along(extent: int, tile: int) -> int {
    if extent == 0 {
        1
    } else {
        extent / tile + if extent % tile == 0 {
            0int
        } else {
            1int
        }
    }
}

/// Number of tiles the image is cut into.
pub open spec fn plan_len(s: Settings) -> int {
    tiles_along(s.camera_settings.backbuffer_width as int, s.tile_size.0 as int) * tiles_along(
        s.camera_settings.backbuffer_height as int,
        s.tile_size.1 as int,
    )
}

/// The `k`-th tile of the decomposition.  Tiles are numbered column by
/// column, top to bottom within a column; the last tile of a row or column is
/// cut to what is left of the image.  It starts without samples.
pub open spec fn planned_tile(s: Settings, k: int) -> TileView {
    let rows = tiles_along(s.camera_settings.backbuffer_height as int, s.tile_size.1 as int);
    let left = (k / rows) * s.tile_size.0;
    let top = (k % rows) * s.tile_size.1;
    let width = vstd::math::min(s.tile_size.0 as int, s.camera_settings.backbuffer_width - left);
    let height = vstd::math::min(s.tile_size.1 as int, s.camera_settings.backbuffer_height - top);
    TileView {
        sample_count: 0,
        width: width as usize,
        height: height as usize,
        left: left as usize,
        top: top as usize,
        data: Seq::new((width * height) as nat, |i: int| Radiance::zero()),
    }
}

/// The index of the planned tile that owns the pixel at column `x`, row `y`.
pub open spec fn owner(s: Settings, x: int, y: int) -> int {
    (x / (s.tile_size.0 as int)) * tiles_along(
        s.camera_settings.backbuffer_height as int,
        s.tile_size.1 as int,
    ) + y / (s.tile_size.1 as int)
}

/// The values of a sequence of tiles.
pub open spec fn views(tiles: Seq<Tile>) -> Seq<TileView> {
    tiles.map_values(|t: Tile| t@)
}

/// The whole decomposition of the image.
pub open spec fn plan(s: Settings) -> Seq<TileView> {
    Seq::new(plan_len(s) as nat, |k: int| planned_tile(s, k))
}

proof fn lemma_tiles_along(extent: int, tile: int, i: int)
    requires
        tile > 0,
        extent >= 0,
        0 <= i < tiles_along(extent, tile),
    ensures
        0 <= i * tile,
        extent > 0 ==> i * tile < extent,
        extent == 0 ==> i == 0,
        tiles_along(extent, tile) >= 1,
{
    lemma_fundamental_div_mod(extent, tile);
    let q = extent / tile;
    assert(0 <= i * tile) by (nonlinear_arith)
        requires
            0 <= i,
            tile > 0,
    ;
    if extent > 0 {
        assert(q >= 0) by (nonlinear_arith)
            requires
                extent == tile * q + extent % tile,
                0 <= extent % tile < tile,
                extent > 0,
                tile > 0,
        ;
        if extent % tile == 0 {
            assert(i * tile < extent) by (nonlinear_arith)
                requires
                    i <= q - 1,
                    extent == tile * q,
                    tile > 0,
            ;
        } else {
            assert(i * tile < extent) by (nonlinear_arith)
                requires
                    i <= q,
                    extent == tile * q + extent % tile,
                    extent % tile > 0,
                    tile > 0,
            ;
        }
    }
}

proof fn lemma_tiles_along_positive(extent: int, tile: int)
    requires
        tile > 0,
        extent >= 0,
    ensures
        tiles_along(extent, tile) >= 1,
{
    lemma_fundamental_div_mod(extent, tile);
    let q = extent / tile;
    if extent > 0 {
        assert(q >= 0 && (q >= 1 || extent % tile > 0)) by (nonlinear_arith)
            requires
                extent == tile * q + extent % tile,
                0 <= extent % tile < tile,
                extent > 0,
                tile > 0,
        ;
    }
}

proof fn lemma_pixel_tile(extent: int, tile: int, p: int)
    requires
        tile > 0,
        0 <= p < extent,
    ensures
        0 <= p / tile < tiles_along(extent, tile),
        (p / tile) * tile <= p < (p / tile) * tile + tile,
{
    lemma_fundamental_div_mod(extent, tile);
    lemma_fundamental_div_mod(p, tile);
    let q = extent / tile;
    let c = p / tile;
    assert(c >= 0 && (c <= q - 1 || (c == q && extent % tile > 0))) by (nonlinear_arith)
        requires
            p == tile * c + p % tile,
            0 <= p % tile < tile,
            extent == tile * q + extent % tile,
            0 <= extent % tile < tile,
            0 <= p < extent,
            tile > 0,
    ;
    assert(c * tile == tile * c) by (nonlinear_arith);
}

/// Law: the planned tiles partition the image.  Every pixel lies in the tile
/// that `owner` names and in no other tile of the plan.
pub proof fn lemma_plan_partitions(s: Settings, x: int, y: int)
    requires
        s.tile_size.0 > 0,
        s.tile_size.1 > 0,
        0 <= x < s.camera_settings.backbuffer_width,
        0 <= y < s.camera_settings.backbuffer_height,
    ensures
        0 <= owner(s, x, y) < plan_len(s),
        planned_tile(s, owner(s, x, y)).covers(x, y),
        planned_tile(s, owner(s, x, y)).wf(),
        forall|k: int|
            0 <= k < plan_len(s) && (#[trigger] planned_tile(s, k)).covers(x, y) ==> k == owner(
                s,
                x,
                y,
            ),
{
    let w = s.camera_settings.backbuffer_width as int;
    let h = s.camera_settings.backbuffer_height as int;
    let tw = s.tile_size.0 as int;
    let th = s.tile_size.1 as int;
    let cols = tiles_along(w, tw);
    let rows = tiles_along(h, th);
    let c = x / tw;
    let r = y / th;
    lemma_pixel_tile(w, tw, x);
    lemma_pixel_tile(h, th, y);
    lemma_plan_index(s, c, r);
    assert forall|k: int| 0 <= k < plan_len(s) && (#[trigger] planned_tile(s, k)).covers(x, y)
        implies k == owner(s, x, y) by {
        lemma_fundamental_div_mod(k, rows);
        let kc = k / rows;
        let kr = k % rows;
        assert(0 <= kc < cols) by (nonlinear_arith)
            requires
                k == rows * kc + kr,
                0 <= kr < rows,
                0 <= k < cols * rows,
        ;
        lemma_plan_index(s, kc, kr);
        assert(kc * rows + kr == k) by (nonlinear_arith)
            requires
                k == rows * kc + kr,
        ;
        // the tile's origin brackets the pixel on both axes
        assert(kc == c) by (nonlinear_arith)
            requires
                kc * tw <= x < kc * tw + tw,
                c * tw <= x < c * tw + tw,
                tw > 0,
        ;
        assert(kr == r) by (nonlinear_arith)
            requires
                kr * th <= y < kr * th + th,
                r * th <= y < r * th + th,
                th > 0,
        ;
    }
}

/// Law: every tile of the plan lies inside the image, has one buffer entry
/// per pixel and no samples yet.
pub proof fn lemma_planned_tile_fits(s: Settings, k: int)
    requires
        s.tile_size.0 > 0,
        s.tile_size.1 > 0,
        0 <= k < plan_len(s),
    ensures
        planned_tile(s, k).wf(),
        planned_tile(s, k).fits(
            s.camera_settings.backbuffer_width as int,
            s.camera_settings.backbuffer_height as int,
        ),
        planned_tile(s, k).sample_count == 0,
{
    let cols = tiles_along(s.camera_settings.backbuffer_width as int, s.tile_size.0 as int);
    let rows = tiles_along(s.camera_settings.backbuffer_height as int, s.tile_size.1 as int);
    lemma_tiles_along_positive(s.camera_settings.backbuffer_width as int, s.tile_size.0 as int);
    lemma_tiles_along_positive(s.camera_settings.backbuffer_height as int, s.tile_size.1 as int);
    lemma_fundamental_div_mod(k, rows);
    let c = k / rows;
    let r = k % rows;
    assert(0 <= c < cols) by (nonlinear_arith)
        requires
            k == rows * c + r,
            0 <= r < rows,
            0 <= k < cols * rows,
    ;
    assert(c * rows + r == k) by (nonlinear_arith)
        requires
            k == rows * c + r,
    ;
    lemma_plan_index(s, c, r);
}

/// The tile in column `c` and row `r` of the plan: its index, rectangle and
/// bounds.
proof fn lemma_plan_index(s: Settings, c: int, r: int)
    requires
        s.tile_size.0 > 0,
        s.tile_size.1 > 0,
        0 <= c < tiles_along(s.camera_settings.backbuffer_width as int, s.tile_size.0 as int),
        0 <= r < tiles_along(s.camera_settings.backbuffer_height as int, s.tile_size.1 as int),
    ensures
        ({
            let rows = tiles_along(
                s.camera_settings.backbuffer_height as int,
                s.tile_size.1 as int,
            );
            let k = c * rows + r;
            let t = planned_tile(s, k);
            &&& 0 <= k < plan_len(s)
            &&& k / rows == c
            &&& k % rows == r
            &&& t.left == c * s.tile_size.0
            &&& t.top == r * s.tile_size.1
            &&& t.width == vstd::math::min(
                s.tile_size.0 as int,
                s.camera_settings.backbuffer_width - c * s.tile_size.0,
            )
            &&& t.height == vstd::math::min(
                s.tile_size.1 as int,
                s.camera_settings.backbuffer_height - r * s.tile_size.1,
            )
            &&& t.left + t.width <= s.camera_settings.backbuffer_width
            &&& t.top + t.height <= s.camera_settings.backbuffer_height
            &&& t.width * t.height <= s.pixel_count()
            &&& t.wf()
        }),
{
    let w = s.camera_settings.backbuffer_width as int;
    let h = s.camera_settings.backbuffer_height as int;
    let tw = s.tile_size.0 as int;
    let th = s.tile_size.1 as int;
    let cols = tiles_along(w, tw);
    let rows = tiles_along(h, th);
    let k = c * rows + r;
    lemma_tiles_along(w, tw, c);
    lemma_tiles_along(h, th, r);
    lemma_fundamental_div_mod_converse(k, rows, c, r);
    assert(0 <= k < cols * rows) by (nonlinear_arith)
        requires
            k == c * rows + r,
            0 <= c < cols,
            0 <= r < rows,
    ;
    let t = planned_tile(s, k);
    let width = vstd::math::min(tw, w - c * tw);
    let height = vstd::math::min(th, h - r * th);
    assert(0 <= width <= w && 0 <= height <= h);
    assert(0 <= width * height <= w * h) by (nonlinear_arith)
        requires
            0 <= width <= w,
            0 <= height <= h,
    ;
}

fn count_along(extent: usize, tile: usize) -> (n: usize)
    requires
        tile > 0,
    ensures
        n == tiles_along(extent as int, tile as int),
{
    if extent == 0 {
        1
    } else {
        let q: usize = extent / tile;
        if extent % tile == 0 {
            q
        } else {
            proof {
                lemma_fundamental_div_mod(extent as int, tile as int);
                assert(q < extent) by (nonlinear_arith)
                    requires
                        extent == tile * q + extent % tile,
                        extent % tile > 0,
                        tile > 0,
                        q >= 0,
                ;
            }
            q + 1
        }
    }
}

/// Cuts the image into tiles of the configured size, column by column, each
/// tile empty.
pub fn plan_tiles(settings: &Settings) -> (tiles: Vec<Tile>)
    requires
        settings.tile_size.0 > 0,
        settings.tile_size.1 > 0,
        settings.pixel_count() <= usize::MAX,
    ensures
        views(tiles@) == plan(*settings),
        forall|k: int|
            0 <= k < tiles.len() ==> (#[trigger] tiles[k]).wf() && tiles[k].sample_count == 0
                && tiles[k]@.fits(
                settings.camera_settings.backbuffer_width as int,
                settings.camera_settings.backbuffer_height as int,
            ),
{
    let width: usize = settings.camera_settings.backbuffer_width;
    let height: usize = settings.camera_settings.backbuffer_height;
    let tile_w: usize = settings.tile_size.0;
    let tile_h: usize = settings.tile_size.1;
    let cols: usize = count_along(width, tile_w);
    let rows: usize = count_along(height, tile_h);
    let mut tiles: Vec<Tile> = Vec::new();
    let mut col: usize = 0;
    while col < cols
        invariant
            settings.tile_size.0 > 0,
            settings.tile_size.1 > 0,
            settings.pixel_count() <= usize::MAX,
            width == settings.camera_settings.backbuffer_width,
            height == settings.camera_settings.backbuffer_height,
            tile_w == settings.tile_size.0,
            tile_h == settings.tile_size.1,
            cols == tiles_along(width as int, tile_w as int),
            rows == tiles_along(height as int, tile_h as int),
            col <= cols,
            tiles.len() == col * rows,
            forall|j: int|
                0 <= j < tiles.len() ==> (#[trigger] tiles[j])@ == planned_tile(*settings, j)
                    && tiles[j].wf(),
        decreases cols - col,
    {
        let mut row: usize = 0;
        while row < rows
            invariant
                settings.tile_size.0 > 0,
                settings.tile_size.1 > 0,
                settings.pixel_count() <= usize::MAX,
                width == settings.camera_settings.backbuffer_width,
                height == settings.camera_settings.backbuffer_height,
                tile_w == settings.tile_size.0,
                tile_h == settings.tile_size.1,
                cols == tiles_along(width as int, tile_w as int),
                rows == tiles_along(height as int, tile_h as int),
                col < cols,
                row <= rows,
                tiles.len() == col * rows + row,
                forall|j: int|
                    0 <= j < tiles.len() ==> (#[trigger] tiles[j])@ == planned_tile(*settings, j)
                        && tiles[j].wf(),
            decreases rows - row,
        {
            proof {
                lemma_plan_index(*settings, col as int, row as int);
            }
            let ghost k = col * rows + row;
            let left: usize = col * tile_w;
            let top: usize = row * tile_h;
            let rest_w: usize = width - left;
            let rest_h: usize = height - top;
            let w: usize = if tile_w < rest_w {
                tile_w
            } else {
                rest_w
            };
            let h: usize = if tile_h < rest_h {
                tile_h
            } else {
                rest_h
            };
            let tile = Tile::new(left, top, w, h);
            assert(tile@.data =~= planned_tile(*settings, k).data);
            assert(tile@ == planned_tile(*settings, k));
            tiles.push(tile);
            row += 1;
        }
        assert(col * rows + rows == (col + 1) * rows) by (nonlinear_arith);
        col += 1;
    }
    assert(views(tiles@) =~= plan(*settings));
    assert forall|k: int|
        0 <= k < tiles.len() implies (#[trigger] tiles[k]).wf() && tiles[k].sample_count == 0
        && tiles[k]@.fits(
        settings.camera_settings.backbuffer_width as int,
        settings.camera_settings.backbuffer_height as int,
    ) by {
        assert(tiles[k]@ == planned_tile(*settings, k));
        lemma_planned_tile_fits(*settings, k);
    }
    tiles
}

/// What the renderer tells its caller.
#[derive(Clone, Debug, PartialEq, Eq)]
pub enum Message {
    /// Every worker has stopped.
    Finished,
    /// A tile has received all its samples.
    TileFinished(Tile),
    /// A tile has received another round of samples and will receive more.
    TileProgressed(Tile),
}

/// The mathematical value of a [`Message`].
pub enum MessageView {
    Finished,
    TileFinished(TileView),
    TileProgressed(TileView),
}

impl View for Message {
    type V = MessageView;

    open spec fn view(&self) -> MessageView {
        match *self {
            Message::Finished => MessageView::Finished,
            Message::TileFinished(t) => MessageView::TileFinished(t@),
            Message::TileProgressed(t) => MessageView::TileProgressed(t@),
        }
    }
}

/// What a worker does once it has added a sample to every pixel of a tile.
pub struct PassReport {
    /// The message to send to the caller, if one is due.
    pub message: Option<Message>,
    /// The tile to put back on the queue, unless it is finished.
    pub requeue: Option<Tile>,
}

/// The mathematical value of a [`PassReport`].
pub struct PassReportView {
    pub message: Option<MessageView>,
    pub requeue: Option<TileView>,
}

impl View for PassReport {
    type V = PassReportView;

    open spec fn view(&self) -> PassReportView {
        PassReportView {
            message: match self.message {
                Some(m) => Some(m@),
                None => None,
            },
            requeue: match self.requeue {
                Some(t) => Some(t@),
                None => None,
            },
        }
    }
}

/// The report for a tile that has just reached the sample count it shows.
/// A tile at the target is reported as finished and leaves the queue; any
/// other tile is queued again and reported as progressed when its count is a
/// multiple of the reporting interval.
pub open spec fn report_for(t: TileView, s: Settings) -> PassReportView {
    match pass_outcome(
        t.sample_count as int,
        s.sample_count as int,
        s.samples_per_iteration as int,
    ) {
        PassOutcome::Finished => PassReportView {
            message: Some(MessageView::TileFinished(t)),
            requeue: None,
        },
        PassOutcome::Requeue { progress } => PassReportView {
            message: if progress {
                Some(MessageView::TileProgressed(t))
            } else {
                None
            },
            requeue: Some(t),
        },
    }
}

/// Law: every tile that is reported has at least one sample, so that its
/// mean radiance is defined; a finished tile has exactly the number of samples
/// the settings ask for, and a tile reported as progressed has fewer.
pub proof fn lemma_reported_tiles(t: TileView, s: Settings)
    requires
        t.sample_count < usize::MAX,
        t.sample_count < s.sample_count,
    ensures
        match report_for(t.counted(), s).message {
            Some(MessageView::TileFinished(u)) => u.sample_count == s.sample_count
                && report_for(t.counted(), s).requeue is None,
            Some(MessageView::TileProgressed(u)) => 1 <= u.sample_count < s.sample_count
                && s.samples_per_iteration > 0 && u.sample_count % s.samples_per_iteration == 0
                && report_for(t.counted(), s).requeue == Some(u),
            Some(MessageView::Finished) => false,
            None => report_for(t.counted(), s).requeue == Some(t.counted()),
        },
{
}

/// Closes a sample pass over `tile`: counts the pass and says which message
/// to send and whether the tile returns to the queue.
pub fn finish_pass(tile: Tile, settings: &Settings) -> (report: PassReport)
    requires
        tile.sample_count < usize::MAX,
    ensures
        report@ == report_for(tile@.counted(), *settings),
{
    let mut tile = tile;
    match tile.complete_pass(settings) {
        PassOutcome::Finished => PassReport {
            message: Some(Message::TileFinished(tile)),
            requeue: None,
        },
        PassOutcome::Requeue { progress } => {
            if progress {
                let copy = tile.snapshot();
                PassReport { message: Some(Message::TileProgressed(copy)), requeue: Some(tile) }
            } else {
                PassReport { message: None, requeue: Some(tile) }
            }
        },
    }
}

/// One turn of a worker with a tile it took from the queue: adds a sample to
/// every pixel, counts the pass and says which message to send and whether the
/// tile returns to the queue.
pub fn render_pass<F: Fn(usize, usize, Radiance) -> Radiance>(
    tile: Tile,
    settings: &Settings,
    accumulate: &F,
) -> (report: PassReport)
    requires
        tile.wf(),
        tile.left + tile.width <= usize::MAX,
        tile.top + tile.height <= usize::MAX,
        tile.sample_count < usize::MAX,
        forall|x: usize, y: usize, sum: Radiance| call_requires(*accumulate, (x, y, sum)),
    ensures
        exists|after: TileView|
            #[trigger] sampled(tile@, *accumulate, after) && report@ == report_for(
                after.counted(),
                *settings,
            ),
{
    let mut tile = tile;
    let ghost before = tile@;
    tile.add_samples(accumulate);
    assert(sampled(before, *accumulate, tile@));
    finish_pass(tile, settings)
}

/// Whether the worker that stops when `alive_before` workers are still
/// running announces the end of the render: only the last one does.
pub open spec fn announces_end(alive_before: usize) -> bool {
    alive_before == 1
}

/// How many end messages are sent when `workers` workers stop one after
/// another, each of them counting itself out.
pub open spec fn end_messages(workers: nat) -> nat
    decreases workers,
{
    if workers == 0 {
        0
    } else {
        end_messages((workers - 1) as nat) + if announces_end(workers as usize) {
            1nat
        } else {
            0nat
        }
    }
}

/// Law: however many workers there are, exactly one end message is sent, and
/// it is sent by the worker that stops last.
pub proof fn lemma_one_end_message(workers: nat)
    requires
        1 <= workers <= usize::MAX,
    ensures
        end_messages(workers) == 1,
        forall|alive_before: usize| announces_end(alive_before) <==> alive_before == 1,
    decreases workers,
{
    if workers > 1 {
        lemma_one_end_message((workers - 1) as nat);
    } else {
        assert(end_messages(0) == 0);
    }
}

/// A worker that finds the queue empty stops.  `alive_before` is the number
/// of workers that were still running just before it stopped; the last one to
/// stop announces the end of the render.
pub fn worker_exit(alive_before: usize) -> (message: Option<Message>)
    ensures
        announces_end(alive_before) ==> message == Some(Message::Finished),
        !announces_end(alive_before) ==> message is None,
{
    if alive_before == 1 {
        Some(Message::Finished)
    } else {
        None
    }
}

/// The most tiles a render may be cut into.
pub const QUEUE_LIMIT: usize = 0x100_0000;

/// Makes `crossbeam::queue::ArrayQueue` known as a type whose inside is not
/// looked into: a bounded first-in, first-out queue.
#[verifier::external_type_specification]
#[verifier::external_body]
#[verifier::reject_recursive_types(T)]
pub struct ExArrayQueue<T>(ArrayQueue<T>);

/// The tiles that wait in a queue, the oldest first.
pub uninterp spec fn queued(q: ArrayQueue<Tile>) -> Seq<Tile>;

/// The number of tiles that a queue was made to hold.
pub uninterp spec fn queue_capacity(q: ArrayQueue<Tile>) -> nat;

/// Calls `ArrayQueue::new`, which allocates `capacity` slots and sets head
/// and tail to the same stamp: the new queue is empty and keeps the capacity
/// it was given.  It panics on a capacity of zero and on one whose slots
/// cannot be addressed; up to [`QUEUE_LIMIT`] slots always can.
#[verifier::external_body]
fn queue_new(capacity: usize) -> (q: ArrayQueue<Tile>)
    requires
        0 < capacity <= QUEUE_LIMIT,
    ensures
        queued(q) == Seq::<Tile>::empty(),
        queue_capacity(q) == capacity,
{
    ArrayQueue::new(capacity)
}

/// Calls `ArrayQueue::push_mut`, the form of `push` for a queue that is not
/// shared.  A full queue hands the tile back and stays as it was; otherwise
/// the tile is written behind the youngest one.  The capacity never changes.
#[verifier::external_body]
fn queue_push(q: &mut ArrayQueue<Tile>, tile: Tile) -> (r: Result<(), Tile>)
    ensures
        match r {
            Ok(_) => {
                &&& queued(*old(q)).len() < queue_capacity(*old(q))
                &&& queued(*final(q)) == queued(*old(q)).push(tile)
                &&& queue_capacity(*final(q)) == queue_capacity(*old(q))
            },
            Err(back) => {
                &&& back == tile
                &&& queued(*old(q)).len() >= queue_capacity(*old(q))
                &&& queued(*final(q)) == queued(*old(q))
                &&& queue_capacity(*final(q)) == queue_capacity(*old(q))
            },
        },
{
    q.push_mut(tile)
}

/// Number of tiles the image is cut into, or `None` when the number does not
/// fit the machine's word.
pub fn plan_size(settings: &Settings) -> (n: Option<usize>)
    requires
        settings.tile_size.0 > 0,
        settings.tile_size.1 > 0,
    ensures
        n == (if plan_len(*settings) <= usize::MAX {
            Some(plan_len(*settings) as usize)
        } else {
            None
        }),
{
    let cols = count_along(settings.camera_settings.backbuffer_width, settings.tile_size.0);
    let rows = count_along(settings.camera_settings.backbuffer_height, settings.tile_size.1);
    cols.checked_mul(rows)
}

/// Prepares a render: checks the settings, cuts the image into empty tiles
/// and puts them on a fresh work queue in plan order.  The queue is made to
/// hold exactly these tiles.
pub fn render_tiled(settings: &Settings) -> (r: Result<ArrayQueue<Tile>, RenderError>)
    requires
        settings.valid() ==> settings.pixel_count() <= usize::MAX && plan_len(*settings)
            <= QUEUE_LIMIT,
    ensures
        !settings.valid() ==> r == Err::<ArrayQueue<Tile>, RenderError>(
            RenderError::InvalidSettings,
        ),
        settings.valid() ==> r is Ok && views(queued(r->Ok_0)) == plan(*settings)
            && queue_capacity(r->Ok_0) == plan_len(*settings),
{
    match settings.validate() {
        Err(e) => { return Err(e); },
        Ok(_) => {},
    }
    let tiles = plan_tiles(settings);
    let ghost all = tiles@;
    assert(views(all).len() == all.len());
    proof {
        lemma_tiles_along_positive(
            settings.camera_settings.backbuffer_width as int,
            settings.tile_size.0 as int,
        );
        lemma_tiles_along_positive(
            settings.camera_settings.backbuffer_height as int,
            settings.tile_size.1 as int,
        );
        lemma_plan_index(*settings, 0, 0);
    }
    let mut queue = queue_new(tiles.len());
    for tile in iter: tiles
        invariant
            iter.seq() == all,
            queue_capacity(queue) == all.len(),
            queued(queue) == all.take(iter.index() as int),
    {
        let pushed = queue_push(&mut queue, tile);
        assert(all.take(iter.index() as int).push(tile) =~= all.take(iter.index() + 1));
    }
    assert(all.take(all.len() as int) =~= all);
    Ok(queue)
}

} // verus!
