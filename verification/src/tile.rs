use vstd::prelude::*;
use crate::settings::Settings;

verus! {

/// One RGB radiance value, held as the bit patterns of three IEEE-754 single
/// precision numbers.  This crate stores and moves such values but never
/// computes with them.
#[derive(Clone, Copy, Debug, PartialEq, Eq, Structural)]
pub struct Radiance {
    pub r: u32,
    pub g: u32,
    pub b: u32,
}

impl Radiance {
    /// The value whose three channels are positive zero.
    pub open spec fn zero() -> Radiance {
        Radiance { r: 0, g: 0, b: 0 }
    }

    /// Returns [`Radiance::zero`].
    pub fn black() -> (c: Radiance)
        ensures
            c == Radiance::zero(),
    {
        Radiance { r: 0, g: 0, b: 0 }
    }
}

/// A rectangle of the image with its accumulated radiance.  `data[i]` is the
/// sum of `sample_count` samples of the pixel at column `left + i % width` and
/// row `top + i / width`.
#[derive(Clone, Debug, PartialEq, Eq)]
pub struct Tile {
    pub sample_count: usize,
    pub width: usize,
    pub height: usize,
    pub left: usize,
    pub top: usize,
    pub data: Vec<Radiance>,
}

/// The mathematical value of a [`Tile`].
pub struct TileView {
    pub sample_count: usize,
    pub width: usize,
    pub height: usize,
    pub left: usize,
    pub top: usize,
    pub data: Seq<Radiance>,
}

impl TileView {
    /// The pixel buffer holds one entry per pixel of the rectangle.
    pub open spec fn wf(self) -> bool {
        self.data.len() == self.width * self.height
    }

    /// The pixel at column `x` and row `y` of the image lies in this tile.
    pub open spec fn covers(self, x: int, y: int) -> bool {
        &&& self.left <= x < self.left + self.width
        &&& self.top <= y < self.top + self.height
    }

    /// Where the tile keeps the image pixel at column `x` and row `y`.
    pub open spec fn slot(self, x: int, y: int) -> int {
        (x - self.left) + (y - self.top) * self.width
    }

    /// The tile lies inside an image of the given size.
    pub open spec fn fits(self, width: int, height: int) -> bool {
        &&& self.left + self.width <= width
        &&& self.top + self.height <= height
    }

    /// The same tile after one more sample pass, its sums unchanged.
    pub open spec fn counted(self) -> TileView {
        TileView { sample_count: (self.sample_count + 1) as usize, ..self }
    }
}

impl View for Tile {
    type V = TileView;

    open spec fn view(&self) -> TileView {
        TileView {
            sample_count: self.sample_count,
            width: self.width,
            height: self.height,
            left: self.left,
            top: self.top,
            data: self.data@,
        }
    }
}

/// What a worker does with a tile after a sample pass.
#[derive(Clone, Copy, Debug, PartialEq, Eq, Structural)]
pub enum PassOutcome {
    /// The tile has all its samples: report it as finished and drop it.
    Finished,
    /// The tile goes back to the queue; `progress` tells whether a progress
    /// message is due.
    Requeue { progress: bool },
}

/// The outcome of the pass that brought a tile to `count` samples, when
/// `target` samples are wanted and progress is reported every `interval`
/// samples (never, if `interval` is zero).  Completion takes precedence over
/// progress.
pub open spec fn pass_outcome(count: int, target: int, interval: int) -> PassOutcome {
    if count == target {
        PassOutcome::Finished
    } else {
        PassOutcome::Requeue { progress: interval != 0 && count % interval == 0 }
    }
}

/// `after` is the tile `before` with one more sample in every pixel: the
/// same rectangle and sample count, and in each pixel a sum that `accumulate`
/// answered when asked with the pixel's column and row in the image and the
/// sum the pixel had.
pub open spec fn sampled<F: Fn(usize, usize, Radiance) -> Radiance>(
    before: TileView,
    accumulate: F,
    after: TileView,
) -> bool {
    &&& after.wf()
    &&& after.sample_count == before.sample_count
    &&& after.width == before.width
    &&& after.height == before.height
    &&& after.left == before.left
    &&& after.top == before.top
    &&& forall|x: usize, y: usize|
        before.covers(x as int, y as int) ==> call_ensures(
            accumulate,
            (x, y, before.data[before.slot(x as int, y as int)]),
            #[trigger] after.data[before.slot(x as int, y as int)],
        )
}

/// Lemma: under the slot formula every covered pixel has a slot of its own
/// inside the buffer.
pub proof fn lemma_slot_in_range(t: TileView, x: int, y: int)
    requires
        t.wf(),
        t.covers(x, y),
    ensures
        0 <= t.slot(x, y) < t.data.len(),
        t.slot(x, y) % (t.width as int) == x - t.left,
        t.slot(x, y) / (t.width as int) == y - t.top,
        (y - t.top) * t.width + t.width <= t.data.len(),
{
    let w = t.width as int;
    let dx = x - t.left;
    let dy = y - t.top;
    assert(dy * w + w <= t.height * w) by (nonlinear_arith)
        requires
            0 <= dy < t.height,
            0 <= w,
    ;
    assert(0 <= dy * w) by (nonlinear_arith)
        requires
            0 <= dy,
            0 <= w,
    ;
    assert(t.height * w == w * t.height) by (nonlinear_arith);
    vstd::arithmetic::div_mod::lemma_fundamental_div_mod_converse(t.slot(x, y), w, dy, dx);
}

impl Tile {
    /// The buffer holds one entry per pixel.
    pub open spec fn wf(&self) -> bool {
        self@.wf()
    }

    /// An empty tile: no samples yet and every sum zero.
    pub fn new(left: usize, top: usize, width: usize, height: usize) -> (t: Tile)
        requires
            width * height <= usize::MAX,
        ensures
            t@ == (TileView {
                sample_count: 0,
                width,
                height,
                left,
                top,
                data: Seq::new((width * height) as nat, |i: int| Radiance::zero()),
            }),
            t.wf(),
    {
        let n: usize = width * height;
        let mut data: Vec<Radiance> = Vec::new();
        while data.len() < n
            invariant
                data.len() <= n,
                forall|i: int| 0 <= i < data.len() ==> data@[i] == Radiance::zero(),
            decreases n - data.len(),
        {
            data.push(Radiance::black());
        }
        assert(data@ =~= Seq::new((width * height) as nat, |i: int| Radiance::zero()));
        Tile { sample_count: 0, width, height, left, top, data }
    }

    /// A copy of the tile.
    pub fn snapshot(&self) -> (t: Tile)
        ensures
            t@ == self@,
    {
        let mut data: Vec<Radiance> = Vec::new();
        let mut i: usize = 0;
        while i < self.data.len()
            invariant
                i <= self.data.len(),
                data@ == self.data@.take(i as int),
            decreases self.data.len() - i,
        {
            data.push(self.data[i]);
            assert(data@ =~= self.data@.take(i + 1));
            i += 1;
        }
        assert(data@ =~= self.data@);
        Tile {
            sample_count: self.sample_count,
            width: self.width,
            height: self.height,
            left: self.left,
            top: self.top,
            data,
        }
    }

    /// Tells whether the tile lies inside an image of the given size.
    pub fn fits(&self, width: usize, height: usize) -> (b: bool)
        ensures
            b == self@.fits(width as int, height as int),
    {
        self.left <= width && self.width <= width - self.left && self.top <= height
            && self.height <= height - self.top
    }

    /// Tells whether the buffer holds one entry per pixel.
    pub fn is_well_formed(&self) -> (b: bool)
        ensures
            b == self.wf(),
    {
        let len = self.data.len();
        match self.width.checked_mul(self.height) {
            Some(n) => len == n,
            None => false,
        }
    }

    /// The buffer position of the image pixel at column `x` and row `y`, if
    /// the tile covers that pixel.
    pub fn pixel_index(&self, x: usize, y: usize) -> (r: Option<usize>)
        requires
            self.wf(),
        ensures
            r is Some <==> self@.covers(x as int, y as int),
            r matches Some(i) ==> i == self@.slot(x as int, y as int) && i < self.data.len(),
    {
        assert(self.data.len() == self.data@.len());
        if x >= self.left && x - self.left < self.width && y >= self.top && y - self.top
            < self.height {
            proof {
                lemma_slot_in_range(self@, x as int, y as int);
            }
            Some((x - self.left) + (y - self.top) * self.width)
        } else {
            None
        }
    }

    /// Records that one more sample of every pixel has been added to the tile
    /// and decides what becomes of it: it is finished when the count reaches
    /// `settings.sample_count`; otherwise it is queued again, with a progress
    /// message whenever the count is a multiple of
    /// `settings.samples_per_iteration`.
    pub fn complete_pass(&mut self, settings: &Settings) -> (outcome: PassOutcome)
        requires
            old(self).sample_count < usize::MAX,
        ensures
            final(self)@ == old(self)@.counted(),
            outcome == pass_outcome(
                final(self)@.sample_count as int,
                settings.sample_count as int,
                settings.samples_per_iteration as int,
            ),
    {
        self.sample_count = self.sample_count + 1;
        if self.sample_count == settings.sample_count {
            PassOutcome::Finished
        } else {
            PassOutcome::Requeue {
                progress: settings.samples_per_iteration != 0 && self.sample_count
                    % settings.samples_per_iteration == 0,
            }
        }
    }

    /// Adds one sample to every pixel of the tile.  `accumulate` is asked, row by
    /// row and from left to right within a row, with the column and row of a
    /// pixel in the image and the sum the pixel has so far, and answers with
    /// the new sum.  The sample count is left as it is.
    pub fn add_samples<F: Fn(usize, usize, Radiance) -> Radiance>(&mut self, accumulate: &F)
        requires
            old(self).wf(),
            old(self).left + old(self).width <= usize::MAX,
            old(self).top + old(self).height <= usize::MAX,
            forall|x: usize, y: usize, sum: Radiance| call_requires(*accumulate, (x, y, sum)),
        ensures
            sampled(old(self)@, *accumulate, final(self)@),
    {
        let ghost before = self@;
        let mut row: usize = 0;
        while row < self.height
            invariant
                before.wf(),
                self.wf(),
                self.sample_count == before.sample_count,
                self.width == before.width,
                self.height == before.height,
                self.left == before.left,
                self.top == before.top,
                self.left + self.width <= usize::MAX,
                self.top + self.height <= usize::MAX,
                row <= self.height,
                forall|x: usize, y: usize, sum: Radiance| call_requires(*accumulate, (x, y, sum)),
                forall|i: int|
                    row * self.width <= i < self.data.len() ==> self.data[i] == before.data[i],
                forall|x: usize, y: usize|
                    before.covers(x as int, y as int) && y < self.top + row ==> call_ensures(
                        *accumulate,
                        (x, y, before.data[before.slot(x as int, y as int)]),
                        #[trigger] self.data[before.slot(x as int, y as int)],
                    ),
            decreases self.height - row,
        {
            let mut col: usize = 0;
            while col < self.width
                invariant
                    before.wf(),
                    self.wf(),
                    self.sample_count == before.sample_count,
                    self.width == before.width,
                    self.height == before.height,
                    self.left == before.left,
                    self.top == before.top,
                    self.left + self.width <= usize::MAX,
                    self.top + self.height <= usize::MAX,
                    row < self.height,
                    col <= self.width,
                    forall|x: usize, y: usize, sum: Radiance| call_requires(*accumulate, (x, y, sum)),
                    forall|i: int|
                        row * self.width + col <= i < self.data.len() ==> self.data[i]
                            == before.data[i],
                    forall|x: usize, y: usize|
                        before.covers(x as int, y as int) && (y < self.top + row || (y == self.top
                            + row && x < self.left + col)) ==> call_ensures(
                            *accumulate,
                            (x, y, before.data[before.slot(x as int, y as int)]),
                            #[trigger] self.data[before.slot(x as int, y as int)],
                        ),
                decreases self.width - col,
            {
                let x: usize = self.left + col;
                let y: usize = self.top + row;
                assert(self.data.len() == self.data@.len());
                proof {
                    lemma_slot_in_range(before, x as int, y as int);
                    assert(before.slot(x as int, y as int) == col + row * self.width);
                    assert(before.data.len() == self.data.len());
                    assert(0 <= row * self.width) by (nonlinear_arith)
                        requires
                            0 <= row,
                            0 <= self.width,
                    ;
                }
                let slot: usize = col + row * self.width;
                let ghost prior = self.data@;
                let sum = accumulate(x, y, self.data[slot]);
                self.data.set(slot, sum);
                proof {
                    assert forall|px: usize, py: usize|
                        before.covers(px as int, py as int) && (py < self.top + row || (py
                            == self.top + row && px < self.left + col + 1)) implies call_ensures(
                        *accumulate,
                        (px, py, before.data[before.slot(px as int, py as int)]),
                        #[trigger] self.data[before.slot(px as int, py as int)],
                    ) by {
                        lemma_slot_in_range(before, px as int, py as int);
                        let other = before.slot(px as int, py as int);
                        if px == x && py == y {
                        } else {
                            // a different pixel has a different slot
                            assert(other != slot) by {
                                if other == slot {
                                    assert(other % (before.width as int) == px - before.left);
                                    assert(other / (before.width as int) == py - before.top);
                                }
                            }
                            assert(self.data[other] == prior[other]);
                        }
                    }
                }
                col += 1;
            }
            assert(row * self.width + self.width == (row + 1) * self.width) by (nonlinear_arith);
            row += 1;
        }
    }
}

} // verus!
