use vstd::prelude::*;
use crate::acc_grid::{checked_slot, slot_of, AccGrid, CellCoord, Resolution};
use crate::select::{closest, is_closest, none_within, Hit};

verus! {

/// An axis of the grid.
#[derive(Clone, Copy, Debug, PartialEq, Eq, Structural)]
pub enum Axis {
    X,
    Y,
    Z,
}

/// The way a ray runs along one axis.
#[derive(Clone, Copy, Debug, PartialEq, Eq, Structural)]
pub enum Heading {
    /// Towards smaller coordinates.
    Backward,
    /// Towards larger coordinates.
    Forward,
}

/// The way a ray runs along each axis.
#[derive(Clone, Copy, Debug, PartialEq, Eq, Structural)]
pub struct Step {
    pub x: Heading,
    pub y: Heading,
    pub z: Heading,
}

/// Cell coordinates as they come out of a division of real numbers: they
/// may be negative.
#[derive(Clone, Copy, Debug, PartialEq, Eq, Structural)]
pub struct SignedCell {
    pub x: i32,
    pub y: i32,
    pub z: i32,
}

/// A coordinate brought into an axis of `n` cells: a coordinate in front of
/// the axis becomes the first cell, one behind it the last.
pub open spec fn brought_in(v: i32, n: usize) -> usize {
    if v < 0 {
        0
    } else if v < n {
        v as usize
    } else {
        (n - 1) as usize
    }
}

impl SignedCell {
    /// The coordinates name a cell of a grid of the given resolution.
    pub open spec fn within(self, res: Resolution) -> bool {
        &&& 0 <= self.x < res.x
        &&& 0 <= self.y < res.y
        &&& 0 <= self.z < res.z
    }

    /// The same coordinates as a cell of the grid.
    pub open spec fn cell(self) -> CellCoord {
        CellCoord { x: self.x as usize, y: self.y as usize, z: self.z as usize }
    }

    /// The cell of the grid that lies nearest to these coordinates.
    pub open spec fn nearest_cell(self, res: Resolution) -> CellCoord {
        CellCoord {
            x: brought_in(self.x, res.x),
            y: brought_in(self.y, res.y),
            z: brought_in(self.z, res.z),
        }
    }
}

/// Where a traversal starts.
#[derive(Clone, Copy, Debug, PartialEq, Eq, Structural)]
pub struct Start {
    /// The first cell of the walk; it is a cell of the grid.
    pub cell: CellCoord,
    /// Whether the walk starts at the ray's origin, which then lies inside
    /// the grid, or else at the point where the ray enters the bounds.
    pub inside: bool,
}

fn bring_in(v: i32, n: usize) -> (r: usize)
    requires
        n >= 1,
    ensures
        r == brought_in(v, n),
        r < n,
{
    if v < 0 {
        0
    } else {
        let u: usize = v as usize;
        if u < n {
            u
        } else {
            n - 1
        }
    }
}

fn on_axis(v: i32, n: usize) -> (b: bool)
    ensures
        b == (0 <= v < n),
{
    v >= 0 && (v as usize) < n
}

impl AccGrid {
    /// The start of a traversal.  `from_origin` is the cell computed from
    /// the ray's origin; if it is a cell of the grid, the origin lies inside
    /// the bounds and the walk starts there.  Otherwise the walk starts where
    /// the ray enters the bounds: `from_entry` is the cell computed from that
    /// point.  The point lies on the surface of the bounds, so that its cell
    /// comes out one behind the grid on a far face and may come out in front
    /// of it by rounding; it is brought into the grid.
    pub open spec fn starting_cell(&self, from_origin: SignedCell, from_entry: SignedCell) -> Start {
        if from_origin.within(self.resolution) {
            Start { cell: from_origin.cell(), inside: true }
        } else {
            Start { cell: from_entry.nearest_cell(self.resolution), inside: false }
        }
    }

    /// Chooses the cell in which a traversal starts.
    pub fn start(&self, from_origin: SignedCell, from_entry: SignedCell) -> (r: Start)
        requires
            self.wf(),
        ensures
            r == self.starting_cell(from_origin, from_entry),
            r.cell.x < self.resolution.x,
            r.cell.y < self.resolution.y,
            r.cell.z < self.resolution.z,
    {
        let res = self.resolution;
        if on_axis(from_origin.x, res.x) && on_axis(from_origin.y, res.y) && on_axis(
            from_origin.z,
            res.z,
        ) {
            Start {
                cell: CellCoord {
                    x: from_origin.x as usize,
                    y: from_origin.y as usize,
                    z: from_origin.z as usize,
                },
                inside: true,
            }
        } else {
            Start {
                cell: CellCoord {
                    x: bring_in(from_entry.x, res.x),
                    y: bring_in(from_entry.y, res.y),
                    z: bring_in(from_entry.z, res.z),
                },
                inside: false,
            }
        }
    }
}

/// The axis along which a traversal leaves its cell.  The arguments compare
/// the ray parameters at which the cell's far faces are reached:
/// `x_before_y` says that the x face comes strictly before the y face, and so
/// on.  The nearest face wins; the y face wins a tie with x, and z wins a tie
/// with either.
pub open spec fn exit_axis(x_before_y: bool, x_before_z: bool, y_before_z: bool) -> Axis {
    if x_before_y {
        if x_before_z {
            Axis::X
        } else {
            Axis::Z
        }
    } else {
        if y_before_z {
            Axis::Y
        } else {
            Axis::Z
        }
    }
}

/// Chooses the axis along which a traversal leaves its cell.
pub fn next_axis(x_before_y: bool, x_before_z: bool, y_before_z: bool) -> (axis: Axis)
    ensures
        axis == exit_axis(x_before_y, x_before_z, y_before_z),
{
    if x_before_y {
        if x_before_z {
            Axis::X
        } else {
            Axis::Z
        }
    } else {
        if y_before_z {
            Axis::Y
        } else {
            Axis::Z
        }
    }
}

/// A coordinate one cell further along a heading.
pub open spec fn shifted(v: usize, heading: Heading) -> int {
    match heading {
        Heading::Backward => v - 1,
        Heading::Forward => v + 1,
    }
}

/// The cell next to `at` along `axis` in the direction of `step`.
pub open spec fn neighbour(at: CellCoord, axis: Axis, step: Step) -> (int, int, int) {
    match axis {
        Axis::X => (shifted(at.x, step.x), at.y as int, at.z as int),
        Axis::Y => (at.x as int, shifted(at.y, step.y), at.z as int),
        Axis::Z => (at.x as int, at.y as int, shifted(at.z, step.z)),
    }
}

/// The cell a traversal reaches when it leaves `at` along `axis`, unless it
/// leaves the grid: only the coordinate that changes is held against the
/// resolution.
pub open spec fn stepped(res: Resolution, at: CellCoord, axis: Axis, step: Step) -> Option<
    CellCoord,
> {
    let (x, y, z) = neighbour(at, axis, step);
    if (match axis {
        Axis::X => 0 <= x < res.x,
        Axis::Y => 0 <= y < res.y,
        Axis::Z => 0 <= z < res.z,
    }) {
        Some(CellCoord { x: x as usize, y: y as usize, z: z as usize })
    } else {
        None
    }
}

/// How many cells lie ahead of coordinate `v` on an axis of `n` cells.
pub open spec fn cells_ahead(v: usize, heading: Heading, n: usize) -> int {
    match heading {
        Heading::Backward => v + 1,
        Heading::Forward => if v < n {
            n - v
        } else {
            0
        },
    }
}

/// A bound on the number of steps a traversal can still take from `at`.
pub open spec fn steps_left(res: Resolution, at: CellCoord, step: Step) -> int {
    cells_ahead(at.x, step.x, res.x) + cells_ahead(at.y, step.y, res.y) + cells_ahead(
        at.z,
        step.z,
        res.z,
    )
}

fn shift(v: usize, heading: Heading, n: usize) -> (r: Option<usize>)
    ensures
        r == (if 0 <= shifted(v, heading) < n {
            Some(shifted(v, heading) as usize)
        } else {
            None
        }),
{
    match heading {
        Heading::Backward => {
            if v >= 1 && v - 1 < n {
                Some(v - 1)
            } else {
                None
            }
        },
        Heading::Forward => {
            if v < n && v + 1 < n {
                Some(v + 1)
            } else {
                None
            }
        },
    }
}

impl AccGrid {
    /// The array position of a cell, if the position lies in the cell array.
    pub open spec fn slot_at(&self, at: CellCoord) -> Option<usize> {
        if slot_of(self.resolution, at.x as int, at.y as int, at.z as int) < self.cells.len() {
            Some(slot_of(self.resolution, at.x as int, at.y as int, at.z as int) as usize)
        } else {
            None
        }
    }

    /// The array position of a cell, if the position lies in the cell array.
    pub fn slot(&self, at: CellCoord) -> (r: Option<usize>)
        requires
            self.wf(),
        ensures
            r == self.slot_at(at),
    {
        checked_slot(self.resolution, at.x, at.y, at.z, self.cells.len())
    }

    /// The triangles listed at an array position.
    pub fn triangles(&self, slot: usize) -> (run: &[usize])
        requires
            self.wf(),
            slot < self.cells.len(),
        ensures
            run@ == self.bucket(slot as int),
            forall|j: int| 0 <= j < run@.len() ==> (#[trigger] run@[j]) < self.triangle_count,
    {
        let start: usize = self.cells[slot].0;
        let count: usize = self.mapping_table[start];
        assert(self.mapping_table.len() == self.mapping_table@.len());
        assert(self.run_end(slot as int) <= self.mapping_table.len());
        let run = vstd::slice::slice_subrange(
            self.mapping_table.as_slice(),
            start + 1,
            start + 1 + count,
        );
        assert forall|j: int| 0 <= j < run@.len() implies (#[trigger] run@[j])
            < self.triangle_count by {
            assert(run@[j] == self.mapping_table[self.cells[slot as int].0 + 1 + j]);
        }
        run
    }

    /// Moves a traversal to the next cell along `axis`.  `None` means that
    /// the traversal has left the grid.
    pub fn advance(&self, at: CellCoord, axis: Axis, step: Step) -> (r: Option<CellCoord>)
        ensures
            r == stepped(self.resolution, at, axis, step),
            r matches Some(next) ==> steps_left(self.resolution, next, step) == steps_left(
                self.resolution,
                at,
                step,
            ) - 1,
    {
        match axis {
            Axis::X => match shift(at.x, step.x, self.resolution.x) {
                Some(x) => Some(CellCoord { x, y: at.y, z: at.z }),
                None => None,
            },
            Axis::Y => match shift(at.y, step.y, self.resolution.y) {
                Some(y) => Some(CellCoord { x: at.x, y, z: at.z }),
                None => None,
            },
            Axis::Z => match shift(at.z, step.z, self.resolution.z) {
                Some(z) => Some(CellCoord { x: at.x, y: at.y, z }),
                None => None,
            },
        }
    }
}

/// How many cells a traversal has moved along an axis to get from coordinate
/// `from` to coordinate `to`.
pub open spec fn taken(from: usize, to: usize, heading: Heading) -> int {
    match heading {
        Heading::Backward => from - to,
        Heading::Forward => to - from,
    }
}

/// What a search of one cell reports, given the ray's hits on the triangles
/// listed there: the nearest hit below the limit, the first of equally near
/// ones, with the mesh index of its triangle.
pub open spec fn picked(listed: Seq<usize>, hits: Seq<Option<Hit>>, limit: u32, r: Option<Hit>)
    -> bool {
    match r {
        Some(hit) => exists|k: int|
            {
                &&& #[trigger] is_closest(hits, limit, k)
                &&& hit.distance == hits[k]->Some_0.distance
                &&& hit.subobject_index == listed[k]
            },
        None => none_within(hits, limit),
    }
}

impl AccGrid {
    /// `hits` is what `probe` answered for the triangles listed at `slot`,
    /// asked in the order of the list.
    pub open spec fn probed<P: Fn(usize) -> Option<Hit>>(
        &self,
        slot: int,
        probe: P,
        hits: Seq<Option<Hit>>,
    ) -> bool {
        &&& hits.len() == self.bucket(slot).len()
        &&& forall|j: int|
            0 <= j < hits.len() ==> call_ensures(probe, (self.bucket(slot)[j],), #[trigger] hits[j])
    }

    /// `r` is the result of searching the cell at `slot` with `probe`.
    pub open spec fn cell_result<P: Fn(usize) -> Option<Hit>>(
        &self,
        slot: int,
        limit: u32,
        probe: P,
        r: Option<Hit>,
    ) -> bool {
        exists|hits: Seq<Option<Hit>>|
            #[trigger] self.probed(slot, probe, hits) && picked(self.bucket(slot), hits, limit, r)
    }

    /// `order` sends a traversal that started in `origin` and has reached
    /// `at` on to `next`, or out of the grid if `next` is `None`.  `order` is
    /// asked with the number of cells moved along each axis so far and answers
    /// with the three comparisons of [`exit_axis`].
    pub open spec fn sent_on<O: Fn(usize, usize, usize) -> (bool, bool, bool)>(
        &self,
        origin: CellCoord,
        at: CellCoord,
        step: Step,
        order: O,
        next: Option<CellCoord>,
    ) -> bool {
        exists|nearer: (bool, bool, bool)|
            {
                &&& #[trigger] call_ensures(
                    order,
                    (
                        taken(origin.x, at.x, step.x) as usize,
                        taken(origin.y, at.y, step.y) as usize,
                        taken(origin.z, at.z, step.z) as usize,
                    ),
                    nearer,
                )
                &&& next == stepped(
                    self.resolution,
                    at,
                    exit_axis(nearer.0, nearer.1, nearer.2),
                    step,
                )
            }
    }

    /// Leg `i` of a route: the cell `route[i]` holds no hit and the traversal
    /// is sent on to `route[i + 1]`.
    pub open spec fn leg<P: Fn(usize) -> Option<Hit>, O: Fn(usize, usize, usize) -> (
        bool,
        bool,
        bool,
    )>(&self, route: Seq<CellCoord>, i: int, step: Step, limit: u32, probe: P, order: O) -> bool {
        &&& self.slot_at(route[i]) is Some
        &&& self.cell_result(self.slot_at(route[i])->Some_0 as int, limit, probe, None)
        &&& self.sent_on(route[0], route[i], step, order, Some(route[i + 1]))
    }

    /// The traversal ends in the last cell of the route with result `r`:
    /// without a hit if the cell has no place in the cell array; with the
    /// nearest hit in the cell if there is one; and without a hit if there is
    /// none and the traversal is sent out of the grid.
    pub open spec fn ends<P: Fn(usize) -> Option<Hit>, O: Fn(usize, usize, usize) -> (
        bool,
        bool,
        bool,
    )>(
        &self,
        route: Seq<CellCoord>,
        step: Step,
        limit: u32,
        probe: P,
        order: O,
        r: Option<Hit>,
    ) -> bool {
        match self.slot_at(route.last()) {
            None => r is None,
            Some(slot) => {
                &&& self.cell_result(slot as int, limit, probe, r)
                &&& r is None ==> self.sent_on(route[0], route.last(), step, order, None)
            },
        }
    }

    /// `r` is the result of a traversal from `start`: there is a route of
    /// cells from `start`, each leg of which passes a cell without a hit, that
    /// ends with `r`.
    pub open spec fn traversed<P: Fn(usize) -> Option<Hit>, O: Fn(usize, usize, usize) -> (
        bool,
        bool,
        bool,
    )>(&self, start: CellCoord, step: Step, limit: u32, probe: P, order: O, r: Option<Hit>) -> bool {
        exists|route: Seq<CellCoord>|
            {
                &&& route.len() >= 1
                &&& route[0] == start
                &&& forall|i: int|
                    0 <= i < route.len() - 1 ==> #[trigger] self.leg(
                        route,
                        i,
                        step,
                        limit,
                        probe,
                        order,
                    )
                &&& #[trigger] self.ends(route, step, limit, probe, order, r)
            }
    }

    /// Searches one cell: asks `probe` for the ray's hit on each triangle
    /// listed at `slot`, in list order, and reports the nearest hit below
    /// `limit`.
    pub fn probe_cell<P: Fn(usize) -> Option<Hit>>(&self, slot: usize, limit: u32, probe: &P) -> (r:
        Option<Hit>)
        requires
            self.wf(),
            slot < self.cells.len(),
            forall|t: usize| t < self.triangle_count ==> call_requires(*probe, (t,)),
        ensures
            self.cell_result(slot as int, limit, *probe, r),
            r matches Some(hit) ==> hit.subobject_index < self.triangle_count
                && self.bucket(slot as int).contains(hit.subobject_index),
    {
        let run = self.triangles(slot);
        let mut hits: Vec<Option<Hit>> = Vec::new();
        let mut j: usize = 0;
        while j < run.len()
            invariant
                j <= run.len(),
                hits.len() == j,
                run@ == self.bucket(slot as int),
                forall|t: usize| t < self.triangle_count ==> call_requires(*probe, (t,)),
                forall|i: int| 0 <= i < run@.len() ==> (#[trigger] run@[i]) < self.triangle_count,
                forall|i: int| 0 <= i < j ==> call_ensures(*probe, (run@[i],), #[trigger] hits@[i]),
            decreases run.len() - j,
        {
            let hit = probe(run[j]);
            hits.push(hit);
            j += 1;
        }
        assert(self.probed(slot as int, *probe, hits@));
        match closest(&hits, limit) {
            Some(k) => match hits[k] {
                Some(hit) => {
                    let found = Hit::with_child(hit.distance, run[k]);
                    assert(is_closest(hits@, limit, k as int));
                    assert(picked(run@, hits@, limit, Some(found)));
                    assert(run@[k as int] == found.subobject_index);
                    Some(found)
                },
                None => None,
            },
            None => {
                assert(picked(run@, hits@, limit, None));
                None
            },
        }
    }

    /// Walks a ray through the grid.  The walk starts in `start` and runs
    /// along `step`.  In each cell `probe` is asked for the ray's hit on each
    /// listed triangle; the first cell with a hit below `limit` ends the walk
    /// with its nearest hit.  A cell without a hit is left through the face
    /// that `order` names, and the walk ends without a hit when it leaves the
    /// grid or reaches a cell without a place in the cell array.
    pub fn intersects<P: Fn(usize) -> Option<Hit>, O: Fn(usize, usize, usize) -> (
        bool,
        bool,
        bool,
    )>(&self, start: CellCoord, step: Step, limit: u32, probe: &P, order: &O) -> (r: Option<
        Hit,
    >)
        requires
            self.wf(),
            forall|t: usize| t < self.triangle_count ==> call_requires(*probe, (t,)),
            forall|a: usize, b: usize, c: usize| call_requires(*order, (a, b, c)),
        ensures
            self.traversed(start, step, limit, *probe, *order, r),
            r matches Some(hit) ==> hit.subobject_index < self.triangle_count,
    {
        let from = start;
        let mut cell = from;
        let mut result: Option<Hit> = None;
        let mut moved_x: usize = 0;
        let mut moved_y: usize = 0;
        let mut moved_z: usize = 0;
        let ghost mut route: Seq<CellCoord> = seq![from];
        loop
            invariant
                self.wf(),
                forall|t: usize| t < self.triangle_count ==> call_requires(*probe, (t,)),
                forall|a: usize, b: usize, c: usize| call_requires(*order, (a, b, c)),
                route.len() >= 1,
                route[0] == from,
                route.last() == cell,
                moved_x == taken(from.x, cell.x, step.x),
                moved_y == taken(from.y, cell.y, step.y),
                moved_z == taken(from.z, cell.z, step.z),
                forall|i: int|
                    0 <= i < route.len() - 1 ==> #[trigger] self.leg(
                        route,
                        i,
                        step,
                        limit,
                        *probe,
                        *order,
                    ),
            ensures
                self.traversed(from, step, limit, *probe, *order, result),
                result matches Some(hit) ==> hit.subobject_index < self.triangle_count,
            decreases steps_left(self.resolution, cell, step),
        {
            let slot = match self.slot(cell) {
                Some(slot) => slot,
                None => {
                    result = None;
                    assert(self.ends(route, step, limit, *probe, *order, result));
                    break ;
                },
            };
            let found = self.probe_cell(slot, limit, probe);
            if found.is_some() {
                result = found;
                assert(self.ends(route, step, limit, *probe, *order, result));
                break ;
            }
            let nearer = order(moved_x, moved_y, moved_z);
            let axis = next_axis(nearer.0, nearer.1, nearer.2);
            let next = self.advance(cell, axis, step);
            assert(self.sent_on(from, cell, step, *order, next)) by {
                assert(call_ensures(
                    *order,
                    (
                        taken(from.x, cell.x, step.x) as usize,
                        taken(from.y, cell.y, step.y) as usize,
                        taken(from.z, cell.z, step.z) as usize,
                    ),
                    nearer,
                ));
                assert(next == stepped(
                    self.resolution,
                    cell,
                    exit_axis(nearer.0, nearer.1, nearer.2),
                    step,
                ));
            }
            match next {
                None => {
                    result = None;
                    assert(self.ends(route, step, limit, *probe, *order, result));
                    break ;
                },
                Some(next_cell) => {
                    proof {
                        let longer = route.push(next_cell);
                        assert forall|i: int| 0 <= i < longer.len() - 1 implies #[trigger] self.leg(
                            longer,
                            i,
                            step,
                            limit,
                            *probe,
                            *order,
                        ) by {
                            if i < route.len() - 1 {
                                assert(self.leg(route, i, step, limit, *probe, *order));
                                assert(longer[i] == route[i] && longer[i + 1] == route[i + 1]);
                            } else {
                                assert(longer[i] == cell && longer[i + 1] == next_cell);
                            }
                        }
                        route = longer;
                    }
                    if next_cell.x != cell.x {
                        moved_x = moved_x + 1;
                    }
                    if next_cell.y != cell.y {
                        moved_y = moved_y + 1;
                    }
                    if next_cell.z != cell.z {
                        moved_z = moved_z + 1;
                    }
                    cell = next_cell;
                },
            }
        }
        result
    }
}

} // verus!
