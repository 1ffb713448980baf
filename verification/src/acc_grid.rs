use vstd::prelude::*;
use vstd::arithmetic::div_mod::lemma_fundamental_div_mod_converse;
use crate::error::RenderError;

verus! {

/// A cell of the grid: the position in the mapping table at which the cell's
/// run starts.  A run is the number of triangles in the cell followed by their
/// indices.
#[derive(Clone, Copy, Debug, PartialEq, Eq, Structural)]
pub struct Cell(pub usize);

/// Number of cells of a grid along each axis.
#[derive(Clone, Copy, Debug, PartialEq, Eq, Structural)]
pub struct Resolution {
    pub x: usize,
    pub y: usize,
    pub z: usize,
}

/// Integer coordinates of a cell.
#[derive(Clone, Copy, Debug, PartialEq, Eq, Structural)]
pub struct CellCoord {
    pub x: usize,
    pub y: usize,
    pub z: usize,
}

/// The box of cells that a triangle's bounds reach, both corners included,
/// as computed from the bounds before clamping to the grid.
#[derive(Clone, Copy, Debug, PartialEq, Eq, Structural)]
pub struct CellSpan {
    pub min: CellCoord,
    pub max: CellCoord,
}

/// A triangle mesh as the grid sees it: the grid's resolution and, for each
/// triangle in mesh order, the cells it reaches.
#[derive(Clone, Debug, PartialEq, Eq)]
pub struct GridMesh {
    pub resolution: Resolution,
    pub spans: Vec<CellSpan>,
}

/// The position of cell `(x, y, z)` in the cell array.
pub open spec fn slot_of(res: Resolution, x: int, y: int, z: int) -> int {
    x + res.x * (y + z * res.z)
}

/// A coordinate brought into `[0, n - 1]`.
pub open spec fn clamped(v: usize, n: usize) -> int {
    if v < n {
        v as int
    } else {
        n - 1
    }
}

/// Number of integers from `lo` to `hi`, both included.
pub open spec fn count_between(lo: int, hi: int) -> int {
    if lo <= hi {
        hi - lo + 1
    } else {
        0
    }
}

/// How often `c` occurs in `s`.
pub open spec fn occurrences(s: Seq<int>, c: int) -> nat
    decreases s.len(),
{
    if s.len() == 0 {
        0
    } else {
        occurrences(s.drop_last(), c) + if s.last() == c {
            1nat
        } else {
            0nat
        }
    }
}

/// The sequence that holds `v` exactly `n` times.
pub open spec fn repeated(v: usize, n: nat) -> Seq<usize> {
    Seq::new(n, |i: int| v)
}

impl Resolution {
    /// Number of cells of the grid.
    pub open spec fn cell_count(self) -> int {
        self.x * self.y * self.z
    }
}

impl CellSpan {
    /// Number of cells of the clamped span along x.
    pub open spec fn count_x(self, res: Resolution) -> int {
        count_between(clamped(self.min.x, res.x), clamped(self.max.x, res.x))
    }

    /// Number of cells of the clamped span along y.
    pub open spec fn count_y(self, res: Resolution) -> int {
        count_between(clamped(self.min.y, res.y), clamped(self.max.y, res.y))
    }

    /// Number of cells of the clamped span along z.
    pub open spec fn count_z(self, res: Resolution) -> int {
        count_between(clamped(self.min.z, res.z), clamped(self.max.z, res.z))
    }

    /// Number of cells of the clamped span.
    pub open spec fn volume(self, res: Resolution) -> int {
        self.count_x(res) * self.count_y(res) * self.count_z(res)
    }

    /// The array position of the `k`-th cell of the clamped span, counting
    /// along x first, then y, then z.
    pub open spec fn slot_at(self, res: Resolution, k: int) -> int {
        slot_of(
            res,
            clamped(self.min.x, res.x) + k % self.count_x(res),
            clamped(self.min.y, res.y) + (k / self.count_x(res)) % self.count_y(res),
            clamped(self.min.z, res.z) + k / (self.count_x(res) * self.count_y(res)),
        )
    }

    /// The array positions of all cells of the clamped span.
    pub open spec fn slots(self, res: Resolution) -> Seq<int> {
        Seq::new(self.volume(res) as nat, |k: int| self.slot_at(res, k))
    }

    /// Some cell of the clamped span has no place in the cell array.
    pub open spec fn reaches_outside(self, res: Resolution) -> bool {
        exists|k: int| 0 <= k < self.volume(res) && #[trigger] self.slot_at(res, k) >= res.cell_count()
    }
}

/// The triangles listed for array position `c`: every triangle, in mesh
/// order, once for each cell of its clamped span that lies at `c`.
pub open spec fn bucket(spans: Seq<CellSpan>, res: Resolution, c: int) -> Seq<usize>
    decreases spans.len(),
{
    if spans.len() == 0 {
        Seq::empty()
    } else {
        bucket(spans.drop_last(), res, c) + repeated(
            (spans.len() - 1) as usize,
            occurrences(spans.last().slots(res), c),
        )
    }
}

impl GridMesh {
    /// A grid can be built: no axis is empty, the cell count fits the
    /// machine's word and every triangle stays inside the cell array.
    pub open spec fn indexable(&self) -> bool {
        &&& self.resolution.x >= 1
        &&& self.resolution.y >= 1
        &&& self.resolution.z >= 1
        &&& self.resolution.cell_count() <= usize::MAX
        &&& forall|i: int|
            0 <= i < self.spans.len() ==> !(#[trigger] self.spans[i]).reaches_outside(
                self.resolution,
            )
    }
}

/// A uniform grid over a triangle mesh.
#[derive(Clone, Debug, PartialEq, Eq)]
pub struct AccGrid {
    pub cells: Vec<Cell>,
    pub mapping_table: Vec<usize>,
    pub resolution: Resolution,
    /// Number of triangles of the mesh the grid was built from.
    pub triangle_count: usize,
}

impl AccGrid {
    /// Number of triangles listed for array position `c`.
    pub open spec fn run_len(&self, c: int) -> int {
        self.mapping_table[self.cells[c].0 as int] as int
    }

    /// The position just behind the run of array position `c`.
    pub open spec fn run_end(&self, c: int) -> int {
        self.cells[c].0 + 1 + self.run_len(c)
    }

    /// The triangles listed for array position `c`.
    pub open spec fn bucket(&self, c: int) -> Seq<usize> {
        self.mapping_table@.subrange(self.cells[c].0 + 1, self.run_end(c))
    }

    /// The cell array has one cell per grid cell, the runs of the cells follow
    /// each other in the mapping table without gaps, in cell order, and every
    /// listed index names a triangle of the mesh.
    pub open spec fn wf(&self) -> bool {
        &&& self.resolution.x >= 1
        &&& self.resolution.y >= 1
        &&& self.resolution.z >= 1
        &&& self.cells.len() == self.resolution.cell_count()
        &&& self.cells[0].0 == 0
        &&& forall|c: int|
            0 <= c < self.cells.len() ==> (#[trigger] self.cells[c]).0 < self.mapping_table.len()
        &&& forall|c: int|
            0 <= c < self.cells.len() ==> #[trigger] self.run_end(c) == (if c + 1
                < self.cells.len() {
                self.cells[c + 1].0 as int
            } else {
                self.mapping_table.len() as int
            })
        &&& forall|c: int, j: int|
            0 <= c < self.cells.len() && 0 <= j < self.run_len(c) ==> (
            #[trigger] self.mapping_table[self.cells[c].0 + 1 + j]) < self.triangle_count
    }
}

proof fn lemma_occurrences_push(s: Seq<int>, v: int, c: int)
    ensures
        occurrences(s.push(v), c) == occurrences(s, c) + if v == c {
            1nat
        } else {
            0nat
        },
{
    assert(s.push(v).drop_last() =~= s);
}

/// Lemma: along x first, then y, then z, the cell at offsets `(dx, dy, dz)`
/// of a box of `cx` by `cy` by `cz` cells is cell number
/// `(dz * cy + dy) * cx + dx`.
proof fn lemma_visit(cx: int, cy: int, cz: int, dx: int, dy: int, dz: int)
    requires
        0 <= dx < cx,
        0 <= dy < cy,
        0 <= dz < cz,
    ensures
        ({
            let k = (dz * cy + dy) * cx + dx;
            &&& 0 <= k < cx * cy * cz
            &&& k % cx == dx
            &&& (k / cx) % cy == dy
            &&& k / (cx * cy) == dz
        }),
{
    let k = (dz * cy + dy) * cx + dx;
    let row = dz * cy + dy;
    assert(0 <= dz * cy) by (nonlinear_arith)
        requires
            0 <= dz,
            0 <= cy,
    ;
    assert(0 <= row * cx) by (nonlinear_arith)
        requires
            0 <= row,
            0 <= cx,
    ;
    lemma_fundamental_div_mod_converse(k, cx, row, dx);
    lemma_fundamental_div_mod_converse(row, cy, dz, dy);
    assert(k == dz * (cx * cy) + (dy * cx + dx)) by (nonlinear_arith)
        requires
            k == (dz * cy + dy) * cx + dx,
    ;
    assert(0 <= dy * cx + dx < cx * cy) by (nonlinear_arith)
        requires
            0 <= dx < cx,
            0 <= dy < cy,
    ;
    lemma_fundamental_div_mod_converse(k, cx * cy, dz, dy * cx + dx);
    assert(k < cx * cy * cz) by (nonlinear_arith)
        requires
            k == dz * (cx * cy) + (dy * cx + dx),
            dy * cx + dx < cx * cy,
            0 <= dz < cz,
            0 < cx * cy,
    ;
}

/// Lemma: a value that stands in a sequence occurs in it at least once.
proof fn lemma_occurs(s: Seq<int>, k: int)
    requires
        0 <= k < s.len(),
    ensures
        occurrences(s, s[k]) >= 1,
    decreases s.len(),
{
    if k < s.len() - 1 {
        lemma_occurs(s.drop_last(), k);
    }
}

/// Lemma: a value that occurs in a sequence stands somewhere in it.
proof fn lemma_occurs_somewhere(s: Seq<int>, c: int) -> (k: int)
    requires
        occurrences(s, c) >= 1,
    ensures
        0 <= k < s.len(),
        s[k] == c,
    decreases s.len(),
{
    if s.last() == c {
        s.len() - 1
    } else {
        lemma_occurs_somewhere(s.drop_last(), c)
    }
}

impl CellSpan {
    /// The cell `(x, y, z)` lies in the span after the span has been clamped
    /// to the grid.
    pub open spec fn reaches(self, res: Resolution, x: int, y: int, z: int) -> bool {
        &&& clamped(self.min.x, res.x) <= x <= clamped(self.max.x, res.x)
        &&& clamped(self.min.y, res.y) <= y <= clamped(self.max.y, res.y)
        &&& clamped(self.min.z, res.z) <= z <= clamped(self.max.z, res.z)
    }
}

/// Law: a grid misses no triangle.  A triangle is listed at the array
/// position of every cell that its clamped span reaches.
pub proof fn lemma_triangle_listed(
    spans: Seq<CellSpan>,
    res: Resolution,
    i: int,
    x: int,
    y: int,
    z: int,
)
    requires
        0 <= i < spans.len() <= usize::MAX,
        spans[i].reaches(res, x, y, z),
    ensures
        bucket(spans, res, slot_of(res, x, y, z)).contains(i as usize),
    decreases spans.len(),
{
    let c = slot_of(res, x, y, z);
    let last = spans.len() - 1;
    let front = bucket(spans.drop_last(), res, c);
    let tail = repeated(last as usize, occurrences(spans.last().slots(res), c));
    if i == last {
        let span = spans[i];
        let lo_x = clamped(span.min.x, res.x);
        let lo_y = clamped(span.min.y, res.y);
        let lo_z = clamped(span.min.z, res.z);
        lemma_visit(
            span.count_x(res),
            span.count_y(res),
            span.count_z(res),
            x - lo_x,
            y - lo_y,
            z - lo_z,
        );
        let k = ((z - lo_z) * span.count_y(res) + (y - lo_y)) * span.count_x(res) + (x - lo_x);
        assert(span.slots(res)[k] == span.slot_at(res, k));
        assert(span.slot_at(res, k) == c);
        lemma_occurs(span.slots(res), k);
        assert(tail[0] == i as usize);
        assert((front + tail)[front.len() as int] == i as usize);
    } else {
        lemma_triangle_listed(spans.drop_last(), res, i, x, y, z);
        let at = choose|j: int| 0 <= j < front.len() && front[j] == i as usize;
        assert((front + tail)[at] == i as usize);
    }
}

/// Law: a grid lists no triangle without cause.  Every triangle listed at an
/// array position has a cell of its clamped span at that position.
pub proof fn lemma_listed_reaches(spans: Seq<CellSpan>, res: Resolution, c: int, j: int)
    requires
        spans.len() <= usize::MAX,
        0 <= j < bucket(spans, res, c).len(),
    ensures
        ({
            let i = bucket(spans, res, c)[j] as int;
            &&& 0 <= i < spans.len()
            &&& exists|k: int| 0 <= k < spans[i].volume(res) && #[trigger] spans[i].slot_at(res, k) == c
        }),
    decreases spans.len(),
{
    if spans.len() > 0 {
        let front = bucket(spans.drop_last(), res, c);
        if j < front.len() {
            lemma_listed_reaches(spans.drop_last(), res, c, j);
            let i = front[j] as int;
            assert(spans.drop_last()[i] == spans[i]);
        } else {
            let span = spans.last();
            let k = lemma_occurs_somewhere(span.slots(res), c);
            assert(span.slot_at(res, k) == c);
        }
    }
}

fn clamp(v: usize, n: usize) -> (r: usize)
    requires
        n >= 1,
    ensures
        r == clamped(v, n),
        r < n,
{
    if v < n {
        v
    } else {
        n - 1
    }
}

/// The array position of cell `(x, y, z)`, if it is below `limit`.
pub(crate) fn checked_slot(res: Resolution, x: usize, y: usize, z: usize, limit: usize) -> (r: Option<usize>)
    requires
        res.x >= 1,
    ensures
        r == (if slot_of(res, x as int, y as int, z as int) < limit {
            Some(slot_of(res, x as int, y as int, z as int) as usize)
        } else {
            None
        }),
{
    proof {
        let inner = y + z * res.z;
        assert(0 <= z * res.z) by (nonlinear_arith)
            requires
                0 <= z,
                0 <= res.z,
        ;
        assert(res.x * inner >= inner) by (nonlinear_arith)
            requires
                res.x >= 1,
                inner >= 0,
        ;
    }
    let depth = match z.checked_mul(res.z) {
        Some(v) => v,
        None => { return None; },
    };
    let row = match y.checked_add(depth) {
        Some(v) => v,
        None => { return None; },
    };
    let base = match res.x.checked_mul(row) {
        Some(v) => v,
        None => { return None; },
    };
    let slot = match x.checked_add(base) {
        Some(v) => v,
        None => { return None; },
    };
    if slot < limit {
        Some(slot)
    } else {
        None
    }
}

fn push_index(lists: &mut Vec<Vec<usize>>, slot: usize, index: usize)
    requires
        slot < old(lists).len(),
    ensures
        final(lists).len() == old(lists).len(),
        final(lists)[slot as int]@ == old(lists)[slot as int]@.push(index),
        forall|c: int| 0 <= c < old(lists).len() && c != slot ==> final(lists)[c] == old(lists)[c],
{
    lists[slot].push(index);
}

/// Lists triangle `index` in every cell of its clamped span, or reports that
/// the span leaves the cell array.
#[verifier::loop_isolation(false)]
fn scatter_span(lists: &mut Vec<Vec<usize>>, span: &CellSpan, res: Resolution, index: usize) -> (ok:
    bool)
    requires
        res.x >= 1,
        res.y >= 1,
        res.z >= 1,
        old(lists).len() == res.cell_count(),
    ensures
        final(lists).len() == old(lists).len(),
        ok <==> !span.reaches_outside(res),
        ok ==> forall|c: int|
            0 <= c < old(lists).len() ==> (#[trigger] final(lists)[c])@ == old(lists)[c]@ + repeated(
                index,
                occurrences(span.slots(res), c),
            ),
{
    let limit: usize = lists.len();
    let lo_x: usize = clamp(span.min.x, res.x);
    let hi_x: usize = clamp(span.max.x, res.x);
    let lo_y: usize = clamp(span.min.y, res.y);
    let hi_y: usize = clamp(span.max.y, res.y);
    let lo_z: usize = clamp(span.min.z, res.z);
    let hi_z: usize = clamp(span.max.z, res.z);
    let ghost cx = span.count_x(res);
    let ghost cy = span.count_y(res);
    let ghost cz = span.count_z(res);
    let ghost slots = span.slots(res);
    let ghost base = lists@;
    let ghost mut k: int = 0;
    assert(0 <= cx * cy * cz) by (nonlinear_arith)
        requires
            0 <= cx,
            0 <= cy,
            0 <= cz,
    ;
    assert forall|c: int| 0 <= c < base.len() implies (#[trigger] lists[c])@ == base[c]@ + repeated(
        index,
        occurrences(slots.take(0), c),
    ) by {
        assert(base[c]@ + repeated(index, 0) =~= base[c]@);
    }
    assert((0 * cy) * cx == 0) by (nonlinear_arith);
    let mut z: usize = lo_z;
    while z <= hi_z
        invariant
            lo_z <= z,
            z - lo_z <= cz,
            lists.len() == base.len(),
            k == ((z - lo_z) * cy) * cx,
            0 <= k <= slots.len(),
            forall|j: int| 0 <= j < k ==> #[trigger] span.slot_at(res, j) < limit,
            forall|c: int|
                0 <= c < base.len() ==> (#[trigger] lists[c])@ == base[c]@ + repeated(
                    index,
                    occurrences(slots.take(k), c),
                ),
        decreases hi_z + 1 - z,
    {
        let mut y: usize = lo_y;
        while y <= hi_y
            invariant
                lo_y <= y,
                y - lo_y <= cy,
                lists.len() == base.len(),
                k == ((z - lo_z) * cy + (y - lo_y)) * cx,
                0 <= k <= slots.len(),
                forall|j: int| 0 <= j < k ==> #[trigger] span.slot_at(res, j) < limit,
                forall|c: int|
                    0 <= c < base.len() ==> (#[trigger] lists[c])@ == base[c]@ + repeated(
                        index,
                        occurrences(slots.take(k), c),
                    ),
            decreases hi_y + 1 - y,
        {
            let mut x: usize = lo_x;
            while x <= hi_x
                invariant
                    lo_x <= x,
                    x - lo_x <= cx,
                    lists.len() == base.len(),
                    k == ((z - lo_z) * cy + (y - lo_y)) * cx + (x - lo_x),
                    0 <= k <= slots.len(),
                    forall|j: int| 0 <= j < k ==> #[trigger] span.slot_at(res, j) < limit,
                    forall|c: int|
                        0 <= c < base.len() ==> (#[trigger] lists[c])@ == base[c]@ + repeated(
                            index,
                            occurrences(slots.take(k), c),
                        ),
                decreases hi_x + 1 - x,
            {
                proof {
                    lemma_visit(cx, cy, cz, x - lo_x, y - lo_y, z - lo_z);
                    assert(span.slot_at(res, k) == slot_of(res, x as int, y as int, z as int));
                }
                match checked_slot(res, x, y, z, limit) {
                    None => {
                        assert(span.slot_at(res, k) >= res.cell_count());
                        return false;
                    },
                    Some(slot) => {
                        let ghost prior = lists@;
                        push_index(lists, slot, index);
                        proof {
                            assert(slots.take(k + 1) =~= slots.take(k).push(slot as int));
                            assert forall|c: int| 0 <= c < base.len() implies (
                            #[trigger] lists[c])@ == base[c]@ + repeated(
                                index,
                                occurrences(slots.take(k + 1), c),
                            ) by {
                                lemma_occurrences_push(slots.take(k), slot as int, c);
                                let n = occurrences(slots.take(k), c);
                                if c == slot {
                                    assert(repeated(index, n + 1) =~= repeated(index, n).push(
                                        index,
                                    ));
                                    assert(lists[c]@ =~= base[c]@ + repeated(index, n + 1));
                                } else {
                                    assert(lists[c] == prior[c]);
                                }
                            }
                            k = k + 1;
                        }
                    },
                }
                x += 1;
            }
            assert(((z - lo_z) * cy + (y - lo_y)) * cx + cx == ((z - lo_z) * cy + (y + 1 - lo_y))
                * cx) by (nonlinear_arith);
            y += 1;
        }
        assert(((z - lo_z) * cy + cy) * cx == ((z + 1 - lo_z) * cy) * cx) by (nonlinear_arith);
        z += 1;
    }
    proof {
        assert((cz * cy) * cx == cx * cy * cz) by (nonlinear_arith);
        assert(k == slots.len());
        assert(slots.take(k) =~= slots);
        assert forall|j: int| 0 <= j < span.volume(res) implies #[trigger] span.slot_at(res, j)
            < res.cell_count() by {}
    }
    true
}

/// Lemma: a bucket names only triangles of the mesh.
proof fn lemma_bucket_bound(spans: Seq<CellSpan>, res: Resolution, c: int, j: int)
    requires
        spans.len() <= usize::MAX,
        0 <= j < bucket(spans, res, c).len(),
    ensures
        bucket(spans, res, c)[j] < spans.len(),
    decreases spans.len(),
{
    if spans.len() > 0 {
        let rest = bucket(spans.drop_last(), res, c);
        if j < rest.len() {
            lemma_bucket_bound(spans.drop_last(), res, c, j);
        }
    }
}

/// The lists of all cells: for each array position, the triangles whose
/// clamped span has a cell there.  `None` when a span leaves the array.
fn scatter(mesh: &GridMesh, limit: usize) -> (r: Option<Vec<Vec<usize>>>)
    requires
        mesh.resolution.x >= 1,
        mesh.resolution.y >= 1,
        mesh.resolution.z >= 1,
        limit == mesh.resolution.cell_count(),
    ensures
        r is Some <==> (forall|i: int|
            0 <= i < mesh.spans.len() ==> !(#[trigger] mesh.spans[i]).reaches_outside(
                mesh.resolution,
            )),
        r matches Some(lists) ==> lists.len() == limit && forall|c: int|
            0 <= c < limit ==> (#[trigger] lists[c])@ == bucket(mesh.spans@, mesh.resolution, c),
{
    let res = mesh.resolution;
    let mut lists: Vec<Vec<usize>> = Vec::new();
    while lists.len() < limit
        invariant
            lists.len() <= limit,
            forall|c: int| 0 <= c < lists.len() ==> (#[trigger] lists[c])@ == Seq::<usize>::empty(),
        decreases limit - lists.len(),
    {
        lists.push(Vec::new());
    }
    assert(mesh.spans@.take(0) =~= Seq::<CellSpan>::empty());
    let mut i: usize = 0;
    while i < mesh.spans.len()
        invariant
            res == mesh.resolution,
            res.x >= 1,
            res.y >= 1,
            res.z >= 1,
            limit == res.cell_count(),
            i <= mesh.spans.len(),
            lists.len() == limit,
            forall|j: int| 0 <= j < i ==> !(#[trigger] mesh.spans[j]).reaches_outside(res),
            forall|c: int|
                0 <= c < limit ==> (#[trigger] lists[c])@ == bucket(mesh.spans@.take(i as int), res, c),
        decreases mesh.spans.len() - i,
    {
        let ghost prior = lists@;
        let ok = scatter_span(&mut lists, &mesh.spans[i], res, i);
        if !ok {
            return None;
        }
        proof {
            let upto = mesh.spans@.take(i + 1);
            assert(upto.drop_last() =~= mesh.spans@.take(i as int));
            assert(upto.last() == mesh.spans[i as int]);
            assert forall|c: int| 0 <= c < limit implies (#[trigger] lists[c])@ == bucket(
                upto,
                res,
                c,
            ) by {
                assert(prior[c]@ == bucket(mesh.spans@.take(i as int), res, c));
            }
        }
        i += 1;
    }
    assert(mesh.spans@.take(i as int) =~= mesh.spans@);
    Some(lists)
}

/// Cells and mapping table hold exactly the given lists: the run of each
/// cell is its list's length followed by the list, and the runs follow each
/// other in cell order from the start of the table to its end.
pub open spec fn laid_out(cells: Seq<Cell>, table: Seq<usize>, lists: Seq<Seq<usize>>) -> bool {
    &&& cells.len() == lists.len()
    &&& forall|c: int|
        0 <= c < cells.len() ==> #[trigger] list_end(cells, lists, c) == (if c + 1 < cells.len() {
            cells[c + 1].0 as int
        } else {
            table.len() as int
        })
    &&& forall|c: int|
        0 <= c < cells.len() ==> {
            &&& (#[trigger] cells[c]).0 + 1 + lists[c].len() <= table.len()
            &&& table[cells[c].0 as int] == lists[c].len()
            &&& table.subrange(cells[c].0 + 1, cells[c].0 + 1 + lists[c].len()) == lists[c]
        }
    &&& cells.len() > 0 ==> cells[0].0 == 0
}

/// The position just behind the run of cell `c` when it holds `lists[c]`.
pub open spec fn list_end(cells: Seq<Cell>, lists: Seq<Seq<usize>>, c: int) -> int {
    cells[c].0 + 1 + lists[c].len()
}

/// Lays the lists out as runs of one table.
fn flatten(lists: &Vec<Vec<usize>>) -> (out: (Vec<Cell>, Vec<usize>))
    ensures
        laid_out(out.0@, out.1@, lists@.map_values(|l: Vec<usize>| l@)),
{
    let ghost model = lists@.map_values(|l: Vec<usize>| l@);
    let mut cells: Vec<Cell> = Vec::new();
    let mut table: Vec<usize> = Vec::new();
    let mut c: usize = 0;
    while c < lists.len()
        invariant
            model == lists@.map_values(|l: Vec<usize>| l@),
            c <= lists.len(),
            cells.len() == c,
            c > 0 ==> cells[0].0 == 0,
            c == 0 ==> table.len() == 0,
            forall|j: int|
                0 <= j < c ==> #[trigger] list_end(cells@, model, j) == (if j + 1 < c {
                    cells[j + 1].0 as int
                } else {
                    table.len() as int
                }),
            forall|j: int|
                0 <= j < c ==> {
                    &&& (#[trigger] cells[j]).0 + 1 + model[j].len() <= table.len()
                    &&& table[cells[j].0 as int] == model[j].len()
                    &&& table@.subrange(cells[j].0 + 1, cells[j].0 + 1 + model[j].len())
                        == model[j]
                },
        decreases lists.len() - c,
    {
        let list = &lists[c];
        let start: usize = table.len();
        let ghost before = table@;
        let ghost cells_before = cells@;
        cells.push(Cell(start));
        table.push(list.len());
        let mut j: usize = 0;
        while j < list.len()
            invariant
                j <= list.len(),
                list@ == model[c as int],
                table@ == (before + seq![list.len()]) + list@.take(j as int),
            decreases list.len() - j,
        {
            table.push(list[j]);
            assert(list@.take(j + 1) =~= list@.take(j as int).push(list[j as int]));
            assert(table@ =~= (before + seq![list.len()]) + list@.take(j + 1));
            j += 1;
        }
        proof {
            assert(list@.take(j as int) =~= list@);
            let after = table@;
            assert forall|i: int| 0 <= i < c + 1 implies #[trigger] list_end(cells@, model, i)
                == (if i + 1 < c + 1 {
                cells[i + 1].0 as int
            } else {
                after.len() as int
            }) by {
                if i < c {
                    assert(list_end(cells_before, model, i) == list_end(cells@, model, i));
                    assert(cells[i] == cells_before[i]);
                    if i + 1 < c {
                        assert(cells[i + 1] == cells_before[i + 1]);
                    }
                }
            }
            assert forall|i: int| 0 <= i < c + 1 implies {
                &&& (#[trigger] cells[i]).0 + 1 + model[i].len() <= after.len()
                &&& after[cells[i].0 as int] == model[i].len()
                &&& after.subrange(cells[i].0 + 1, cells[i].0 + 1 + model[i].len()) == model[i]
            } by {
                if i < c {
                    assert(cells[i] == cells_before[i]);
                    assert(after.subrange(cells[i].0 + 1, cells[i].0 + 1 + model[i].len())
                        =~= before.subrange(cells[i].0 + 1, cells[i].0 + 1 + model[i].len()));
                } else {
                    assert(after.subrange(start + 1, start + 1 + model[i].len()) =~= list@);
                }
            }
        }
        c += 1;
    }
    (cells, table)
}

impl AccGrid {
    /// Builds the grid for a mesh.  Every triangle is listed, in mesh order,
    /// in each cell of its span after the span has been clamped to the grid.
    /// A mesh whose resolution has an empty axis, whose cells cannot be
    /// counted in a machine word, or one of whose triangles reaches a position
    /// outside the cell array, is rejected.
    pub fn build_from_mesh(mesh: &GridMesh) -> (r: Result<AccGrid, RenderError>)
        ensures
            r is Ok <==> mesh.indexable(),
            r is Err ==> r->Err_0 == RenderError::InvalidScene,
            r matches Ok(grid) ==> {
                &&& grid.wf()
                &&& grid.resolution == mesh.resolution
                &&& grid.triangle_count == mesh.spans.len()
                &&& forall|c: int|
                    0 <= c < mesh.resolution.cell_count() ==> #[trigger] grid.bucket(c) == bucket(
                        mesh.spans@,
                        mesh.resolution,
                        c,
                    )
            },
    {
        let res = mesh.resolution;
        if res.x == 0 || res.y == 0 || res.z == 0 {
            return Err(RenderError::InvalidScene);
        }
        proof {
            assert(res.x * res.y * res.z >= res.x * res.y) by (nonlinear_arith)
                requires
                    res.z >= 1,
                    res.x * res.y >= 0,
            ;
        }
        let floor = match res.x.checked_mul(res.y) {
            Some(v) => v,
            None => { return Err(RenderError::InvalidScene); },
        };
        let limit = match floor.checked_mul(res.z) {
            Some(v) => v,
            None => { return Err(RenderError::InvalidScene); },
        };
        assert(limit >= 1) by (nonlinear_arith)
            requires
                limit == res.x * res.y * res.z,
                res.x >= 1,
                res.y >= 1,
                res.z >= 1,
        ;
        let lists = match scatter(mesh, limit) {
            Some(l) => l,
            None => { return Err(RenderError::InvalidScene); },
        };
        let (cells, mapping_table) = flatten(&lists);
        let grid = AccGrid { cells, mapping_table, resolution: res, triangle_count: mesh.spans.len() };
        proof {
            let model = lists@.map_values(|l: Vec<usize>| l@);
            assert forall|c: int| 0 <= c < limit implies #[trigger] grid.bucket(c) == bucket(
                mesh.spans@,
                res,
                c,
            ) && grid.run_len(c) == model[c].len() && grid.run_end(c) == list_end(
                grid.cells@,
                model,
                c,
            ) by {
                assert(grid.cells[c].0 + 1 + model[c].len() <= grid.mapping_table.len());
                assert(model[c] == lists[c]@);
            }
            assert forall|c: int| 0 <= c < grid.cells.len() implies #[trigger] grid.run_end(c) == (if c
                + 1 < grid.cells.len() {
                grid.cells[c + 1].0 as int
            } else {
                grid.mapping_table.len() as int
            }) by {
                assert(grid.bucket(c) == bucket(mesh.spans@, res, c));
                assert(list_end(grid.cells@, model, c) == grid.run_end(c));
            }
            assert forall|c: int| 0 <= c < grid.cells.len() implies (#[trigger] grid.cells[c]).0
                < grid.mapping_table.len() by {
                assert(grid.cells[c].0 + 1 + model[c].len() <= grid.mapping_table.len());
            }
            assert(grid.cells[0].0 == 0);
            assert(grid.cells.len() == res.cell_count());
            assert forall|c: int, j: int|
                0 <= c < grid.cells.len() && 0 <= j < grid.run_len(c) implies (
            #[trigger] grid.mapping_table[grid.cells[c].0 + 1 + j]) < grid.triangle_count by {
                assert(grid.bucket(c)[j] == grid.mapping_table[grid.cells[c].0 + 1 + j]);
                lemma_bucket_bound(mesh.spans@, res, c, j);
            }
        }
        Ok(grid)
    }
}

} // verus!
