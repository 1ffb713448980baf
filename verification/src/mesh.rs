use vstd::prelude::*;
use crate::select::{closest, is_closest, none_within, Hit};

verus! {

/// A position in space.  Each coordinate is held as a rank: an integer that
/// orders coordinates as the real numbers they stand for are ordered.
#[derive(Clone, Copy, Debug, PartialEq, Eq, Structural)]
pub struct Point {
    pub x: u32,
    pub y: u32,
    pub z: u32,
}

/// An axis-aligned box, given by its least and its greatest corner.
#[derive(Clone, Copy, Debug, PartialEq, Eq, Structural)]
pub struct AABB {
    pub min: Point,
    pub max: Point,
}

/// The three corner positions of a triangle.
#[derive(Clone, Copy, Debug, PartialEq, Eq, Structural)]
pub struct Triangle(pub Point, pub Point, pub Point);

/// The smaller of two ranks.
pub open spec fn lower(a: u32, b: u32) -> u32 {
    if b < a {
        b
    } else {
        a
    }
}

/// The greater of two ranks.
pub open spec fn upper(a: u32, b: u32) -> u32 {
    if b > a {
        b
    } else {
        a
    }
}

impl AABB {
    /// The least corner is nowhere beyond the greatest.
    pub open spec fn wf(self) -> bool {
        self.min.x <= self.max.x && self.min.y <= self.max.y && self.min.z <= self.max.z
    }

    /// The point lies in the box.
    pub open spec fn contains(self, p: Point) -> bool {
        &&& self.min.x <= p.x <= self.max.x
        &&& self.min.y <= p.y <= self.max.y
        &&& self.min.z <= p.z <= self.max.z
    }

    /// The other box lies in this box.
    pub open spec fn encloses(self, other: AABB) -> bool {
        self.contains(other.min) && self.contains(other.max)
    }

    /// The smallest box around two boxes.
    pub open spec fn union(self, other: AABB) -> AABB {
        AABB {
            min: Point {
                x: lower(self.min.x, other.min.x),
                y: lower(self.min.y, other.min.y),
                z: lower(self.min.z, other.min.z),
            },
            max: Point {
                x: upper(self.max.x, other.max.x),
                y: upper(self.max.y, other.max.y),
                z: upper(self.max.z, other.max.z),
            },
        }
    }

    /// Computes the smallest box around two boxes.
    pub fn merge(self, other: AABB) -> (both: AABB)
        ensures
            both == self.union(other),
    {
        AABB {
            min: Point {
                x: least(self.min.x, other.min.x),
                y: least(self.min.y, other.min.y),
                z: least(self.min.z, other.min.z),
            },
            max: Point {
                x: greatest(self.max.x, other.max.x),
                y: greatest(self.max.y, other.max.y),
                z: greatest(self.max.z, other.max.z),
            },
        }
    }
}

fn least(a: u32, b: u32) -> (m: u32)
    ensures
        m == lower(a, b),
{
    if b < a {
        b
    } else {
        a
    }
}

fn greatest(a: u32, b: u32) -> (m: u32)
    ensures
        m == upper(a, b),
{
    if b > a {
        b
    } else {
        a
    }
}

impl Triangle {
    /// The smallest box around the three corners.
    pub open spec fn bounds(self) -> AABB {
        AABB {
            min: Point {
                x: lower(lower(self.0.x, self.1.x), self.2.x),
                y: lower(lower(self.0.y, self.1.y), self.2.y),
                z: lower(lower(self.0.z, self.1.z), self.2.z),
            },
            max: Point {
                x: upper(upper(self.0.x, self.1.x), self.2.x),
                y: upper(upper(self.0.y, self.1.y), self.2.y),
                z: upper(upper(self.0.z, self.1.z), self.2.z),
            },
        }
    }

    /// Computes the smallest box around the three corners.
    pub fn find_bounds(&self) -> (b: AABB)
        ensures
            b == self.bounds(),
            b.wf(),
            b.contains(self.0) && b.contains(self.1) && b.contains(self.2),
    {
        AABB {
            min: Point {
                x: least(least(self.0.x, self.1.x), self.2.x),
                y: least(least(self.0.y, self.1.y), self.2.y),
                z: least(least(self.0.z, self.1.z), self.2.z),
            },
            max: Point {
                x: greatest(greatest(self.0.x, self.1.x), self.2.x),
                y: greatest(greatest(self.0.y, self.1.y), self.2.y),
                z: greatest(greatest(self.0.z, self.1.z), self.2.z),
            },
        }
    }
}

/// The smallest box around the triangles, which must not be empty.
pub open spec fn mesh_bounds(triangles: Seq<Triangle>) -> AABB
    decreases triangles.len(),
{
    if triangles.len() <= 1 {
        triangles[0].bounds()
    } else {
        mesh_bounds(triangles.drop_last()).union(triangles.last().bounds())
    }
}

/// Law: the bounds of a mesh are a box that encloses the bounds of every
/// triangle, and so every corner of the mesh.
pub proof fn lemma_mesh_bounds_enclose(triangles: Seq<Triangle>, i: int)
    requires
        0 <= i < triangles.len(),
    ensures
        mesh_bounds(triangles).wf(),
        mesh_bounds(triangles).encloses(triangles[i].bounds()),
        mesh_bounds(triangles).contains(triangles[i].0),
        mesh_bounds(triangles).contains(triangles[i].1),
        mesh_bounds(triangles).contains(triangles[i].2),
    decreases triangles.len(),
{
    if triangles.len() > 1 {
        let rest = triangles.drop_last();
        if i < rest.len() {
            lemma_mesh_bounds_enclose(rest, i);
        } else {
            lemma_mesh_bounds_enclose(rest, 0);
        }
    }
}

/// Law: the bounds of a mesh are tight.  Each face of the box touches a
/// corner of some triangle.
pub proof fn lemma_mesh_bounds_tight(triangles: Seq<Triangle>)
    requires
        triangles.len() > 0,
    ensures
        ({
            let b = mesh_bounds(triangles);
            &&& exists|i: int| 0 <= i < triangles.len() && (#[trigger] triangles[i]).bounds().min.x == b.min.x
            &&& exists|i: int| 0 <= i < triangles.len() && (#[trigger] triangles[i]).bounds().min.y == b.min.y
            &&& exists|i: int| 0 <= i < triangles.len() && (#[trigger] triangles[i]).bounds().min.z == b.min.z
            &&& exists|i: int| 0 <= i < triangles.len() && (#[trigger] triangles[i]).bounds().max.x == b.max.x
            &&& exists|i: int| 0 <= i < triangles.len() && (#[trigger] triangles[i]).bounds().max.y == b.max.y
            &&& exists|i: int| 0 <= i < triangles.len() && (#[trigger] triangles[i]).bounds().max.z == b.max.z
        }),
    decreases triangles.len(),
{
    let b = mesh_bounds(triangles);
    let last = triangles.len() - 1;
    if triangles.len() > 1 {
        let rest = triangles.drop_last();
        let r = mesh_bounds(rest);
        lemma_mesh_bounds_tight(rest);
        let ax = choose|i: int| 0 <= i < rest.len() && (#[trigger] rest[i]).bounds().min.x == r.min.x;
        let ay = choose|i: int| 0 <= i < rest.len() && (#[trigger] rest[i]).bounds().min.y == r.min.y;
        let az = choose|i: int| 0 <= i < rest.len() && (#[trigger] rest[i]).bounds().min.z == r.min.z;
        let bx = choose|i: int| 0 <= i < rest.len() && (#[trigger] rest[i]).bounds().max.x == r.max.x;
        let by = choose|i: int| 0 <= i < rest.len() && (#[trigger] rest[i]).bounds().max.y == r.max.y;
        let bz = choose|i: int| 0 <= i < rest.len() && (#[trigger] rest[i]).bounds().max.z == r.max.z;
        assert(rest[ax] == triangles[ax] && rest[ay] == triangles[ay] && rest[az] == triangles[az]);
        assert(rest[bx] == triangles[bx] && rest[by] == triangles[by] && rest[bz] == triangles[bz]);
        let t = triangles[last].bounds();
        assert(triangles[if b.min.x == t.min.x { last } else { ax }].bounds().min.x == b.min.x);
        assert(triangles[if b.min.y == t.min.y { last } else { ay }].bounds().min.y == b.min.y);
        assert(triangles[if b.min.z == t.min.z { last } else { az }].bounds().min.z == b.min.z);
        assert(triangles[if b.max.x == t.max.x { last } else { bx }].bounds().max.x == b.max.x);
        assert(triangles[if b.max.y == t.max.y { last } else { by }].bounds().max.y == b.max.y);
        assert(triangles[if b.max.z == t.max.z { last } else { bz }].bounds().max.z == b.max.z);
    } else {
        assert(triangles[0].bounds() == b);
    }
}

/// The smallest box around all triangles of a mesh; a mesh without
/// triangles has none.
pub fn find_mesh_bounds(triangles: &Vec<Triangle>) -> (r: Option<AABB>)
    ensures
        r == (if triangles.len() == 0 {
            None
        } else {
            Some(mesh_bounds(triangles@))
        }),
{
    if triangles.len() == 0 {
        return None;
    }
    let mut bounds = triangles[0].find_bounds();
    let mut i: usize = 1;
    assert(triangles@.take(1).len() == 1);
    while i < triangles.len()
        invariant
            1 <= i <= triangles.len(),
            bounds == mesh_bounds(triangles@.take(i as int)),
        decreases triangles.len() - i,
    {
        let ghost upto = triangles@.take(i + 1);
        assert(upto.drop_last() =~= triangles@.take(i as int));
        bounds = bounds.merge(triangles[i].find_bounds());
        i += 1;
    }
    assert(triangles@.take(i as int) =~= triangles@);
    Some(bounds)
}

/// A triangle mesh: its triangles and the smallest box around them, which a
/// mesh without triangles does not have.  `T` is the type of triangles.
#[derive(Clone, Debug)]
pub struct Mesh<T> {
    pub triangles: Vec<T>,
    pub bounding_box: Option<AABB>,
}

impl<T> Mesh<T> {
    /// `corners` is what `locate` answered for the triangles, asked in mesh
    /// order.
    pub open spec fn located<K: Fn(&T) -> Triangle>(
        triangles: Seq<T>,
        locate: K,
        corners: Seq<Triangle>,
    ) -> bool {
        &&& corners.len() == triangles.len()
        &&& forall|j: int|
            0 <= j < corners.len() ==> call_ensures(locate, (&triangles[j],), #[trigger] corners[j])
    }

    /// `hits` is what `probe` answered for the triangles of the mesh, asked
    /// in mesh order.
    pub open spec fn probed<P: Fn(&T) -> Option<Hit>>(&self, probe: P, hits: Seq<Option<Hit>>) -> bool {
        &&& hits.len() == self.triangles.len()
        &&& forall|j: int|
            0 <= j < hits.len() ==> call_ensures(probe, (&self.triangles[j],), #[trigger] hits[j])
    }

    /// Makes a mesh of the triangles.  `locate` is asked for the corners of
    /// each triangle, in mesh order, and the bounds are those of all corners.
    pub fn new<K: Fn(&T) -> Triangle>(triangles: Vec<T>, locate: &K) -> (mesh: Self)
        requires
            forall|t: &T| call_requires(*locate, (t,)),
        ensures
            mesh.triangles == triangles,
            exists|corners: Seq<Triangle>|
                #[trigger] Self::located(triangles@, *locate, corners) && mesh.bounding_box == (
                if corners.len() == 0 {
                    None
                } else {
                    Some(mesh_bounds(corners))
                }),
    {
        let mut corners: Vec<Triangle> = Vec::new();
        let mut i: usize = 0;
        while i < triangles.len()
            invariant
                i <= triangles.len(),
                corners.len() == i,
                forall|t: &T| call_requires(*locate, (t,)),
                forall|j: int|
                    0 <= j < i ==> call_ensures(*locate, (&triangles[j],), #[trigger] corners@[j]),
            decreases triangles.len() - i,
        {
            let found = locate(&triangles[i]);
            corners.push(found);
            i += 1;
        }
        assert(Self::located(triangles@, *locate, corners@));
        let bounding_box = find_mesh_bounds(&corners);
        Mesh { triangles, bounding_box }
    }

    /// `moved` is what `shift` answered for the triangles, asked in mesh
    /// order.
    pub open spec fn shifted<M: Fn(T) -> T>(triangles: Seq<T>, shift: M, moved: Seq<T>) -> bool {
        &&& moved.len() == triangles.len()
        &&& forall|j: int|
            0 <= j < moved.len() ==> call_ensures(shift, (triangles[j],), #[trigger] moved[j])
    }

    /// Moves the mesh: every triangle is replaced by what `shift` makes of
    /// it, and the bounds are found again as in [`Mesh::new`].
    pub fn bake_transform<M: Fn(T) -> T, K: Fn(&T) -> Triangle>(self, shift: &M, locate: &K) -> (mesh:
        Self)
        requires
            forall|t: T| call_requires(*shift, (t,)),
            forall|t: &T| call_requires(*locate, (t,)),
        ensures
            Self::shifted(self.triangles@, *shift, mesh.triangles@),
            exists|corners: Seq<Triangle>|
                #[trigger] Self::located(mesh.triangles@, *locate, corners) && mesh.bounding_box
                    == (if corners.len() == 0 {
                    None
                } else {
                    Some(mesh_bounds(corners))
                }),
    {
        let ghost before = self.triangles@;
        let mut moved: Vec<T> = Vec::new();
        for triangle in iter: self.triangles
            invariant
                iter.seq() == before,
                forall|t: T| call_requires(*shift, (t,)),
                moved.len() == iter.index(),
                forall|j: int|
                    0 <= j < moved.len() ==> call_ensures(*shift, (before[j],), #[trigger] moved@[j]),
        {
            let shifted = shift(triangle);
            moved.push(shifted);
        }
        Mesh::new(moved, locate)
    }

    /// Finds the triangle that a ray hits first.  `probe` is asked for the
    /// ray's hit on each triangle, in mesh order; the nearest hit below `limit`
    /// is reported, the earlier of two equally near ones, with the index of
    /// its triangle as the part that was hit.
    pub fn intersects<P: Fn(&T) -> Option<Hit>>(&self, limit: u32, probe: &P) -> (r: Option<Hit>)
        requires
            forall|t: &T| call_requires(*probe, (t,)),
        ensures
            exists|hits: Seq<Option<Hit>>|
                #[trigger] self.probed(*probe, hits) && match r {
                    Some(hit) => is_closest(hits, limit, hit.subobject_index as int)
                        && hit.distance == hits[hit.subobject_index as int]->Some_0.distance,
                    None => none_within(hits, limit),
                },
    {
        let mut hits: Vec<Option<Hit>> = Vec::new();
        let mut i: usize = 0;
        while i < self.triangles.len()
            invariant
                i <= self.triangles.len(),
                hits.len() == i,
                forall|t: &T| call_requires(*probe, (t,)),
                forall|j: int|
                    0 <= j < i ==> call_ensures(*probe, (&self.triangles[j],), #[trigger] hits@[j]),
            decreases self.triangles.len() - i,
        {
            let hit = probe(&self.triangles[i]);
            hits.push(hit);
            i += 1;
        }
        assert(self.probed(*probe, hits@));
        match closest(&hits, limit) {
            Some(k) => match hits[k] {
                Some(hit) => Some(Hit::with_child(hit.distance, k)),
                None => None,
            },
            None => None,
        }
    }

    /// The triangle that a hit names, if the mesh has it.
    pub fn triangle(&self, hit: Hit) -> (r: Option<&T>)
        ensures
            r == (if hit.subobject_index < self.triangles.len() {
                Some(&self.triangles[hit.subobject_index as int])
            } else {
                None
            }),
    {
        if hit.subobject_index < self.triangles.len() {
            Some(&self.triangles[hit.subobject_index])
        } else {
            None
        }
    }
}

} // verus!
