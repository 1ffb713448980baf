use vstd::prelude::*;

verus! {

/// An intersection of a ray with an object, as far as choosing between
/// intersections is concerned.  `distance` ranks the hit: it is an integer
/// that orders hits as their distances along the ray do.  `subobject_index`
/// names the part of a composite object that was hit, such as a triangle of a
/// mesh, and is zero for simple objects.
#[derive(Clone, Copy, Debug, PartialEq, Eq, Structural)]
pub struct Hit {
    pub distance: u32,
    pub subobject_index: usize,
}

impl Hit {
    /// A hit on a simple object.
    pub fn new(distance: u32) -> (hit: Hit)
        ensures
            hit == (Hit { distance, subobject_index: 0 }),
    {
        Hit { distance, subobject_index: 0 }
    }

    /// A hit on part `subobject_index` of a composite object.
    pub fn with_child(distance: u32, subobject_index: usize) -> (hit: Hit)
        ensures
            hit == (Hit { distance, subobject_index }),
    {
        Hit { distance, subobject_index }
    }
}

/// Entry `k` holds the hit that a closest-hit search reports: a hit nearer
/// than `limit`, not farther than any other hit, and strictly nearer than
/// every hit before it.
pub open spec fn is_closest(hits: Seq<Option<Hit>>, limit: u32, k: int) -> bool {
    &&& 0 <= k < hits.len()
    &&& hits[k] is Some
    &&& hits[k]->Some_0.distance < limit
    &&& forall|j: int|
        0 <= j < hits.len() && (#[trigger] hits[j]) is Some ==> hits[k]->Some_0.distance
            <= hits[j]->Some_0.distance
    &&& forall|j: int|
        0 <= j < k && (#[trigger] hits[j]) is Some ==> hits[k]->Some_0.distance
            < hits[j]->Some_0.distance
}

/// No entry holds a hit nearer than `limit`.
pub open spec fn none_within(hits: Seq<Option<Hit>>, limit: u32) -> bool {
    forall|j: int|
        0 <= j < hits.len() && (#[trigger] hits[j]) is Some ==> hits[j]->Some_0.distance >= limit
}

/// Law: a closest-hit search has one answer.
pub proof fn lemma_closest_unique(hits: Seq<Option<Hit>>, limit: u32, a: int, b: int)
    requires
        is_closest(hits, limit, a),
        is_closest(hits, limit, b),
    ensures
        a == b,
{
    if a < b {
        assert(hits[a] is Some);
    } else if b < a {
        assert(hits[b] is Some);
    }
}

/// Finds the nearest of the given hits that lies nearer than `limit`.  Among
/// equally near hits the first one wins.
pub fn closest(hits: &Vec<Option<Hit>>, limit: u32) -> (r: Option<usize>)
    ensures
        match r {
            Some(k) => is_closest(hits@, limit, k as int),
            None => none_within(hits@, limit),
        },
{
    let mut best: Option<usize> = None;
    let mut bound: u32 = limit;
    let mut i: usize = 0;
    while i < hits.len()
        invariant
            i <= hits.len(),
            bound <= limit,
            match best {
                Some(k) => is_closest(hits@.take(i as int), limit, k as int) && bound
                    == hits[k as int]->Some_0.distance,
                None => none_within(hits@.take(i as int), limit) && bound == limit,
            },
        decreases hits.len() - i,
    {
        let ghost seen = hits@.take(i as int);
        let ghost next = hits@.take(i + 1);
        assert(forall|j: int| 0 <= j < i ==> seen[j] == next[j]);
        match hits[i] {
            Some(hit) => {
                if hit.distance < bound {
                    best = Some(i);
                    bound = hit.distance;
                    assert forall|j: int| 0 <= j < i && (#[trigger] next[j]) is Some implies next[i as int]->Some_0.distance
                        < next[j]->Some_0.distance by {
                        assert(seen[j] is Some);
                    }
                }
            },
            None => {},
        }
        assert(match best {
            Some(k) => is_closest(next, limit, k as int),
            None => none_within(next, limit),
        }) by {
            assert forall|j: int| 0 <= j < i + 1 && (#[trigger] next[j]) is Some implies (j < i
                ==> seen[j] is Some) by {}
        }
        i += 1;
    }
    assert(hits@.take(i as int) =~= hits@);
    best
}

} // verus!
