use vstd::prelude::*;
use crate::select::{closest, is_closest, none_within, Hit};

verus! {

/// What is rendered: the objects in the order in which they were added, the
/// lights, and the radiance of a ray that leaves the scene.  `O` is the type
/// of objects, `L` the type of lights and `C` the type of radiance values.
#[derive(Clone, Debug)]
pub struct Scene<O, L, C> {
    pub objects: Vec<O>,
    pub lights: Vec<L>,
    pub background: C,
}

impl<O, L, C> Scene<O, L, C> {
    /// `hits` is what `probe` answered for the objects of the scene, asked
    /// in scene order.
    pub open spec fn probed<P: Fn(&O) -> Option<Hit>>(&self, probe: P, hits: Seq<Option<Hit>>) -> bool {
        &&& hits.len() == self.objects.len()
        &&& forall|j: int|
            0 <= j < hits.len() ==> call_ensures(probe, (&self.objects[j],), #[trigger] hits[j])
    }

    /// `r` is the result of a closest-hit query: the object whose hit is the
    /// nearest below `limit`, the earlier of two equally near ones, together
    /// with that hit; or nothing, if no object is hit below `limit`.
    pub open spec fn found<P: Fn(&O) -> Option<Hit>>(
        &self,
        limit: u32,
        probe: P,
        r: Option<(&O, Hit)>,
    ) -> bool {
        exists|hits: Seq<Option<Hit>>|
            #[trigger] self.probed(probe, hits) && match r {
                Some((object, hit)) => exists|k: int|
                    {
                        &&& #[trigger] is_closest(hits, limit, k)
                        &&& hits[k] == Some(hit)
                        &&& *object == self.objects[k]
                    },
                None => none_within(hits, limit),
            }
    }

    /// A scene without objects or lights.
    pub fn new(background: C) -> (scene: Self)
        ensures
            scene.objects@.len() == 0,
            scene.lights@.len() == 0,
            scene.background == background,
    {
        Scene { objects: Vec::new(), lights: Vec::new(), background }
    }

    /// Finds the object that a ray hits first.  `probe` is asked for the
    /// ray's hit on each object, in scene order.
    pub fn intersect<P: Fn(&O) -> Option<Hit>>(&self, limit: u32, probe: &P) -> (r: Option<
        (&O, Hit),
    >)
        requires
            forall|o: &O| call_requires(*probe, (o,)),
        ensures
            self.found(limit, *probe, r),
    {
        let mut hits: Vec<Option<Hit>> = Vec::new();
        let mut i: usize = 0;
        while i < self.objects.len()
            invariant
                i <= self.objects.len(),
                hits.len() == i,
                forall|o: &O| call_requires(*probe, (o,)),
                forall|j: int|
                    0 <= j < i ==> call_ensures(*probe, (&self.objects[j],), #[trigger] hits@[j]),
            decreases self.objects.len() - i,
        {
            let hit = probe(&self.objects[i]);
            hits.push(hit);
            i += 1;
        }
        assert(self.probed(*probe, hits@));
        match closest(&hits, limit) {
            Some(k) => match hits[k] {
                Some(hit) => {
                    assert(is_closest(hits@, limit, k as int));
                    Some((&self.objects[k], hit))
                },
                None => None,
            },
            None => None,
        }
    }
}

} // verus!
