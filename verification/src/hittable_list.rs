//! The scene as an ordered list of objects, and the choice of the hit that
//! is nearest along a ray.
//!
//! Where a ray meets an object is a matter of geometry and is computed by
//! the caller. What arrives here are ray parameters as order keys: unsigned
//! numbers that compare as the parameters do (the module `key` makes them).
//! A ray meets a closed surface at two parameters or not at all; of the two,
//! the one that counts is the smaller one inside the open interval that is
//! asked for, and of all objects the one with the smallest such parameter
//! wins, the earlier object where two are equally near.

use vstd::prelude::*;

verus! {

/// The two parameters at which a ray meets an object, as order keys.
#[derive(Debug, Clone, Copy, PartialEq, Eq, Structural)]
pub struct Roots {
    pub near: u64,
    pub far: u64,
}

impl Roots {
    pub fn new(near: u64, far: u64) -> (roots: Self)
        ensures
            roots == (Roots { near, far }),
    {
        Roots { near, far }
    }

    /// The smaller of the two parameters.
    pub open spec fn smaller(self) -> u64 {
        if self.near <= self.far {
            self.near
        } else {
            self.far
        }
    }

    /// The larger of the two parameters.
    pub open spec fn larger(self) -> u64 {
        if self.near <= self.far {
            self.far
        } else {
            self.near
        }
    }

    /// The parameter at which the ray hits within the open interval from
    /// `t_min` to `t_max`: the smaller parameter if it lies inside, else the
    /// larger if that lies inside, else none.
    pub open spec fn first_within(self, t_min: u64, t_max: u64) -> Option<u64> {
        if within(self.smaller(), t_min, t_max) {
            Some(self.smaller())
        } else if within(self.larger(), t_min, t_max) {
            Some(self.larger())
        } else {
            None
        }
    }

    /// The parameter at which the ray hits within the open interval from
    /// `t_min` to `t_max`, if it does.
    pub fn select(&self, t_min: u64, t_max: u64) -> (t: Option<u64>)
        ensures
            t == self.first_within(t_min, t_max),
    {
        let (smaller, larger) = if self.near <= self.far {
            (self.near, self.far)
        } else {
            (self.far, self.near)
        };
        if t_min < smaller && smaller < t_max {
            Some(smaller)
        } else if t_min < larger && larger < t_max {
            Some(larger)
        } else {
            None
        }
    }
}

/// Whether `t` lies strictly between `t_min` and `t_max`.
pub open spec fn within(t: u64, t_min: u64, t_max: u64) -> bool {
    t_min < t < t_max
}

/// The parameter at which a ray hits an object within the open interval
/// from `t_min` to `t_max`; none for an object that the ray misses.
pub open spec fn hit_at(candidate: Option<Roots>, t_min: u64, t_max: u64) -> Option<u64> {
    match candidate {
        Some(roots) => roots.first_within(t_min, t_max),
        None => None,
    }
}

/// No object is hit within the interval.
pub open spec fn no_hit(candidates: Seq<Option<Roots>>, t_min: u64, t_max: u64) -> bool {
    forall|i: int|
        0 <= i < candidates.len() ==> hit_at(#[trigger] candidates[i], t_min, t_max) is None
}

/// Object `index` is hit at `t`, no object is hit at a smaller parameter,
/// and no earlier object at the same.
pub open spec fn is_nearest(
    candidates: Seq<Option<Roots>>,
    t_min: u64,
    t_max: u64,
    index: int,
    t: u64,
) -> bool {
    &&& 0 <= index < candidates.len()
    &&& hit_at(candidates[index], t_min, t_max) == Some(t)
    &&& forall|i: int|
        0 <= i < candidates.len() ==> (hit_at(#[trigger] candidates[i], t_min, t_max) matches Some(
            other,
        ) ==> t < other || (t == other && index <= i))
}

/// The nearest hit of a ray: which object, and at which parameter.
#[derive(Debug, Clone, Copy, PartialEq, Eq, Structural)]
pub struct NearestHit {
    pub index: usize,
    pub t: u64,
}

/// What a search for the nearest hit has to return.
pub open spec fn nearest_found(
    candidates: Seq<Option<Roots>>,
    t_min: u64,
    t_max: u64,
    found: Option<NearestHit>,
) -> bool {
    match found {
        Some(hit) => is_nearest(candidates, t_min, t_max, hit.index as int, hit.t),
        None => no_hit(candidates, t_min, t_max),
    }
}

/// Narrowing the interval from above keeps the hits below the new bound
/// and drops the others.
pub proof fn lemma_narrowed_hit(roots: Roots, t_min: u64, bound: u64, t_max: u64)
    requires
        bound <= t_max,
    ensures
        roots.first_within(t_min, bound) == match roots.first_within(t_min, t_max) {
            Some(t) => if t < bound {
                Some(t)
            } else {
                None
            },
            None => None,
        },
{
}

/// Scans the first `limit` candidates for the nearest hit, narrowing the
/// interval to the best parameter found so far.
fn scan(candidates: &Vec<Option<Roots>>, limit: usize, t_min: u64, t_max: u64) -> (found: Option<
    NearestHit,
>)
    requires
        limit <= candidates.len(),
    ensures
        nearest_found(candidates@.take(limit as int), t_min, t_max, found),
{
    let mut closest: Option<NearestHit> = None;
    let mut i: usize = 0;
    while i < limit
        invariant
            i <= limit <= candidates.len(),
            nearest_found(candidates@.take(i as int), t_min, t_max, closest),
            closest matches Some(hit) ==> hit.t < t_max,
        decreases limit - i,
    {
        let closest_so_far: u64 = match closest {
            Some(hit) => hit.t,
            None => t_max,
        };
        let ghost seen = candidates@.take(i as int);
        let ghost next = candidates@.take(i + 1);
        proof {
            assert(next =~= seen.push(candidates@[i as int]));
            assert forall|k: int| 0 <= k < i implies next[k] == seen[k] by {}
            if let Some(roots) = candidates@[i as int] {
                lemma_narrowed_hit(roots, t_min, closest_so_far, t_max);
            }
        }
        match &candidates[i] {
            Some(roots) => {
                match roots.select(t_min, closest_so_far) {
                    Some(t) => {
                        closest = Some(NearestHit { index: i, t });
                        proof {
                            assert forall|k: int| 0 <= k < next.len() implies (hit_at(
                                #[trigger] next[k],
                                t_min,
                                t_max,
                            ) matches Some(other) ==> t < other || (t == other && i <= k)) by {
                                if k < i {
                                    assert(next[k] == seen[k]);
                                }
                            }
                        }
                    },
                    None => {
                        proof {
                            lemma_unchanged_by_miss(seen, next, t_min, t_max, closest);
                        }
                    },
                }
            },
            None => {
                proof {
                    lemma_unchanged_by_miss(seen, next, t_min, t_max, closest);
                }
            },
        }
        i = i + 1;
    }
    closest
}

/// One more object that is not hit nearer than the best so far leaves the
/// best as it is.
proof fn lemma_unchanged_by_miss(
    seen: Seq<Option<Roots>>,
    next: Seq<Option<Roots>>,
    t_min: u64,
    t_max: u64,
    closest: Option<NearestHit>,
)
    requires
        next.len() == seen.len() + 1,
        forall|k: int| 0 <= k < seen.len() ==> next[k] == seen[k],
        nearest_found(seen, t_min, t_max, closest),
        match closest {
            Some(hit) => hit_at(next.last(), t_min, t_max) matches Some(other) ==> hit.t <= other,
            None => hit_at(next.last(), t_min, t_max) is None,
        },
    ensures
        nearest_found(next, t_min, t_max, closest),
{
    match closest {
        Some(hit) => {
            assert forall|k: int| 0 <= k < next.len() implies (hit_at(
                #[trigger] next[k],
                t_min,
                t_max,
            ) matches Some(other) ==> hit.t < other || (hit.t == other && hit.index <= k)) by {
                if k < seen.len() {
                    assert(next[k] == seen[k]);
                }
            }
            assert(next[hit.index as int] == seen[hit.index as int]);
        },
        None => {
            assert forall|k: int| 0 <= k < next.len() implies hit_at(
                #[trigger] next[k],
                t_min,
                t_max,
            ) is None by {
                if k < seen.len() {
                    assert(next[k] == seen[k]);
                }
            }
        },
    }
}

/// Finds the nearest hit of a ray among the objects whose intersections
/// are `candidates`, within the open interval from `t_min` to `t_max`.
pub fn nearest_hit(candidates: &Vec<Option<Roots>>, t_min: u64, t_max: u64) -> (found: Option<
    NearestHit,
>)
    ensures
        nearest_found(candidates@, t_min, t_max, found),
{
    assert(candidates@.take(candidates.len() as int) =~= candidates@);
    scan(candidates, candidates.len(), t_min, t_max)
}

/// The candidates that have an object to go with them.
pub open spec fn matched<T>(objects: Seq<T>, candidates: Seq<Option<Roots>>) -> Seq<
    Option<Roots>,
> {
    if candidates.len() <= objects.len() {
        candidates
    } else {
        candidates.take(objects.len() as int)
    }
}

/// The objects of a scene, in the order in which they were added.
pub struct HittableList<T> {
    items: Vec<T>,
}

impl<T> View for HittableList<T> {
    type V = Seq<T>;

    closed spec fn view(&self) -> Seq<T> {
        self.items@
    }
}

impl<T> HittableList<T> {
    /// A scene without objects.
    pub fn new() -> (list: Self)
        ensures
            list@ == Seq::<T>::empty(),
    {
        HittableList { items: Vec::new() }
    }

    /// Adds an object after those already there.
    pub fn add(&mut self, obj: T)
        ensures
            final(self)@ == old(self)@.push(obj),
    {
        self.items.push(obj);
    }

    /// Removes every object.
    pub fn clear(&mut self)
        ensures
            final(self)@ == Seq::<T>::empty(),
    {
        self.items.clear();
    }

    /// The number of objects.
    pub fn len(&self) -> (n: usize)
        ensures
            n == self@.len(),
    {
        self.items.len()
    }

    /// The object at position `index`, if there is one.
    pub fn get(&self, index: usize) -> (obj: Option<&T>)
        ensures
            obj == if index < self@.len() {
                Some(&self@[index as int])
            } else {
                None
            },
    {
        if index < self.items.len() {
            Some(&self.items[index])
        } else {
            None
        }
    }

    /// Finds the object that a ray hits first within the open interval from
    /// `t_min` to `t_max`, and the parameter of that hit.
    ///
    /// `candidates` holds, for every object in order, where the ray meets
    /// it. A candidate without an object is ignored, and an object without a
    /// candidate counts as missed.
    pub fn hit(&self, candidates: &Vec<Option<Roots>>, t_min: u64, t_max: u64) -> (found: Option<
        (&T, NearestHit),
    >)
        ensures
            nearest_found(
                matched(self@, candidates@),
                t_min,
                t_max,
                match found {
                    Some((_, hit)) => Some(hit),
                    None => None,
                },
            ),
            found matches Some((obj, hit)) ==> hit.index < self@.len() && *obj
                == self@[hit.index as int],
    {
        let limit = if candidates.len() <= self.items.len() {
            candidates.len()
        } else {
            self.items.len()
        };
        assert(candidates@.take(limit as int) =~= matched(self@, candidates@));
        match scan(candidates, limit, t_min, t_max) {
            Some(hit) => Some((&self.items[hit.index], hit)),
            None => None,
        }
    }
}

/// There is at most one nearest hit.
pub proof fn lemma_nearest_is_unique(
    candidates: Seq<Option<Roots>>,
    t_min: u64,
    t_max: u64,
    first: (int, u64),
    second: (int, u64),
)
    requires
        is_nearest(candidates, t_min, t_max, first.0, first.1),
        is_nearest(candidates, t_min, t_max, second.0, second.1),
    ensures
        first == second,
{
    assert(hit_at(candidates[first.0], t_min, t_max) == Some(first.1));
    assert(hit_at(candidates[second.0], t_min, t_max) == Some(second.1));
}

/// The parameter of the nearest hit does not depend on the order of the
/// objects; and where one object is strictly nearer than every other, that
/// object is found whatever the order.
pub proof fn lemma_nearest_independent_of_order(
    a: Seq<Option<Roots>>,
    b: Seq<Option<Roots>>,
    t_min: u64,
    t_max: u64,
    in_a: (int, u64),
    in_b: (int, u64),
)
    requires
        a.to_multiset() == b.to_multiset(),
        is_nearest(a, t_min, t_max, in_a.0, in_a.1),
        is_nearest(b, t_min, t_max, in_b.0, in_b.1),
    ensures
        in_a.1 == in_b.1,
        (forall|i: int|
            0 <= i < a.len() && i != in_a.0 ==> hit_at(#[trigger] a[i], t_min, t_max) != Some(
                in_a.1,
            )) ==> a[in_a.0] == b[in_b.0],
{
    broadcast use vstd::seq_lib::group_to_multiset_ensures;

    let x = a[in_a.0];
    let y = b[in_b.0];
    assert(a.contains(x));
    assert(a.to_multiset().count(x) > 0);
    assert(b.contains(x));
    let k = choose|k: int| 0 <= k < b.len() && b[k] == x;
    assert(hit_at(b[k], t_min, t_max) == Some(in_a.1));
    assert(b.contains(y));
    assert(b.to_multiset().count(y) > 0);
    assert(a.contains(y));
    let l = choose|l: int| 0 <= l < a.len() && a[l] == y;
    assert(hit_at(a[l], t_min, t_max) == Some(in_b.1));
}

/// Of two objects that a ray hits, the nearer one is found, whichever was
/// added first.
pub proof fn lemma_nearer_of_two(nearer: Roots, farther: Roots, t_min: u64, t_max: u64)
    requires
        nearer.first_within(t_min, t_max) matches Some(t) && farther.first_within(t_min, t_max)
            matches Some(u) && t < u,
    ensures
        is_nearest(
            seq![Some(nearer), Some(farther)],
            t_min,
            t_max,
            0,
            nearer.first_within(t_min, t_max)->0,
        ),
        is_nearest(
            seq![Some(farther), Some(nearer)],
            t_min,
            t_max,
            1,
            nearer.first_within(t_min, t_max)->0,
        ),
{
}

/// A search that stops short of the nearest hit finds nothing: if the
/// nearest hit within a wide interval is at `t`, then within any interval
/// that ends at or before `t` no object is hit.
pub proof fn lemma_no_hit_below_nearest(
    candidates: Seq<Option<Roots>>,
    t_min: u64,
    t_max: u64,
    nearest: (int, u64),
    bound: u64,
)
    requires
        is_nearest(candidates, t_min, t_max, nearest.0, nearest.1),
        bound <= nearest.1,
    ensures
        no_hit(candidates, t_min, bound),
{
    assert(hit_at(candidates[nearest.0], t_min, t_max) == Some(nearest.1));
    assert forall|i: int| 0 <= i < candidates.len() implies hit_at(
        #[trigger] candidates[i],
        t_min,
        bound,
    ) is None by {
        if let Some(roots) = candidates[i] {
            lemma_narrowed_hit(roots, t_min, bound, t_max);
            assert(hit_at(candidates[i], t_min, t_max) matches Some(other) ==> nearest.1 <= other);
        }
    }
}

} // verus!
