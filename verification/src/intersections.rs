//! Intersections of one ray with the objects of a scene, and the choice of
//! the visible one.
//!
//! A distance along the ray is an integer key: a larger key is a larger
//! distance, and a negative key lies behind the ray's origin. Objects are
//! named by their position in the scene's object list.

use vstd::prelude::*;
use crate::key::ONE;

verus! {

/// The key that stands for "no distance": it lies beyond every hit.
pub const NO_HIT: i64 = 0x7fff_ffff_ffff_ffff;

/// One crossing of a ray with the surface of an object.
#[derive(Copy, Clone, Debug, PartialEq, Eq)]
pub struct Intersection {
    /// Distance key along the ray.
    pub t: i64,
    /// The object that was crossed, as an index into the scene's objects.
    pub object: usize,
    /// Surface coordinates of the crossing, for geometry that reports them.
    /// They are carried along and never read here.
    pub uv: Option<(u32, u32)>,
}

impl Intersection {
    /// An intersection at distance `t` with object `object`.
    pub fn new(t: i64, object: usize, uv: Option<(u32, u32)>) -> (i: Intersection)
        ensures
            i.t == t,
            i.object == object,
            i.uv == uv,
    {
        Intersection { t, object, uv }
    }
}

/// Whether a distance can be a hit: in front of the origin and short of
/// [`NO_HIT`].
pub open spec fn is_candidate(t: i64) -> bool {
    0 <= t < NO_HIT
}

/// The distances of a list of intersections, in the order of the list.
pub open spec fn distances(xs: Seq<Intersection>) -> Seq<i64> {
    xs.map_values(|x: Intersection| x.t)
}

/// What [`hit`] returns for `xs`: the least candidate distance, the first
/// position that has it, and `true`; or `(NO_HIT, 0, false)` where no
/// distance is a candidate.
pub open spec fn is_hit_of(xs: Seq<Intersection>, r: (i64, usize, bool)) -> bool {
    &&& r.2 <==> exists|i: int| 0 <= i < xs.len() && is_candidate(#[trigger] xs[i].t)
    &&& r.2 ==> {
        &&& r.1 < xs.len()
        &&& r.0 == xs[r.1 as int].t
        &&& is_candidate(r.0)
        &&& forall|j: int| 0 <= j < xs.len() && is_candidate(#[trigger] xs[j].t) ==> r.0 <= xs[j].t
        &&& forall|j: int| 0 <= j < r.1 ==> (#[trigger] xs[j]).t != r.0
    }
    &&& !r.2 ==> r.0 == NO_HIT && r.1 == 0
}

/// The visible intersection of `xs`, found by looking at one entry after
/// the other: an entry takes the place of the one found so far when its
/// distance is not negative and lower.
pub open spec fn spec_hit(xs: Seq<Intersection>) -> (i64, usize, bool)
    decreases xs.len(),
{
    if xs.len() == 0 {
        (NO_HIT, 0, false)
    } else {
        let before = spec_hit(xs.drop_last());
        let t = xs.last().t;
        if 0 <= t && t < before.0 {
            (t, (xs.len() - 1) as usize, true)
        } else {
            before
        }
    }
}

/// What [`spec_hit`] finds is the least candidate distance, at the first
/// position that has it.
pub proof fn lemma_spec_hit(xs: Seq<Intersection>)
    requires
        xs.len() <= usize::MAX,
    ensures
        is_hit_of(xs, spec_hit(xs)),
    decreases xs.len(),
{
    if xs.len() > 0 {
        let head = xs.drop_last();
        let before = spec_hit(head);
        let r = spec_hit(xs);
        let t = xs.last().t;
        lemma_spec_hit(head);
        assert forall|j: int| 0 <= j < head.len() implies head[j] == xs[j] by {}
        if 0 <= t && t < before.0 {
            assert(is_candidate(xs[xs.len() - 1].t));
            assert forall|j: int| 0 <= j < xs.len() && is_candidate(#[trigger] xs[j].t) implies t
                <= xs[j].t by {
                if j < head.len() {
                    assert(is_candidate(head[j].t));
                }
            }
            assert forall|j: int| 0 <= j < r.1 implies (#[trigger] xs[j]).t != t by {
                if is_candidate(xs[j].t) {
                    assert(is_candidate(head[j].t));
                }
            }
        } else {
            if before.2 {
                assert(is_candidate(xs[before.1 as int].t));
                assert forall|j: int|
                    0 <= j < xs.len() && is_candidate(#[trigger] xs[j].t) implies before.0
                    <= xs[j].t by {
                    if j < head.len() {
                        assert(is_candidate(head[j].t));
                    }
                }
                assert forall|j: int| 0 <= j < before.1 implies (#[trigger] xs[j]).t
                    != before.0 by {
                    assert(head[j].t != before.0);
                }
            } else {
                assert forall|j: int| 0 <= j < xs.len() implies !is_candidate(
                    #[trigger] xs[j].t,
                ) by {
                    if j < head.len() {
                        assert(!is_candidate(head[j].t));
                    }
                }
            }
        }
    }
}

/// The visible intersection of a list: the one with the lowest
/// non-negative distance, the earliest in the list among equals.
///
/// Returns the distance, the position in the list, and whether there is a
/// hit at all; without a hit the distance is [`NO_HIT`] and the position
/// zero. Intersections behind the origin are passed over, not removed: the
/// list is left as it is.
pub fn hit(xs: &Vec<Intersection>) -> (r: (i64, usize, bool))
    ensures
        r == spec_hit(xs@),
        is_hit_of(xs@, r),
{
    let mut min: i64 = NO_HIT;
    let mut index: usize = 0;
    let mut found = false;
    let mut i: usize = 0;
    while i < xs.len()
        invariant
            i <= xs.len(),
            (min, index, found) == spec_hit(xs@.take(i as int)),
        decreases xs.len() - i,
    {
        assert(xs@.take(i + 1).drop_last() =~= xs@.take(i as int));
        let t = xs[i].t;
        if t >= 0 && t < min {
            min = t;
            found = true;
            index = i;
        }
        i += 1;
    }
    proof {
        assert(xs@.take(i as int) =~= xs@);
        lemma_spec_hit(xs@);
    }
    (min, index, found)
}

/// The contract of [`hit`] leaves no choice: two results that meet it for
/// one list are the same.
pub proof fn lemma_hit_is_unique(xs: Seq<Intersection>, a: (i64, usize, bool), b: (i64, usize, bool))
    requires
        is_hit_of(xs, a),
        is_hit_of(xs, b),
    ensures
        a == b,
{
    if a.2 {
        assert(is_candidate(xs[a.1 as int].t));
        assert(is_candidate(xs[b.1 as int].t));
        assert(a.0 == b.0);
        if a.1 < b.1 {
            assert(xs[a.1 as int].t != b.0);
        } else if b.1 < a.1 {
            assert(xs[b.1 as int].t != a.0);
        }
    }
}

/// The distance of the hit does not depend on the order of the list: two
/// lists that hold the same distances, each as often as the other, have
/// the same hit distance, and one has a hit exactly when the other has.
pub proof fn lemma_hit_ignores_order(
    xs: Seq<Intersection>,
    ys: Seq<Intersection>,
    a: (i64, usize, bool),
    b: (i64, usize, bool),
)
    requires
        is_hit_of(xs, a),
        is_hit_of(ys, b),
        distances(xs).to_multiset() == distances(ys).to_multiset(),
    ensures
        a.0 == b.0,
        a.2 == b.2,
{
    lemma_hit_bounded_by(xs, ys, a, b);
    lemma_hit_bounded_by(ys, xs, b, a);
}

proof fn lemma_hit_bounded_by(
    xs: Seq<Intersection>,
    ys: Seq<Intersection>,
    a: (i64, usize, bool),
    b: (i64, usize, bool),
)
    requires
        is_hit_of(xs, a),
        is_hit_of(ys, b),
        distances(xs).to_multiset() == distances(ys).to_multiset(),
    ensures
        a.2 ==> b.2 && b.0 <= a.0,
{
    if a.2 {
        let t = a.0;
        let dx = distances(xs);
        let dy = distances(ys);
        assert(dx[a.1 as int] == t);
        assert(dx.contains(t));
        vstd::seq_lib::to_multiset_contains(dx, t);
        vstd::seq_lib::to_multiset_contains(dy, t);
        assert(dy.contains(t));
        let j = choose|j: int| 0 <= j < dy.len() && dy[j] == t;
        assert(ys[j].t == t);
        assert(is_candidate(ys[j].t));
    }
}

/// What fills the space on one side of a surface.
#[derive(Copy, Clone, Debug, PartialEq, Eq, Structural)]
pub enum Medium {
    /// Empty space, with refractive index one.
    Vacuum,
    /// The inside of the object with this index, with the refractive index
    /// of its material.
    Inside(usize),
}

/// The part of a hit's shading record that is decided without arithmetic:
/// where the hit is, on which object, and which media meet there.
#[derive(Copy, Clone, Debug, PartialEq, Eq)]
pub struct Computations {
    /// Distance key of the hit.
    pub t: i64,
    /// The object that was hit.
    pub object: usize,
    /// Surface coordinates of the hit, as the intersection carries them.
    pub uv: Option<(u32, u32)>,
    /// Whether the hit is seen from inside the object: the normal is
    /// then turned round.
    pub inside: bool,
    /// The medium the ray leaves at the hit.
    pub n1: Medium,
    /// The medium the ray enters at the hit.
    pub n2: Medium,
}

/// How the reflectance at a hit is found.
#[derive(Copy, Clone, Debug, PartialEq, Eq, Structural)]
pub enum Reflectance {
    /// All light is reflected: the reflectance is one.
    Total,
    /// The reflectance follows from the cosine of the angle of
    /// refraction.
    Refracted,
    /// The reflectance follows from the cosine of the angle under which
    /// the ray arrives.
    Incident,
}

impl Computations {
    /// How the reflectance at a hit is found, from the keys of the two
    /// refractive indices and of the squared sine of the angle of
    /// refraction.
    ///
    /// Into a medium of index zero all light is reflected. From a denser
    /// into a thinner medium all light is reflected where the squared
    /// sine is above one or no number, and else the angle of refraction
    /// counts. In every other case the angle of arrival counts.
    pub fn schlick(n1: i64, n2: i64, sin2_t: i64) -> (r: Reflectance)
        ensures
            n2 == 0 ==> r == Reflectance::Total,
            n2 != 0 && n1 > n2 && sin2_t > ONE ==> r == Reflectance::Total,
            n2 != 0 && n1 > n2 && sin2_t <= ONE ==> r == Reflectance::Refracted,
            n2 != 0 && n1 <= n2 ==> r == Reflectance::Incident,
    {
        if n2 == 0 {
            return Reflectance::Total;
        }
        if n1 > n2 {
            if sin2_t > ONE {
                return Reflectance::Total;
            }
            return Reflectance::Refracted;
        }
        Reflectance::Incident
    }
}

/// The containers after crossing the surface of `object`: it leaves the
/// list if it was in it, and is appended if it was not.
pub open spec fn toggle(c: Seq<usize>, object: usize) -> Seq<usize> {
    if c.contains(object) {
        c.remove(c.index_of(object))
    } else {
        c.push(object)
    }
}

/// The objects that the ray is inside of after the first `n` crossings
/// of `xs`, in the order in which it entered them.
pub open spec fn containers(xs: Seq<Intersection>, n: int) -> Seq<usize>
    decreases n,
{
    if n <= 0 {
        Seq::empty()
    } else {
        toggle(containers(xs, n - 1), xs[n - 1].object)
    }
}

/// The medium of the innermost container, or empty space where there is
/// none.
pub open spec fn medium(c: Seq<usize>) -> Medium {
    if c.len() == 0 {
        Medium::Vacuum
    } else {
        Medium::Inside(c.last())
    }
}

/// The media before and after crossing number `at` of `xs`. A position
/// outside the list has empty space on both sides.
pub open spec fn refractions(xs: Seq<Intersection>, at: usize) -> (Medium, Medium) {
    if at < xs.len() {
        (medium(containers(xs, at as int)), medium(containers(xs, at + 1)))
    } else {
        (Medium::Vacuum, Medium::Vacuum)
    }
}

/// How often `object` is crossed among the first `n` crossings of `xs`.
pub open spec fn crossings(xs: Seq<Intersection>, n: int, object: usize) -> nat
    decreases n,
{
    if n <= 0 {
        0
    } else if xs[n - 1].object == object {
        crossings(xs, n - 1, object) + 1
    } else {
        crossings(xs, n - 1, object)
    }
}

proof fn lemma_toggle(c: Seq<usize>, object: usize)
    requires
        c.no_duplicates(),
    ensures
        toggle(c, object).no_duplicates(),
        toggle(c, object).contains(object) <==> !c.contains(object),
        forall|other: usize|
            other != object ==> (#[trigger] toggle(c, object).contains(other) <==> c.contains(
                other,
            )),
{
    let d = toggle(c, object);
    if c.contains(object) {
        let k = c.index_of(object);
        assert(0 <= k < c.len() && c[k] == object);
        assert forall|i: int| 0 <= i < d.len() implies #[trigger] d[i] == c[if i < k {
            i
        } else {
            i + 1
        }] by {}
        assert(!d.contains(object)) by {
            if d.contains(object) {
                let i = choose|i: int| 0 <= i < d.len() && d[i] == object;
                assert(c[if i < k {
                    i
                } else {
                    i + 1
                }] == object);
            }
        }
        assert forall|other: usize| other != object implies (#[trigger] d.contains(other)
            <==> c.contains(other)) by {
            if c.contains(other) {
                let i = choose|i: int| 0 <= i < c.len() && c[i] == other;
                assert(i != k);
                let j = if i < k {
                    i
                } else {
                    i - 1
                };
                assert(d[j] == other);
            }
            if d.contains(other) {
                let i = choose|i: int| 0 <= i < d.len() && d[i] == other;
                assert(c[if i < k {
                    i
                } else {
                    i + 1
                }] == other);
            }
        }
    } else {
        assert(d[c.len() as int] == object);
        assert forall|other: usize| other != object implies (#[trigger] d.contains(other)
            <==> c.contains(other)) by {
            if c.contains(other) {
                let i = choose|i: int| 0 <= i < c.len() && c[i] == other;
                assert(d[i] == other);
            }
            if d.contains(other) {
                let i = choose|i: int| 0 <= i < d.len() && d[i] == other;
                assert(c[i] == other);
            }
        }
    }
}

/// No object is in the list of containers twice.
pub proof fn lemma_containers_are_distinct(xs: Seq<Intersection>, n: int)
    ensures
        containers(xs, n).no_duplicates(),
    decreases n,
{
    if n > 0 {
        lemma_containers_are_distinct(xs, n - 1);
        lemma_toggle(containers(xs, n - 1), xs[n - 1].object);
    }
}

/// The ray is inside an object exactly when it has crossed its surface
/// an odd number of times.
pub proof fn lemma_inside_iff_odd_crossings(xs: Seq<Intersection>, n: int, object: usize)
    ensures
        containers(xs, n).contains(object) <==> crossings(xs, n, object) % 2 == 1,
    decreases n,
{
    if n > 0 {
        lemma_inside_iff_odd_crossings(xs, n - 1, object);
        lemma_containers_are_distinct(xs, n - 1);
        lemma_toggle(containers(xs, n - 1), xs[n - 1].object);
    } else {
        assert(!Seq::<usize>::empty().contains(object));
    }
}

fn position(c: &Vec<usize>, object: usize) -> (r: Option<usize>)
    ensures
        match r {
            Some(k) => k < c.len() && c[k as int] == object,
            None => !c@.contains(object),
        },
{
    let mut k: usize = 0;
    while k < c.len()
        invariant
            k <= c.len(),
            forall|j: int| 0 <= j < k ==> c[j] != object,
        decreases c.len() - k,
    {
        if c[k] == object {
            return Some(k);
        }
        k += 1;
    }
    None
}

fn innermost(c: &Vec<usize>) -> (m: Medium)
    ensures
        m == medium(c@),
{
    if c.len() == 0 {
        Medium::Vacuum
    } else {
        Medium::Inside(c[c.len() - 1])
    }
}

impl Intersection {
    /// The media that meet at crossing number `at` of `xs`: the one the
    /// ray leaves and the one it enters.
    ///
    /// The crossings are walked in order while a list of the objects that
    /// the ray is inside of is kept. The medium before the crossing is
    /// that of the object entered last, and so is the medium after it.
    pub fn calculate_refractions(xs: &Vec<Intersection>, at: usize) -> (r: (Medium, Medium))
        ensures
            r == refractions(xs@, at),
    {
        let mut inside: Vec<usize> = Vec::new();
        let mut i: usize = 0;
        while i < xs.len()
            invariant
                i <= xs.len(),
                i <= at,
                inside@ == containers(xs@, i as int),
                inside@.no_duplicates(),
            decreases xs.len() - i,
        {
            let n1 = if i == at {
                innermost(&inside)
            } else {
                Medium::Vacuum
            };
            let object = xs[i].object;
            proof {
                lemma_toggle(inside@, object);
            }
            match position(&inside, object) {
                Some(k) => {
                    assert(inside@.index_of(object) == k);
                    inside.remove(k);
                },
                None => {
                    inside.push(object);
                },
            }
            if i == at {
                let n2 = innermost(&inside);
                return (n1, n2);
            }
            i += 1;
        }
        (Medium::Vacuum, Medium::Vacuum)
    }

    /// The shading record of this intersection, as far as it is decided
    /// without arithmetic.
    ///
    /// `normal_dot_eye` is the key of the cosine between the normal of the
    /// surface and the direction to the eye: where it is negative the hit
    /// is seen from inside. With the full list of the ray's intersections and this one's
    /// position in it, the media on both sides are found as
    /// [`Intersection::calculate_refractions`] finds them; without a list
    /// there is empty space on both sides.
    pub fn computations(
        &self,
        normal_dot_eye: i64,
        xs: Option<&Vec<Intersection>>,
        at: usize,
    ) -> (c: Computations)
        ensures
            c.t == self.t,
            c.object == self.object,
            c.uv == self.uv,
            c.inside == (normal_dot_eye < 0),
            (c.n1, c.n2) == match xs {
                Some(xs) => refractions(xs@, at),
                None => (Medium::Vacuum, Medium::Vacuum),
            },
    {
        let (n1, n2) = match xs {
            Some(xs) => Intersection::calculate_refractions(xs, at),
            None => (Medium::Vacuum, Medium::Vacuum),
        };
        Computations { t: self.t, object: self.object, uv: self.uv, inside: normal_dot_eye < 0, n1, n2 }
    }
}


} // verus!
