//! The scene as the shading engine sees it: which objects a ray is tested
//! against, how their roots become one ordered list of intersections, and
//! what is decided at a hit.

use vstd::prelude::*;
use crate::intersections::{hit, is_candidate, is_hit_of, spec_hit, Intersection};
use crate::key::{EPSILON, INFINITE, ONE};
use crate::material::Material;

verus! {

/// What the intersection routine of one object reports for one ray.
#[derive(Copy, Clone, Debug, PartialEq, Eq)]
pub enum Roots {
    /// The ray misses the object.
    Miss,
    /// The ray enters and leaves the object: two distance keys.
    Pair(i64, i64),
    /// The ray crosses a surface once, with surface coordinates where the
    /// geometry reports them.
    Single(i64, Option<(u32, u32)>),
}

/// What the shading engine reads of an object without arithmetic.
#[derive(Copy, Clone, Debug)]
pub struct Object {
    pub material: Material,
}

/// The objects of a scene, in the order that gives each its index.
#[derive(Debug)]
pub struct World {
    pub objects: Vec<Object>,
}

/// How the colours found at a hit are put together.
#[derive(Copy, Clone, Debug, PartialEq, Eq, Structural)]
pub enum Blend {
    /// Surface, reflected and refracted colour are added up.
    Sum,
    /// The reflected colour is weighted with the Fresnel reflectance and
    /// the refracted colour with what is left of it.
    Fresnel,
}

/// What a secondary ray contributes at a hit.
#[derive(Copy, Clone, Debug, PartialEq, Eq, Structural)]
pub enum Bounce {
    /// Nothing: black, and no ray is cast.
    Black,
    /// The background colour, and no ray is cast.
    Background,
    /// The colour that a ray cast with this bounce budget brings back.
    Cast(u32),
}

/// The intersections that the roots of one object stand for.
pub open spec fn entries(roots: Roots, object: usize) -> Seq<Intersection> {
    match roots {
        Roots::Miss => Seq::empty(),
        Roots::Pair(t1, t2) => seq![
            Intersection { t: t1, object, uv: None },
            Intersection { t: t2, object, uv: None },
        ],
        Roots::Single(t, uv) => seq![Intersection { t, object, uv }],
    }
}

/// The roots given for object `i`; an object for which none are given is
/// missed.
pub open spec fn roots_of(roots: Seq<Roots>, i: int) -> Roots {
    if 0 <= i < roots.len() {
        roots[i]
    } else {
        Roots::Miss
    }
}

/// `s` with `x` put behind the last entry that is not farther than `x`.
pub open spec fn insert_sorted(s: Seq<Intersection>, x: Intersection) -> Seq<Intersection>
    decreases s.len(),
{
    if s.len() > 0 && s.last().t > x.t {
        insert_sorted(s.drop_last(), x).push(s.last())
    } else {
        s.push(x)
    }
}

/// The entries of `s` in ascending order of distance, entries of equal
/// distance in the order they have in `s`.
pub open spec fn sorted_by_distance(s: Seq<Intersection>) -> Seq<Intersection>
    decreases s.len(),
{
    if s.len() == 0 {
        s
    } else {
        insert_sorted(sorted_by_distance(s.drop_last()), s.last())
    }
}

/// Whether no entry of `s` is nearer than an entry before it.
pub open spec fn is_sorted(s: Seq<Intersection>) -> bool {
    forall|i: int, j: int| 0 <= i <= j < s.len() ==> s[i].t <= s[j].t
}

/// The entries of `s` at distance `t`, in the order they have in `s`.
pub open spec fn at_distance(s: Seq<Intersection>, t: i64) -> Seq<Intersection>
    decreases s.len(),
{
    if s.len() == 0 {
        s
    } else if s.last().t == t {
        at_distance(s.drop_last(), t).push(s.last())
    } else {
        at_distance(s.drop_last(), t)
    }
}

proof fn lemma_insert_position(s: Seq<Intersection>, x: Intersection, k: int)
    requires
        0 <= k <= s.len(),
        forall|j: int| k <= j < s.len() ==> s[j].t > x.t,
        k == 0 || s[k - 1].t <= x.t,
    ensures
        insert_sorted(s, x) == s.insert(k, x),
    decreases s.len(),
{
    if k == s.len() {
        assert(s.insert(k, x) =~= s.push(x));
    } else {
        lemma_insert_position(s.drop_last(), x, k);
        assert(s.drop_last().insert(k, x).push(s.last()) =~= s.insert(k, x));
    }
}

proof fn lemma_insert_sorted(s: Seq<Intersection>, x: Intersection)
    ensures
        insert_sorted(s, x).len() == s.len() + 1,
        insert_sorted(s, x).to_multiset() == s.to_multiset().insert(x),
        is_sorted(s) ==> is_sorted(insert_sorted(s, x)),
        forall|i: int|
            0 <= i < s.len() + 1 ==> #[trigger] insert_sorted(s, x)[i] == x || s.contains(
                insert_sorted(s, x)[i],
            ),
        forall|t: i64|
            #[trigger] at_distance(insert_sorted(s, x), t) == if x.t == t {
                at_distance(s, t).push(x)
            } else {
                at_distance(s, t)
            },
    decreases s.len(),
{
    let r = insert_sorted(s, x);
    if s.len() > 0 && s.last().t > x.t {
        let head = s.drop_last();
        let inner = insert_sorted(head, x);
        lemma_insert_sorted(head, x);
        assert(s =~= head.push(s.last()));
        vstd::seq_lib::to_multiset_insert(head, head.len() as int, s.last());
        assert(head.insert(head.len() as int, s.last()) =~= s);
        vstd::seq_lib::to_multiset_insert(inner, inner.len() as int, s.last());
        assert(inner.insert(inner.len() as int, s.last()) =~= r);
        assert(r.to_multiset() =~= s.to_multiset().insert(x));
        assert forall|i: int| 0 <= i < s.len() + 1 implies #[trigger] r[i] == x || s.contains(
            r[i],
        ) by {
            if i < inner.len() {
                if inner[i] != x {
                    assert(head.contains(inner[i]));
                    let k = choose|k: int| 0 <= k < head.len() && head[k] == inner[i];
                    assert(s[k] == r[i]);
                }
            } else {
                assert(s[s.len() - 1] == r[i]);
            }
        }
        if is_sorted(s) {
            assert(is_sorted(head)) by {
                assert forall|i: int, j: int| 0 <= i <= j < head.len() implies head[i].t
                    <= head[j].t by {
                    assert(s[i].t <= s[j].t);
                }
            }
            assert forall|i: int, j: int| 0 <= i <= j < r.len() implies r[i].t <= r[j].t by {
                if j < inner.len() {
                    assert(inner[i].t <= inner[j].t);
                } else if i < inner.len() {
                    if inner[i] != x {
                        assert(head.contains(inner[i]));
                        let k = choose|k: int| 0 <= k < head.len() && head[k] == inner[i];
                        assert(s[k].t <= s[s.len() - 1].t);
                    }
                }
            }
        }
        assert forall|t: i64|
            #[trigger] at_distance(r, t) == if x.t == t {
                at_distance(s, t).push(x)
            } else {
                at_distance(s, t)
            } by {
            assert(r.drop_last() =~= inner);
            assert(r.last() == s.last());
            assert(at_distance(inner, t) == if x.t == t {
                at_distance(head, t).push(x)
            } else {
                at_distance(head, t)
            });
        }
    } else {
        vstd::seq_lib::to_multiset_insert(s, s.len() as int, x);
        assert(s.insert(s.len() as int, x) =~= r);
        assert forall|i: int| 0 <= i < s.len() + 1 implies #[trigger] r[i] == x || s.contains(
            r[i],
        ) by {
            if i < s.len() {
                assert(s[i] == r[i]);
            }
        }
        if is_sorted(s) {
            assert forall|i: int, j: int| 0 <= i <= j < r.len() implies r[i].t <= r[j].t by {
                if j < s.len() {
                    assert(s[i].t <= s[j].t);
                } else if i < s.len() {
                    assert(s[i].t <= s[s.len() - 1].t);
                }
            }
        }
        assert forall|t: i64|
            #[trigger] at_distance(r, t) == if x.t == t {
                at_distance(s, t).push(x)
            } else {
                at_distance(s, t)
            } by {
            assert(r.drop_last() =~= s);
            assert(r.last() == x);
        }
    }
}

/// The ordered list is in ascending order of distance.
pub proof fn lemma_sorted_by_distance_is_sorted(s: Seq<Intersection>)
    ensures
        is_sorted(sorted_by_distance(s)),
    decreases s.len(),
{
    if s.len() > 0 {
        lemma_sorted_by_distance_is_sorted(s.drop_last());
        lemma_insert_sorted(sorted_by_distance(s.drop_last()), s.last());
    }
}

/// Ordering neither adds nor drops an intersection: the ordered list
/// holds each entry as often as the list it was made from.
pub proof fn lemma_sorted_by_distance_is_permutation(s: Seq<Intersection>)
    ensures
        sorted_by_distance(s).len() == s.len(),
        sorted_by_distance(s).to_multiset() == s.to_multiset(),
    decreases s.len(),
{
    if s.len() > 0 {
        let head = s.drop_last();
        lemma_sorted_by_distance_is_permutation(head);
        lemma_insert_sorted(sorted_by_distance(head), s.last());
        vstd::seq_lib::to_multiset_insert(head, head.len() as int, s.last());
        assert(head.insert(head.len() as int, s.last()) =~= s);
    }
}

/// Ordering is stable: the entries at any one distance keep the order in
/// which they were found.
pub proof fn lemma_sorted_by_distance_is_stable(s: Seq<Intersection>, t: i64)
    ensures
        at_distance(sorted_by_distance(s), t) == at_distance(s, t),
    decreases s.len(),
{
    if s.len() > 0 {
        lemma_sorted_by_distance_is_stable(s.drop_last(), t);
        lemma_insert_sorted(sorted_by_distance(s.drop_last()), s.last());
    }
}

/// In a list that is in ascending order the hit is the first entry that
/// is not behind the origin: every entry before it is.
pub proof fn lemma_hit_of_sorted(xs: Seq<Intersection>, r: (i64, usize, bool))
    requires
        is_sorted(xs),
        is_hit_of(xs, r),
        r.2,
    ensures
        forall|j: int| 0 <= j < r.1 ==> (#[trigger] xs[j]).t < 0,
{
    assert forall|j: int| 0 <= j < r.1 implies (#[trigger] xs[j]).t < 0 by {
        assert(xs[j].t <= xs[r.1 as int].t);
        if xs[j].t >= 0 {
            assert(is_candidate(xs[j].t));
        }
    }
}

fn insert_by_distance(xs: &mut Vec<Intersection>, x: Intersection)
    ensures
        final(xs)@ == insert_sorted(old(xs)@, x),
{
    let mut k: usize = xs.len();
    while k > 0 && xs[k - 1].t > x.t
        invariant
            k <= xs.len(),
            xs@ == old(xs)@,
            forall|j: int| k <= j < xs.len() ==> xs[j].t > x.t,
        decreases k,
    {
        k -= 1;
    }
    proof {
        lemma_insert_position(xs@, x, k as int);
    }
    xs.insert(k, x);
}

impl World {
    /// Whether object `i` is tested against a ray. A ray that looks for
    /// shadow passes over the objects that let light through; any other
    /// ray is tested against every object.
    pub open spec fn spec_tested(&self, i: int, is_shadow: bool) -> bool {
        !(is_shadow && self.objects[i].material.light_through)
    }

    /// The intersections of the first `n` objects, in the order of the
    /// objects, each object's own in the order of its roots.
    pub open spec fn collected(&self, roots: Seq<Roots>, is_shadow: bool, n: int) -> Seq<
        Intersection,
    >
        decreases n,
    {
        if n <= 0 {
            Seq::empty()
        } else if self.spec_tested(n - 1, is_shadow) {
            self.collected(roots, is_shadow, n - 1) + entries(
                roots_of(roots, n - 1),
                (n - 1) as usize,
            )
        } else {
            self.collected(roots, is_shadow, n - 1)
        }
    }

    /// Whether object `i` is tested against a ray: see
    /// [`World::spec_tested`].
    pub fn tested(&self, i: usize, is_shadow: bool) -> (b: bool)
        requires
            i < self.objects.len(),
        ensures
            b == self.spec_tested(i as int, is_shadow),
    {
        !(is_shadow && self.objects[i].material.light_through)
    }

    /// All intersections of one ray with the scene, nearest first.
    ///
    /// `roots[i]` is what the geometry of object `i` reports for the ray.
    /// The roots of every tested object are collected, object by object,
    /// and ordered by distance; entries of equal distance stay in the
    /// order in which they were collected. Roots of objects that are not
    /// tested are not looked at.
    pub fn intersect(&self, roots: &Vec<Roots>, is_shadow: bool) -> (xs: Vec<Intersection>)
        ensures
            xs@ == self.spec_intersect(roots@, is_shadow),
            is_sorted(xs@),
            xs@.to_multiset() == self.collected(
                roots@,
                is_shadow,
                self.objects.len() as int,
            ).to_multiset(),
    {
        proof {
            let found = self.collected(roots@, is_shadow, self.objects.len() as int);
            lemma_sorted_by_distance_is_sorted(found);
            lemma_sorted_by_distance_is_permutation(found);
        }
        let mut xs: Vec<Intersection> = Vec::new();
        let mut i: usize = 0;
        while i < self.objects.len()
            invariant
                i <= self.objects.len(),
                xs@ == sorted_by_distance(self.collected(roots@, is_shadow, i as int)),
            decreases self.objects.len() - i,
        {
            let ghost before = self.collected(roots@, is_shadow, i as int);
            if self.tested(i, is_shadow) && i < roots.len() {
                match roots[i] {
                    Roots::Miss => {
                        assert(before + entries(Roots::Miss, i) =~= before);
                    },
                    Roots::Pair(t1, t2) => {
                        let a = Intersection::new(t1, i, None);
                        let b = Intersection::new(t2, i, None);
                        insert_by_distance(&mut xs, a);
                        insert_by_distance(&mut xs, b);
                        proof {
                            let one = before.push(a);
                            let two = one.push(b);
                            assert(two =~= before + entries(roots@[i as int], i));
                            assert(one.drop_last() =~= before);
                            assert(two.drop_last() =~= one);
                            assert(sorted_by_distance(one) == insert_sorted(
                                sorted_by_distance(before),
                                a,
                            ));
                        }
                    },
                    Roots::Single(t, uv) => {
                        let a = Intersection::new(t, i, uv);
                        insert_by_distance(&mut xs, a);
                        proof {
                            let one = before.push(a);
                            assert(one =~= before + entries(roots@[i as int], i));
                            assert(one.drop_last() =~= before);
                        }
                    },
                }
            } else {
                assert(before + entries(Roots::Miss, i) =~= before);
            }
            i += 1;
        }
        xs
    }

    /// A scene without objects.
    pub fn new() -> (w: World)
        ensures
            w.objects@ == Seq::<Object>::empty(),
    {
        World { objects: Vec::new() }
    }

    /// The scene of two spheres that cast shadows.
    pub fn new_with_stuff() -> (w: World)
        ensures
            w.objects@ == seq![
                Object { material: Material { light_through: false } },
                Object { material: Material { light_through: false } },
            ],
    {
        let mut objects: Vec<Object> = Vec::new();
        objects.push(Object { material: Material::new() });
        objects.push(Object { material: Material::new() });
        assert(objects@ =~= seq![
            Object { material: Material { light_through: false } },
            Object { material: Material { light_through: false } },
        ]);
        World { objects }
    }

    /// All intersections of a ray with the scene, nearest first, as
    /// [`World::intersect`] returns them.
    pub open spec fn spec_intersect(&self, roots: Seq<Roots>, is_shadow: bool) -> Seq<
        Intersection,
    > {
        sorted_by_distance(self.collected(roots, is_shadow, self.objects.len() as int))
    }

    /// The position of the visible hit among the intersections of a ray,
    /// as [`World::color_at`] returns it.
    pub open spec fn spec_color_at(&self, roots: Seq<Roots>) -> Option<usize> {
        let h = spec_hit(self.spec_intersect(roots, false));
        if h.2 {
            Some(h.1)
        } else {
            None
        }
    }

    /// What stands between a point and a light, as
    /// [`World::point_shadow_intensity`] returns it.
    pub open spec fn spec_occluder(&self, roots: Seq<Roots>, distance: i64) -> Option<usize> {
        let xs = self.spec_intersect(roots, true);
        let h = spec_hit(xs);
        if h.2 && h.0 < distance {
            Some(xs[h.1 as int].object)
        } else {
            None
        }
    }

    /// What a ray sees: all its intersections with the scene, nearest
    /// first, and the position of the visible one among them, or `None`
    /// where the ray sees the background.
    ///
    /// The ray is tested against every object. The visible hit is the
    /// nearest intersection in front of the origin. The whole list is
    /// handed back because the media on the two sides of the hit depend
    /// on all of it.
    pub fn color_at(&self, roots: &Vec<Roots>) -> (r: (Vec<Intersection>, Option<usize>))
        ensures
            r.0@ == self.spec_intersect(roots@, false),
            r.1 == self.spec_color_at(roots@),
            r.1 matches Some(i) ==> i < r.0.len() && r.0[i as int].t >= 0,
    {
        let xs = self.intersect(roots, false);
        let (_, index, found) = hit(&xs);
        if found {
            (xs, Some(index))
        } else {
            (xs, None)
        }
    }

    /// The object that keeps the light of a point light from a point, or
    /// `None` where the point is lit.
    ///
    /// `roots` are those of the ray from the point towards the light, and
    /// `distance` is the distance key of the light. Objects that let light
    /// through are passed over. The nearest hit shades the point if it is
    /// nearer than the light; how much, its transparency decides.
    pub fn point_shadow_intensity(&self, roots: &Vec<Roots>, distance: i64) -> (o: Option<usize>)
        ensures
            o == self.spec_occluder(roots@, distance),
    {
        let xs = self.intersect(roots, true);
        let (t, index, found) = hit(&xs);
        if found && t < distance {
            Some(xs[index].object)
        } else {
            None
        }
    }

    /// Whether a point is in the shadow of a point light: whether
    /// anything stands between the two.
    pub fn is_shadowed(&self, roots: &Vec<Roots>, distance: i64) -> (b: bool)
        ensures
            b == self.spec_occluder(roots@, distance).is_some(),
    {
        self.point_shadow_intensity(roots, distance).is_some()
    }

    /// How the colours at a hit are put together, from the keys of the
    /// reflectiveness and of the transparency of the material: weighted
    /// by the Fresnel reflectance where both are above zero, added up
    /// otherwise.
    pub fn shade_hit(&self, reflectiveness: i64, transparency: i64) -> (b: Blend)
        ensures
            b == if reflectiveness > 0 && transparency > 0 {
                Blend::Fresnel
            } else {
                Blend::Sum
            },
    {
        if reflectiveness > 0 && transparency > 0 {
            Blend::Fresnel
        } else {
            Blend::Sum
        }
    }

    /// What the reflected ray contributes at a hit.
    ///
    /// `reflectiveness` is the key of the reflectiveness of the material.
    /// Nothing is contributed when the bounce budget is used up, and
    /// nothing on a material whose reflectiveness is below
    /// [`EPSILON`]. Otherwise a ray is cast with a budget one lower.
    pub fn reflected_color(&self, depth_remaining: u32, reflectiveness: i64) -> (b: Bounce)
        ensures
            depth_remaining == 0 ==> b == Bounce::Black,
            reflectiveness < EPSILON ==> b == Bounce::Black,
            depth_remaining > 0 && reflectiveness >= EPSILON ==> b == Bounce::Cast(
                (depth_remaining - 1) as u32,
            ),
    {
        if depth_remaining == 0 {
            return Bounce::Black;
        }
        if reflectiveness < EPSILON {
            return Bounce::Black;
        }
        Bounce::Cast(depth_remaining - 1)
    }

    /// Whether the ratio of two refractive indices with this key is
    /// infinite, or no number at all: the ray then leaves into a medium
    /// of index zero.
    pub open spec fn is_infinite(n_ratio: i64) -> bool {
        n_ratio >= INFINITE || n_ratio <= -INFINITE
    }

    /// What the refracted ray contributes at a hit.
    ///
    /// `transparency` is the key of the transparency of the material,
    /// `n_ratio` that of the ratio of the two refractive indices, and
    /// `sin2_t` that of the squared sine of the angle of refraction.
    /// Nothing is contributed when the bounce budget is used up, and
    /// nothing on a material whose transparency is zero, whatever the
    /// budget. Where the ratio is infinite the background shows. Where
    /// the squared sine is above one, or no number, all light is
    /// reflected inside and nothing comes through. Otherwise a ray is
    /// cast with a budget one lower.
    pub fn refracted_color(
        &self,
        depth_remaining: u32,
        transparency: i64,
        n_ratio: i64,
        sin2_t: i64,
    ) -> (b: Bounce)
        ensures
            depth_remaining == 0 ==> b == Bounce::Black,
            transparency == 0 ==> b == Bounce::Black,
            depth_remaining > 0 && transparency != 0 && World::is_infinite(n_ratio) ==> b
                == Bounce::Background,
            depth_remaining > 0 && transparency != 0 && !World::is_infinite(n_ratio) && sin2_t
                > ONE ==> b == Bounce::Black,
            depth_remaining > 0 && transparency != 0 && !World::is_infinite(n_ratio) && sin2_t
                <= ONE ==> b == Bounce::Cast((depth_remaining - 1) as u32),
    {
        if depth_remaining == 0 {
            return Bounce::Black;
        }
        if transparency == 0 {
            return Bounce::Black;
        }
        if n_ratio >= INFINITE || n_ratio <= -INFINITE {
            return Bounce::Background;
        }
        if sin2_t > ONE {
            return Bounce::Black;
        }
        Bounce::Cast(depth_remaining - 1)
    }
}

/// Every intersection that is collected belongs to an object of the scene
/// that the ray is tested against, and is among the roots of that object.
pub proof fn lemma_collected_are_tested(
    world: World,
    roots: Seq<Roots>,
    is_shadow: bool,
    n: int,
    e: Intersection,
)
    requires
        0 <= n <= world.objects.len(),
        world.collected(roots, is_shadow, n).contains(e),
    ensures
        e.object < n,
        world.spec_tested(e.object as int, is_shadow),
        entries(roots_of(roots, e.object as int), e.object).contains(e),
    decreases n,
{
    if n > 0 {
        let before = world.collected(roots, is_shadow, n - 1);
        let own = entries(roots_of(roots, n - 1), (n - 1) as usize);
        if before.contains(e) {
            lemma_collected_are_tested(world, roots, is_shadow, n - 1, e);
        } else {
            let k = choose|k: int| 0 <= k < (before + own).len() && (before + own)[k] == e;
            assert(k >= before.len()) by {
                if k < before.len() {
                    assert(before[k] == e);
                }
            }
            assert(own[k - before.len()] == e);
        }
    }
}

/// The visible hit is the nearest of all intersections in front of the
/// origin: where any object that is tested has a root there, the ray has
/// a hit, and the hit is not farther than that root.
pub proof fn lemma_color_at_is_nearest(world: World, roots: Seq<Roots>, e: Intersection)
    requires
        world.collected(roots, false, world.objects.len() as int).contains(e),
        world.spec_intersect(roots, false).len() <= usize::MAX,
        is_candidate(e.t),
    ensures
        world.spec_color_at(roots) matches Some(i) && i < world.spec_intersect(roots, false).len()
            && 0 <= world.spec_intersect(roots, false)[i as int].t <= e.t,
{
    let found = world.collected(roots, false, world.objects.len() as int);
    let xs = world.spec_intersect(roots, false);
    lemma_sorted_by_distance_is_permutation(found);
    vstd::seq_lib::to_multiset_contains(found, e);
    vstd::seq_lib::to_multiset_contains(xs, e);
    let j = choose|j: int| 0 <= j < xs.len() && xs[j] == e;
    assert(is_candidate(xs[j].t));
    crate::intersections::lemma_spec_hit(xs);
}

/// What casts a shadow is an object of the scene that does not let light
/// through, with a root in front of the point and nearer than the light.
pub proof fn lemma_occluder_casts_shadows(world: World, roots: Seq<Roots>, distance: i64)
    requires
        world.spec_intersect(roots, true).len() <= usize::MAX,
    ensures
        world.spec_occluder(roots, distance) matches Some(o) ==> {
            &&& o < world.objects.len()
            &&& !world.objects[o as int].material.light_through
            &&& exists|e: Intersection|
                #![auto]
                entries(roots_of(roots, o as int), o).contains(e) && 0 <= e.t < distance
        },
{
    let found = world.collected(roots, true, world.objects.len() as int);
    let xs = world.spec_intersect(roots, true);
    let h = spec_hit(xs);
    if h.2 && h.0 < distance {
        lemma_sorted_by_distance_is_permutation(found);
        crate::intersections::lemma_spec_hit(xs);
        let e = xs[h.1 as int];
        assert(xs.contains(e));
        vstd::seq_lib::to_multiset_contains(xs, e);
        vstd::seq_lib::to_multiset_contains(found, e);
        lemma_collected_are_tested(world, roots, true, world.objects.len() as int, e);
    }
}

} // verus!
