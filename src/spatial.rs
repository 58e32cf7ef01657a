//! Ordering the instances of a series by anatomical position.
use vstd::prelude::*;
use crate::decimal::{Decimal, MAX_MICROS};
use crate::directory::{number_key, number_key_exec};
use crate::hierarchy::Instance;
use crate::sorting::{sort_by, sorted_by, sort_by_keys, lemma_sort_by, lemma_sort_by_sorted};

verus! {

broadcast use vstd::seq_lib::group_to_multiset_ensures;

/// Millionths in a direction cosine of one.
pub const UNIT_COSINE: i64 = 1_000_000;

/// The sort key of an absent value: after every value that can occur.
pub const ABSENT_KEY: i128 = 1_000_000_000_000_000_000_000_000_000_000;

/// A direction cosine lies within [-1, 1].
pub open spec fn cosine_ok(d: Decimal) -> bool {
    -UNIT_COSINE <= d.micros <= UNIT_COSINE
}

/// An orientation that can give a slice normal: six direction cosines
/// (further components are ignored).
pub open spec fn usable_orientation(o: Option<Vec<Decimal>>) -> bool {
    &&& o is Some
    &&& o->0@.len() >= 6
    &&& forall|i: int| 0 <= i < 6 ==> cosine_ok(#[trigger] o->0@[i])
}

/// A position with three coordinates in the decimal range.
pub open spec fn usable_position(p: Option<Vec<Decimal>>) -> bool {
    &&& p is Some
    &&& p->0@.len() >= 3
    &&& forall|i: int| 0 <= i < 3 ==> (#[trigger] p->0@[i]).in_range()
}

/// The slice normal: the row direction crossed with the column direction.
pub open spec fn normal_of(o: Seq<Decimal>) -> (int, int, int) {
    let (r0, r1, r2) = (o[0].micros as int, o[1].micros as int, o[2].micros as int);
    let (c0, c1, c2) = (o[3].micros as int, o[4].micros as int, o[5].micros as int);
    (r1 * c2 - r2 * c1, r2 * c0 - r0 * c2, r0 * c1 - r1 * c0)
}

/// A position projected onto a normal.
pub open spec fn projection(n: (int, int, int), p: Seq<Decimal>) -> int {
    n.0 * p[0].micros + n.1 * p[1].micros + n.2 * p[2].micros
}

/// The orientation of the first instance that has a usable one.
pub open spec fn first_orientation(s: Seq<Instance>) -> Option<Seq<Decimal>>
    decreases s.len(),
{
    if s.len() == 0 {
        None
    } else if usable_orientation(s[0].image_orientation) {
        Some(s[0].image_orientation->0@)
    } else {
        first_orientation(s.drop_first())
    }
}

pub open spec fn has_position_z(i: Instance) -> bool {
    i.image_position is Some && i.image_position->0@.len() >= 3
}

/// The tier that orders a series: the projection when some instance has a
/// usable orientation and some a usable position; else slice location when
/// some instance has one; else the z coordinate when some instance has a
/// position; else the instance number.
pub open spec fn tier_of(s: Seq<Instance>) -> (int, Seq<Decimal>) {
    if first_orientation(s) is Some && exists|i: int|
        0 <= i < s.len() && usable_position(#[trigger] s[i].image_position) {
        (0, first_orientation(s)->0)
    } else if exists|i: int| 0 <= i < s.len() && (#[trigger] s[i].slice_location) is Some {
        (1, Seq::empty())
    } else if exists|i: int| 0 <= i < s.len() && has_position_z(#[trigger] s[i]) {
        (2, Seq::empty())
    } else {
        (3, Seq::empty())
    }
}

pub open spec fn decimal_key(d: Option<Decimal>) -> i128 {
    match d {
        Some(v) => v.micros as i128,
        None => ABSENT_KEY,
    }
}

/// The key of an instance under a tier; instances that lack the value the
/// tier reads come after the others, and the instance number breaks ties.
pub open spec fn spatial_key(tier: (int, Seq<Decimal>), i: Instance) -> (i128, i128) {
    let tie = number_key(i.instance_number);
    if tier.0 == 0 {
        if usable_position(i.image_position) {
            (projection(normal_of(tier.1), i.image_position->0@) as i128, tie)
        } else {
            (ABSENT_KEY, tie)
        }
    } else if tier.0 == 1 {
        (decimal_key(i.slice_location), tie)
    } else if tier.0 == 2 {
        if has_position_z(i) {
            (i.image_position->0@[2].micros as i128, tie)
        } else {
            (ABSENT_KEY, tie)
        }
    } else {
        (tie, 0)
    }
}

pub open spec fn spatial_order(tier: (int, Seq<Decimal>)) -> spec_fn(Instance) -> (i128, i128) {
    |i: Instance| spatial_key(tier, i)
}

/// The spatial order of a series.
pub open spec fn spatially_sorted(s: Seq<Instance>) -> Seq<Instance> {
    sort_by(s, spatial_order(tier_of(s)))
}

fn usable_orientation_exec(o: &Option<Vec<Decimal>>) -> (r: bool)
    ensures
        r == usable_orientation(*o),
{
    match o {
        Some(v) => {
            if v.len() < 6 {
                return false;
            }
            let mut i: usize = 0;
            while i < 6
                invariant
                    i <= 6 <= v@.len(),
                    o is Some && v@ == o->0@,
                    forall|j: int| 0 <= j < i ==> cosine_ok(#[trigger] v@[j]),
                decreases 6 - i,
            {
                if v[i].micros < -UNIT_COSINE || v[i].micros > UNIT_COSINE {
                    return false;
                }
                i = i + 1;
            }
            true
        },
        None => false,
    }
}

pub(crate) fn usable_position_exec(p: &Option<Vec<Decimal>>) -> (r: bool)
    ensures
        r == usable_position(*p),
{
    match p {
        Some(v) => {
            if v.len() < 3 {
                return false;
            }
            let mut i: usize = 0;
            while i < 3
                invariant
                    i <= 3 <= v@.len(),
                    p is Some && v@ == p->0@,
                    forall|j: int| 0 <= j < i ==> (#[trigger] v@[j]).in_range(),
                decreases 3 - i,
            {
                if v[i].micros < -MAX_MICROS || v[i].micros > MAX_MICROS {
                    return false;
                }
                i = i + 1;
            }
            true
        },
        None => false,
    }
}

/// Decides the tier of a series; for the projection tier, also the
/// orientation whose normal it uses.
pub(crate) fn find_tier(s: &Vec<Instance>) -> (r: (u8, Vec<Decimal>))
    ensures
        r.0 as int == tier_of(s@).0,
        r.0 == 0 ==> r.1@ == tier_of(s@).1 && r.1@.len() >= 6 && forall|i: int|
            0 <= i < 6 ==> cosine_ok(#[trigger] r.1@[i]),
{
    let mut orientation: Option<Vec<Decimal>> = None;
    let mut any_position = false;
    let mut any_location = false;
    let mut any_z = false;
    let mut i: usize = 0;
    assert(s@.skip(0) =~= s@);
    while i < s.len()
        invariant
            i <= s.len(),
            orientation is None ==> first_orientation(s@) == first_orientation(s@.skip(i as int)),
            orientation is Some ==> first_orientation(s@) == Some(orientation->0@)
                && usable_orientation(orientation),
            any_position == exists|j: int| 0 <= j < i && usable_position(#[trigger] s@[j].image_position),
            any_location == exists|j: int| 0 <= j < i && (#[trigger] s@[j].slice_location) is Some,
            any_z == exists|j: int| 0 <= j < i && has_position_z(#[trigger] s@[j]),
        decreases s.len() - i,
    {
        let inst = &s[i];
        assert(s@.skip(i as int).drop_first() =~= s@.skip(i + 1));
        if orientation.is_none() && usable_orientation_exec(&inst.image_orientation) {
            orientation = inst.image_orientation.clone();
        }
        if usable_position_exec(&inst.image_position) {
            any_position = true;
        }
        if inst.slice_location.is_some() {
            any_location = true;
        }
        match &inst.image_position {
            Some(p) => if p.len() >= 3 {
                any_z = true;
            },
            None => {},
        }
        i = i + 1;
    }
    if orientation.is_none() {
        assert(s@.skip(s@.len() as int) =~= Seq::<Instance>::empty());
    }
    match orientation {
        Some(o) => if any_position {
            return (0, o);
        },
        None => {},
    }
    if any_location {
        (1, Vec::new())
    } else if any_z {
        (2, Vec::new())
    } else {
        (3, Vec::new())
    }
}

/// The projection of a position onto the normal of an orientation.
pub(crate) fn projection_exec(o: &Vec<Decimal>, p: &Vec<Decimal>) -> (r: i128)
    requires
        o@.len() >= 6,
        forall|i: int| 0 <= i < 6 ==> cosine_ok(#[trigger] o@[i]),
        p@.len() >= 3,
        forall|i: int| 0 <= i < 3 ==> (#[trigger] p@[i]).in_range(),
    ensures
        r as int == projection(normal_of(o@), p@),
{
    assert(cosine_ok(o@[0]) && cosine_ok(o@[1]) && cosine_ok(o@[2]));
    assert(cosine_ok(o@[3]) && cosine_ok(o@[4]) && cosine_ok(o@[5]));
    assert(p@[0].in_range() && p@[1].in_range() && p@[2].in_range());
    let r0 = o[0].micros as i128;
    let r1 = o[1].micros as i128;
    let r2 = o[2].micros as i128;
    let c0 = o[3].micros as i128;
    let c1 = o[4].micros as i128;
    let c2 = o[5].micros as i128;
    let p0 = p[0].micros as i128;
    let p1 = p[1].micros as i128;
    let p2 = p[2].micros as i128;
    assert(-1_000_000_000_000 <= r1 * c2 <= 1_000_000_000_000) by (nonlinear_arith)
        requires -1_000_000 <= r1 <= 1_000_000, -1_000_000 <= c2 <= 1_000_000;
    assert(-1_000_000_000_000 <= r2 * c1 <= 1_000_000_000_000) by (nonlinear_arith)
        requires -1_000_000 <= r2 <= 1_000_000, -1_000_000 <= c1 <= 1_000_000;
    assert(-1_000_000_000_000 <= r2 * c0 <= 1_000_000_000_000) by (nonlinear_arith)
        requires -1_000_000 <= r2 <= 1_000_000, -1_000_000 <= c0 <= 1_000_000;
    assert(-1_000_000_000_000 <= r0 * c2 <= 1_000_000_000_000) by (nonlinear_arith)
        requires -1_000_000 <= r0 <= 1_000_000, -1_000_000 <= c2 <= 1_000_000;
    assert(-1_000_000_000_000 <= r0 * c1 <= 1_000_000_000_000) by (nonlinear_arith)
        requires -1_000_000 <= r0 <= 1_000_000, -1_000_000 <= c1 <= 1_000_000;
    assert(-1_000_000_000_000 <= r1 * c0 <= 1_000_000_000_000) by (nonlinear_arith)
        requires -1_000_000 <= r1 <= 1_000_000, -1_000_000 <= c0 <= 1_000_000;
    let n0 = r1 * c2 - r2 * c1;
    let n1 = r2 * c0 - r0 * c2;
    let n2 = r0 * c1 - r1 * c0;
    assert(-20_000_000_000_000_000_000_000_000 <= n0 * p0 <= 20_000_000_000_000_000_000_000_000) by (nonlinear_arith)
        requires -2_000_000_000_000 <= n0 <= 2_000_000_000_000, -10_000_000_000_000 <= p0 <= 10_000_000_000_000;
    assert(-20_000_000_000_000_000_000_000_000 <= n1 * p1 <= 20_000_000_000_000_000_000_000_000) by (nonlinear_arith)
        requires -2_000_000_000_000 <= n1 <= 2_000_000_000_000, -10_000_000_000_000 <= p1 <= 10_000_000_000_000;
    assert(-20_000_000_000_000_000_000_000_000 <= n2 * p2 <= 20_000_000_000_000_000_000_000_000) by (nonlinear_arith)
        requires -2_000_000_000_000 <= n2 <= 2_000_000_000_000, -10_000_000_000_000 <= p2 <= 10_000_000_000_000;
    n0 * p0 + n1 * p1 + n2 * p2
}

/// The key of one instance under a tier.
pub(crate) fn spatial_key_exec(tier: u8, orientation: &Vec<Decimal>, inst: &Instance) -> (r: (i128, i128))
    requires
        tier <= 3,
        tier == 0 ==> orientation@.len() >= 6 && forall|i: int|
            0 <= i < 6 ==> cosine_ok(#[trigger] orientation@[i]),
    ensures
        r == spatial_key((tier as int, orientation@), *inst),
{
    let tie = number_key_exec(inst.instance_number);
    if tier == 0 {
        if usable_position_exec(&inst.image_position) {
            match &inst.image_position {
                Some(p) => {
                    let v = projection_exec(orientation, p);
                    (v, tie)
                },
                None => (ABSENT_KEY, tie),
            }
        } else {
            (ABSENT_KEY, tie)
        }
    } else if tier == 1 {
        match inst.slice_location {
            Some(d) => (d.micros as i128, tie),
            None => (ABSENT_KEY, tie),
        }
    } else if tier == 2 {
        match &inst.image_position {
            Some(p) => if p.len() >= 3 {
                (p[2].micros as i128, tie)
            } else {
                (ABSENT_KEY, tie)
            },
            None => (ABSENT_KEY, tie),
        }
    } else {
        (tie, 0)
    }
}

/// Orders the instances of a series by anatomical position: along the
/// slice normal where an orientation and positions allow it, else by slice
/// location, else by the z coordinate, else by instance number. Instances
/// lacking the value used come last; equal keys keep their order.
pub fn sort_instances(instances: Vec<Instance>) -> (r: Vec<Instance>)
    ensures
        r@ == spatially_sorted(instances@),
        sorted_by(r@, spatial_order(tier_of(instances@))),
        r@.to_multiset() == instances@.to_multiset(),
{
    let (tier, orientation) = find_tier(&instances);
    let ghost t = tier_of(instances@);
    assert(tier == 0 ==> (tier as int, orientation@) == t);
    let mut keys: Vec<(i128, i128)> = Vec::new();
    let mut i: usize = 0;
    while i < instances.len()
        invariant
            i <= instances.len(),
            tier <= 3,
            tier as int == t.0,
            tier == 0 ==> orientation@ == t.1 && orientation@.len() >= 6 && forall|k: int|
                0 <= k < 6 ==> cosine_ok(#[trigger] orientation@[k]),
            keys@.len() == i,
            forall|j: int| 0 <= j < i ==> keys@[j] == spatial_key(t, #[trigger] instances@[j]),
        decreases instances.len() - i,
    {
        let k = spatial_key_exec(tier, &orientation, &instances[i]);
        assert(spatial_key((tier as int, orientation@), instances@[i as int]) == spatial_key(t, instances@[i as int]));
        keys.push(k);
        i = i + 1;
    }
    proof {
        lemma_sort_by(instances@, spatial_order(t));
    }
    sort_by_keys(instances, keys, Ghost(spatial_order(t)))
}

pub proof fn lemma_first_orientation(s: Seq<Instance>)
    ensures
        first_orientation(s) is Some <==> exists|i: int|
            0 <= i < s.len() && usable_orientation(#[trigger] s[i].image_orientation),
        first_orientation(s) is Some ==> exists|i: int|
            0 <= i < s.len() && usable_orientation(#[trigger] s[i].image_orientation)
                && s[i].image_orientation->0@ == first_orientation(s)->0,
    decreases s.len(),
{
    if s.len() > 0 {
        lemma_first_orientation(s.drop_first());
        if !usable_orientation(s[0].image_orientation) {
            if exists|i: int| 0 <= i < s.len() && usable_orientation(#[trigger] s[i].image_orientation) {
                let i = choose|i: int| 0 <= i < s.len() && usable_orientation(#[trigger] s[i].image_orientation);
                assert(s.drop_first()[i - 1] == s[i]);
            }
            if first_orientation(s) is Some {
                let i = choose|i: int|
                    0 <= i < s.drop_first().len() && usable_orientation(#[trigger] s.drop_first()[i].image_orientation)
                        && s.drop_first()[i].image_orientation->0@ == first_orientation(s)->0;
                assert(s[i + 1] == s.drop_first()[i]);
            }
        }
    }
}

/// The instances that have a usable orientation all have the same one.
pub open spec fn one_orientation(s: Seq<Instance>) -> bool {
    forall|i: int, j: int|
        0 <= i < s.len() && 0 <= j < s.len() && usable_orientation(#[trigger] s[i].image_orientation)
            && usable_orientation(#[trigger] s[j].image_orientation)
            ==> s[i].image_orientation->0@ == s[j].image_orientation->0@
}

/// Sorting a series that is already in spatial order leaves it unchanged:
/// sorting twice gives what sorting once gives. (The instances with a
/// usable orientation must agree on it, since the normal is taken from the
/// first of them.)
pub proof fn law_spatial_sort_idempotent(s: Seq<Instance>)
    requires
        one_orientation(s),
    ensures
        spatially_sorted(spatially_sorted(s)) == spatially_sorted(s),
{
    let t = tier_of(s);
    let r = spatially_sorted(s);
    lemma_sort_by(s, spatial_order(t));
    assert(r.to_multiset() == s.to_multiset());
    assert forall|x: Instance| r.contains(x) <==> s.contains(x) by {
        assert(r.to_multiset().count(x) == s.to_multiset().count(x));
    }
    assert forall|x: Instance| #[trigger] r.contains(x) ==> s.contains(x) by {}
    // every condition that picks the tier reads the same on both
    assert((exists|i: int| 0 <= i < r.len() && usable_position(#[trigger] r[i].image_position))
        == (exists|i: int| 0 <= i < s.len() && usable_position(#[trigger] s[i].image_position))) by {
        if exists|i: int| 0 <= i < r.len() && usable_position(#[trigger] r[i].image_position) {
            let i = choose|i: int| 0 <= i < r.len() && usable_position(#[trigger] r[i].image_position);
            assert(r.contains(r[i]));
            let j = choose|j: int| 0 <= j < s.len() && s[j] == r[i];
        }
        if exists|i: int| 0 <= i < s.len() && usable_position(#[trigger] s[i].image_position) {
            let i = choose|i: int| 0 <= i < s.len() && usable_position(#[trigger] s[i].image_position);
            assert(s.contains(s[i]));
            let j = choose|j: int| 0 <= j < r.len() && r[j] == s[i];
        }
    }
    assert((exists|i: int| 0 <= i < r.len() && (#[trigger] r[i].slice_location) is Some)
        == (exists|i: int| 0 <= i < s.len() && (#[trigger] s[i].slice_location) is Some)) by {
        if exists|i: int| 0 <= i < r.len() && (#[trigger] r[i].slice_location) is Some {
            let i = choose|i: int| 0 <= i < r.len() && (#[trigger] r[i].slice_location) is Some;
            assert(r.contains(r[i]));
            let j = choose|j: int| 0 <= j < s.len() && s[j] == r[i];
        }
        if exists|i: int| 0 <= i < s.len() && (#[trigger] s[i].slice_location) is Some {
            let i = choose|i: int| 0 <= i < s.len() && (#[trigger] s[i].slice_location) is Some;
            assert(s.contains(s[i]));
            let j = choose|j: int| 0 <= j < r.len() && r[j] == s[i];
        }
    }
    assert((exists|i: int| 0 <= i < r.len() && has_position_z(#[trigger] r[i]))
        == (exists|i: int| 0 <= i < s.len() && has_position_z(#[trigger] s[i]))) by {
        if exists|i: int| 0 <= i < r.len() && has_position_z(#[trigger] r[i]) {
            let i = choose|i: int| 0 <= i < r.len() && has_position_z(#[trigger] r[i]);
            assert(r.contains(r[i]));
            let j = choose|j: int| 0 <= j < s.len() && s[j] == r[i];
        }
        if exists|i: int| 0 <= i < s.len() && has_position_z(#[trigger] s[i]) {
            let i = choose|i: int| 0 <= i < s.len() && has_position_z(#[trigger] s[i]);
            assert(s.contains(s[i]));
            let j = choose|j: int| 0 <= j < r.len() && r[j] == s[i];
        }
    }
    lemma_first_orientation(s);
    lemma_first_orientation(r);
    assert((exists|i: int| 0 <= i < r.len() && usable_orientation(#[trigger] r[i].image_orientation))
        == (exists|i: int| 0 <= i < s.len() && usable_orientation(#[trigger] s[i].image_orientation))) by {
        if exists|i: int| 0 <= i < r.len() && usable_orientation(#[trigger] r[i].image_orientation) {
            let i = choose|i: int| 0 <= i < r.len() && usable_orientation(#[trigger] r[i].image_orientation);
            assert(r.contains(r[i]));
            let j = choose|j: int| 0 <= j < s.len() && s[j] == r[i];
        }
        if exists|i: int| 0 <= i < s.len() && usable_orientation(#[trigger] s[i].image_orientation) {
            let i = choose|i: int| 0 <= i < s.len() && usable_orientation(#[trigger] s[i].image_orientation);
            assert(s.contains(s[i]));
            let j = choose|j: int| 0 <= j < r.len() && r[j] == s[i];
        }
    }
    if first_orientation(s) is Some {
        let a = choose|i: int|
            0 <= i < s.len() && usable_orientation(#[trigger] s[i].image_orientation)
                && s[i].image_orientation->0@ == first_orientation(s)->0;
        let b = choose|i: int|
            0 <= i < r.len() && usable_orientation(#[trigger] r[i].image_orientation)
                && r[i].image_orientation->0@ == first_orientation(r)->0;
        assert(r.contains(r[b]));
        let c = choose|j: int| 0 <= j < s.len() && s[j] == r[b];
        assert(first_orientation(r) == first_orientation(s));
    }
    assert(tier_of(r) == t);
    lemma_sort_by_sorted(r, spatial_order(t));
}

/// The projections of the usable positions of a series, in order, onto the
/// normal of an orientation.
pub open spec fn projections(s: Seq<Instance>, o: Seq<Decimal>) -> Seq<int>
    decreases s.len(),
{
    if s.len() == 0 {
        Seq::empty()
    } else {
        let prev = projections(s.drop_last(), o);
        if usable_position(s.last().image_position) {
            prev.push(projection(normal_of(o), s.last().image_position->0@))
        } else {
            prev
        }
    }
}

/// A volume runs against the normal when the first projected slice lies
/// beyond the second.
pub open spec fn runs_descending(s: Seq<Instance>) -> bool {
    let t = tier_of(s);
    let ps = projections(s, t.1);
    t.0 == 0 && ps.len() >= 2 && ps[0] > ps[1]
}

/// The volume key: the spatial key, with the projection negated when the
/// volume runs against the normal.
pub open spec fn volume_key(t: (int, Seq<Decimal>), descending: bool, i: Instance) -> (i128, i128) {
    let k = spatial_key(t, i);
    if t.0 == 0 && descending && usable_position(i.image_position) {
        ((-k.0) as i128, k.1)
    } else {
        k
    }
}

/// Projections of usable positions onto normals of usable orientations
/// stay far inside the range of `i128`.
pub proof fn lemma_projection_bound(o: Seq<Decimal>, p: Seq<Decimal>)
    requires
        o.len() >= 6,
        forall|i: int| 0 <= i < 6 ==> cosine_ok(#[trigger] o[i]),
        p.len() >= 3,
        forall|i: int| 0 <= i < 3 ==> (#[trigger] p[i]).in_range(),
    ensures
        -100_000_000_000_000_000_000_000_000 <= projection(normal_of(o), p) <= 100_000_000_000_000_000_000_000_000,
{
    assert(cosine_ok(o[0]) && cosine_ok(o[1]) && cosine_ok(o[2]));
    assert(cosine_ok(o[3]) && cosine_ok(o[4]) && cosine_ok(o[5]));
    assert(p[0].in_range() && p[1].in_range() && p[2].in_range());
    let (r0, r1, r2) = (o[0].micros as int, o[1].micros as int, o[2].micros as int);
    let (c0, c1, c2) = (o[3].micros as int, o[4].micros as int, o[5].micros as int);
    let (p0, p1, p2) = (p[0].micros as int, p[1].micros as int, p[2].micros as int);
    assert(-1_000_000_000_000 <= r1 * c2 <= 1_000_000_000_000) by (nonlinear_arith)
        requires -1_000_000 <= r1 <= 1_000_000, -1_000_000 <= c2 <= 1_000_000;
    assert(-1_000_000_000_000 <= r2 * c1 <= 1_000_000_000_000) by (nonlinear_arith)
        requires -1_000_000 <= r2 <= 1_000_000, -1_000_000 <= c1 <= 1_000_000;
    assert(-1_000_000_000_000 <= r2 * c0 <= 1_000_000_000_000) by (nonlinear_arith)
        requires -1_000_000 <= r2 <= 1_000_000, -1_000_000 <= c0 <= 1_000_000;
    assert(-1_000_000_000_000 <= r0 * c2 <= 1_000_000_000_000) by (nonlinear_arith)
        requires -1_000_000 <= r0 <= 1_000_000, -1_000_000 <= c2 <= 1_000_000;
    assert(-1_000_000_000_000 <= r0 * c1 <= 1_000_000_000_000) by (nonlinear_arith)
        requires -1_000_000 <= r0 <= 1_000_000, -1_000_000 <= c1 <= 1_000_000;
    assert(-1_000_000_000_000 <= r1 * c0 <= 1_000_000_000_000) by (nonlinear_arith)
        requires -1_000_000 <= r1 <= 1_000_000, -1_000_000 <= c0 <= 1_000_000;
    let n = normal_of(o);
    assert(-20_000_000_000_000_000_000_000_000 <= n.0 * p0 <= 20_000_000_000_000_000_000_000_000) by (nonlinear_arith)
        requires -2_000_000_000_000 <= n.0 <= 2_000_000_000_000, -10_000_000_000_000 <= p0 <= 10_000_000_000_000;
    assert(-20_000_000_000_000_000_000_000_000 <= n.1 * p1 <= 20_000_000_000_000_000_000_000_000) by (nonlinear_arith)
        requires -2_000_000_000_000 <= n.1 <= 2_000_000_000_000, -10_000_000_000_000 <= p1 <= 10_000_000_000_000;
    assert(-20_000_000_000_000_000_000_000_000 <= n.2 * p2 <= 20_000_000_000_000_000_000_000_000) by (nonlinear_arith)
        requires -2_000_000_000_000 <= n.2 <= 2_000_000_000_000, -10_000_000_000_000 <= p2 <= 10_000_000_000_000;
}

pub open spec fn volume_order(t: (int, Seq<Decimal>), descending: bool) -> spec_fn(Instance) -> (i128, i128) {
    |i: Instance| volume_key(t, descending, i)
}

/// The order of the slices of a volume: as the spatial order, except that
/// along the slice normal the direction follows the first two slices that
/// have positions (descending when the first lies beyond the second).
pub open spec fn volume_sorted(s: Seq<Instance>) -> Seq<Instance> {
    sort_by(s, volume_order(tier_of(s), runs_descending(s)))
}

/// The volume keys of the instances of a series.
pub fn volume_keys(instances: &Vec<Instance>) -> (r: Vec<(i128, i128)>)
    ensures
        r@.len() == instances@.len(),
        forall|k: int|
            0 <= k < r@.len() ==> r@[k] == volume_key(tier_of(instances@), runs_descending(instances@), #[trigger] instances@[k]),
{
    let (tier, orientation) = find_tier(&instances);
    let ghost t = tier_of(instances@);
    // the first two projections decide the direction
    let mut first: Option<i128> = None;
    let mut descending = false;
    let mut found: usize = 0;
    let mut i: usize = 0;
    assert(instances@.take(0) =~= Seq::<Instance>::empty());
    while i < instances.len()
        invariant
            i <= instances.len(),
            tier as int == t.0,
            tier == 0 ==> orientation@ == t.1 && orientation@.len() >= 6 && forall|k: int|
                0 <= k < 6 ==> cosine_ok(#[trigger] orientation@[k]),
            found <= 2,
            tier == 0 ==> found as int == if projections(instances@.take(i as int), t.1).len() >= 2 {
                2
            } else {
                projections(instances@.take(i as int), t.1).len() as int
            },
            tier == 0 && found >= 1 ==> first is Some && first->0 as int == projections(
                instances@.take(i as int),
                t.1,
            )[0],
            tier == 0 && found >= 2 ==> descending == (projections(instances@.take(i as int), t.1)[0]
                > projections(instances@.take(i as int), t.1)[1]),
            found < 2 ==> !descending,
            first is Some <==> found >= 1,
            tier != 0 ==> !descending && found == 0,
        decreases instances.len() - i,
    {
        let ghost before = projections(instances@.take(i as int), t.1);
        assert(instances@.take(i + 1).drop_last() =~= instances@.take(i as int));
        assert(instances@.take(i + 1).last() == instances@[i as int]);
        let ghost after = projections(instances@.take(i + 1), t.1);
        if tier == 0 && usable_position_exec(&instances[i].image_position) {
            assert(after == before.push(projection(normal_of(t.1), instances@[i as int].image_position->0@)));
            assert(before.len() >= 1 ==> after[0] == before[0]);
            assert(before.len() >= 2 ==> after[1] == before[1]);
            assert(before.len() == 0 ==> after[0] == projection(normal_of(t.1), instances@[i as int].image_position->0@));
            assert(before.len() == 1 ==> after[1] == projection(normal_of(t.1), instances@[i as int].image_position->0@));
            if found < 2 {
                match &instances[i].image_position {
                    Some(p) => {
                        let v = projection_exec(&orientation, p);
                        match first {
                            None => {
                                first = Some(v);
                            },
                            Some(f) => {
                                descending = f > v;
                            },
                        }
                        found = found + 1;
                    },
                    None => {},
                }
            }
        } else {
            assert(tier == 0 ==> after == before);
        }
        i = i + 1;
    }
    assert(instances@.take(instances@.len() as int) =~= instances@);
    assert(descending == runs_descending(instances@));
    let mut keys: Vec<(i128, i128)> = Vec::new();
    let mut j: usize = 0;
    while j < instances.len()
        invariant
            j <= instances.len(),
            tier <= 3,
            tier as int == t.0,
            tier == 0 ==> orientation@ == t.1 && orientation@.len() >= 6 && forall|k: int|
                0 <= k < 6 ==> cosine_ok(#[trigger] orientation@[k]),
            descending == runs_descending(instances@),
            keys@.len() == j,
            forall|k: int| 0 <= k < j ==> keys@[k] == volume_key(t, descending, #[trigger] instances@[k]),
        decreases instances.len() - j,
    {
        let k = spatial_key_exec(tier, &orientation, &instances[j]);
        assert(spatial_key((tier as int, orientation@), instances@[j as int]) == spatial_key(t, instances@[j as int]));
        if tier == 0 && descending && usable_position_exec(&instances[j].image_position) {
            proof {
                lemma_projection_bound(t.1, instances@[j as int].image_position->0@);
            }
            keys.push((-k.0, k.1));
        } else {
            keys.push(k);
        }
        j = j + 1;
    }
    keys
}

/// Orders the slices of a volume; see `volume_sorted`.
pub fn sort_for_volume(instances: Vec<Instance>) -> (r: Vec<Instance>)
    ensures
        r@ == volume_sorted(instances@),
        r@.len() == instances@.len(),
{
    let keys = volume_keys(&instances);
    let ghost t = tier_of(instances@);
    let ghost d = runs_descending(instances@);
    proof {
        lemma_sort_by(instances@, volume_order(t, d));
    }
    sort_by_keys(instances, keys, Ghost(volume_order(t, d)))
}

} // verus!
