//! Building a traffic-signal plan for one intersection: classifying its
//! movements, trying stage templates and fallbacks until one validates, and
//! optimizing the result.
use vstd::prelude::*;

use crate::geom::{length_spec, polyline_length};
use crate::map::{
    contains_road, DrivingSide, Intersection, Movement, MovementID, RoadID, StreetMap, TurnType,
};
use crate::signal::{
    conflict_free, ids_conflict, insert_id, movements_conflict, plan_valid, protected_in, same_stage,
    stage_valid, stages_valid, subset_ids, ControlTrafficSignal, Stage, StageType,
    DEFAULT_STAGE_MILLIS,
};

verus! {

/// `v` is strictly increasing by road number.
pub open spec fn sorted_roads(v: Seq<RoadID>) -> bool {
    forall|a: int, b: int| 0 <= a < b < v.len() ==> (#[trigger] v[a]).0 < (#[trigger] v[b]).0
}

/// Some vehicle movement of `i` leaves from `r`.
pub open spec fn vehicle_from(i: Intersection, r: RoadID) -> bool {
    exists|a: int|
        0 <= a < i.movements@.len() && !(#[trigger] i.movements@[a]).id.crosswalk
            && i.movements@[a].id.from.road == r
}

/// Adds `r` to a sorted set of roads, keeping it sorted.
fn insert_road(v: &mut Vec<RoadID>, r: RoadID)
    requires
        sorted_roads(old(v)@),
    ensures
        sorted_roads(final(v)@),
        forall|x: RoadID| final(v)@.contains(x) <==> (old(v)@.contains(x) || x == r),
{
    let mut pos: usize = 0;
    while pos < v.len() && v[pos].0 < r.0
        invariant
            pos <= v@.len(),
            v@ == old(v)@,
            forall|a: int| 0 <= a < pos ==> (#[trigger] v@[a]).0 < r.0,
        decreases v.len() - pos,
    {
        pos += 1;
    }
    if pos < v.len() && v[pos].0 == r.0 {
        assert(v@[pos as int] == r);
        return;
    }
    v.insert(pos, r);
    proof {
        assert forall|x: RoadID| v@.contains(x) <==> (old(v)@.contains(x) || x == r) by {
            if old(v)@.contains(x) {
                let j = choose|j: int| 0 <= j < old(v)@.len() && old(v)@[j] == x;
                if j < pos {
                    assert(v@[j] == x);
                } else {
                    assert(v@[j + 1] == x);
                }
            }
            if x == r {
                assert(v@[pos as int] == r);
            }
            if v@.contains(x) && x != r {
                let j = choose|j: int| 0 <= j < v@.len() && v@[j] == x;
                if j < pos {
                    assert(old(v)@[j] == x);
                } else {
                    assert(old(v)@[j - 1] == x);
                }
            }
        }
    }
}

pub open spec fn leaves_from(from: RoadID) -> spec_fn(MovementID) -> bool {
    |m: MovementID| m.from.road == from
}

/// The identifiers of `v` that leave from road `from`, in their order.
fn movements_from(from: RoadID, v: &Vec<MovementID>) -> (r: Vec<MovementID>)
    ensures
        r@ == v@.filter(leaves_from(from)),
        forall|x: MovementID| #[trigger] r@.contains(x) ==> v@.contains(x),
{
    let mut r: Vec<MovementID> = Vec::new();
    let mut k: usize = 0;
    while k < v.len()
        invariant
            k <= v@.len(),
            r@ == v@.subrange(0, k as int).filter(leaves_from(from)),
        decreases v.len() - k,
    {
        let m = v[k];
        proof {
            assert(v@.subrange(0, k + 1) == v@.subrange(0, k as int).push(m));
            v@.subrange(0, k as int).lemma_filter_push(m, leaves_from(from));
        }
        if m.from.road == from {
            r.push(m);
        }
        k += 1;
    }
    assert(v@.subrange(0, v@.len() as int) == v@);
    proof {
        assert forall|x: MovementID| #[trigger] r@.contains(x) implies v@.contains(x) by {
            v@.lemma_filter_contains_rev(leaves_from(from), x);
        }
    }
    r
}

/// A vehicle movement of type `t`.
pub open spec fn vehicle_of_type(t: TurnType) -> spec_fn(Movement) -> bool {
    |m: Movement| !m.id.crosswalk && m.turn_type == t
}

pub open spec fn movement_id() -> spec_fn(Movement) -> MovementID {
    |m: Movement| m.id
}

/// The identifiers of the vehicle movements of `i` of type `t`, in table order.
pub open spec fn ids_of_type(i: Intersection, t: TurnType) -> Seq<MovementID> {
    i.movements@.filter(vehicle_of_type(t)).map_values(movement_id())
}

/// The identifiers of the vehicle movements of `i` of type `t`, in table order.
fn movements_of_type(i: &Intersection, t: TurnType) -> (r: Vec<MovementID>)
    ensures
        r@ == ids_of_type(*i, t),
{
    let mut r: Vec<MovementID> = Vec::new();
    let mut k: usize = 0;
    while k < i.movements.len()
        invariant
            k <= i.movements@.len(),
            r@ == i.movements@.subrange(0, k as int).filter(vehicle_of_type(t)).map_values(
                movement_id(),
            ),
        decreases i.movements.len() - k,
    {
        let m = &i.movements[k];
        proof {
            let pre = i.movements@.subrange(0, k as int);
            assert(i.movements@.subrange(0, k + 1) == pre.push(*m));
            pre.lemma_filter_push(*m, vehicle_of_type(t));
            assert(pre.filter(vehicle_of_type(t)).push(*m).map_values(movement_id())
                =~= pre.filter(vehicle_of_type(t)).map_values(movement_id()).push(m.id));
        }
        if !m.id.crosswalk && m.turn_type == t {
            r.push(m.id);
        }
        k += 1;
    }
    assert(i.movements@.subrange(0, i.movements@.len() as int) == i.movements@);
    r
}

/// The roads that some vehicle movement of `i` leaves from, ascending.
fn from_roads(i: &Intersection) -> (r: Vec<RoadID>)
    ensures
        sorted_roads(r@),
        forall|x: RoadID| r@.contains(x) <==> vehicle_from(*i, x),
{
    let mut r: Vec<RoadID> = Vec::new();
    let mut k: usize = 0;
    while k < i.movements.len()
        invariant
            k <= i.movements@.len(),
            sorted_roads(r@),
            forall|x: RoadID|
                r@.contains(x) <==> exists|a: int|
                    0 <= a < k && !(#[trigger] i.movements@[a]).id.crosswalk
                        && i.movements@[a].id.from.road == x,
        decreases i.movements.len() - k,
    {
        let m = &i.movements[k];
        if !m.id.crosswalk {
            insert_road(&mut r, m.id.from.road);
        }
        proof {
            assert forall|x: RoadID|
                r@.contains(x) <==> exists|a: int|
                    0 <= a < k + 1 && !(#[trigger] i.movements@[a]).id.crosswalk
                        && i.movements@[a].id.from.road == x by {
                if x == m.id.from.road && !m.id.crosswalk {
                    assert(i.movements@[k as int] == *m);
                }
            }
        }
        k += 1;
    }
    r
}

/// The classification of `i`'s vehicle movements: right turns, left turns,
/// straight movements, and the roads they leave from.
fn movements(i: &Intersection) -> (r: (Vec<MovementID>, Vec<MovementID>, Vec<MovementID>, Vec<RoadID>))
    ensures
        r.0@ == ids_of_type(*i, TurnType::Right),
        r.1@ == ids_of_type(*i, TurnType::Left),
        r.2@ == ids_of_type(*i, TurnType::Straight),
        sorted_roads(r.3@),
        forall|x: RoadID| r.3@.contains(x) <==> vehicle_from(*i, x),
{
    (
        movements_of_type(i, TurnType::Right),
        movements_of_type(i, TurnType::Left),
        movements_of_type(i, TurnType::Straight),
        from_roads(i),
    )
}

/// `o` runs the opposite way of `m`.
pub open spec fn reverses(m: MovementID, o: MovementID) -> bool {
    m.from.road == o.to.road && m.to.road == o.from.road
}

pub open spec fn has_reverse_in(s: Seq<MovementID>) -> spec_fn(MovementID) -> bool {
    |m: MovementID| exists|k: int| 0 <= k < s.len() && reverses(m, #[trigger] s[k])
}

pub open spec fn no_reverse_in(s: Seq<MovementID>) -> spec_fn(MovementID) -> bool {
    |m: MovementID| !(exists|k: int| 0 <= k < s.len() && reverses(m, #[trigger] s[k]))
}

/// The first movement of `v` that runs the opposite way of `m`.
fn find_reverse(m: MovementID, v: &Vec<MovementID>) -> (r: Option<MovementID>)
    ensures
        match r {
            Some(o) => v@.contains(o) && reverses(m, o),
            None => !(exists|k: int| 0 <= k < v@.len() && reverses(m, #[trigger] v@[k])),
        },
{
    let mut k: usize = 0;
    while k < v.len()
        invariant
            forall|j: int| 0 <= j < k ==> !reverses(m, #[trigger] v@[j]),
        decreases v.len() - k,
    {
        let o = v[k];
        if m.from.road == o.to.road && m.to.road == o.from.road {
            assert(v@[k as int] == o);
            return Some(o);
        }
        k += 1;
    }
    None
}

/// Splits straight movements into one-way ones (nothing runs the opposite
/// way) and two-way ones, each paired with a movement running the other way.
fn straight_types(v: &Vec<MovementID>) -> (r: (Vec<MovementID>, Vec<(MovementID, MovementID)>))
    ensures
        r.0@ == v@.filter(no_reverse_in(v@)),
        r.1@.map_values(|p: (MovementID, MovementID)| p.0) == v@.filter(has_reverse_in(v@)),
        forall|k: int|
            0 <= k < r.1@.len() ==> v@.contains((#[trigger] r.1@[k]).1) && reverses(r.1@[k].0, r.1@[k].1),
{
    let mut one_way: Vec<MovementID> = Vec::new();
    let mut two_way: Vec<(MovementID, MovementID)> = Vec::new();
    let mut k: usize = 0;
    while k < v.len()
        invariant
            k <= v@.len(),
            one_way@ == v@.subrange(0, k as int).filter(no_reverse_in(v@)),
            two_way@.map_values(|p: (MovementID, MovementID)| p.0) == v@.subrange(0, k as int).filter(
                has_reverse_in(v@),
            ),
            forall|j: int|
                0 <= j < two_way@.len() ==> v@.contains((#[trigger] two_way@[j]).1) && reverses(
                    two_way@[j].0,
                    two_way@[j].1,
                ),
        decreases v.len() - k,
    {
        let m = v[k];
        proof {
            let pre = v@.subrange(0, k as int);
            assert(v@.subrange(0, k + 1) == pre.push(m));
            pre.lemma_filter_push(m, no_reverse_in(v@));
            pre.lemma_filter_push(m, has_reverse_in(v@));
        }
        match find_reverse(m, v) {
            Some(o) => {
                let ghost before = two_way@;
                two_way.push((m, o));
                assert(two_way@.map_values(|p: (MovementID, MovementID)| p.0) =~= before.map_values(
                    |p: (MovementID, MovementID)| p.0,
                ).push(m));
            },
            None => {
                one_way.push(m);
            },
        }
        k += 1;
    }
    assert(v@.subrange(0, v@.len() as int) == v@);
    (one_way, two_way)
}

/// Takes out the first movement of `v` from road `from` to road `to`.
fn remove_movement(from: RoadID, to: RoadID, v: &mut Vec<MovementID>) -> (r: Option<MovementID>)
    ensures
        match r {
            Some(m) => m.from.road == from && m.to.road == to && exists|k: int|
                0 <= k < old(v)@.len() && old(v)@[k] == m && final(v)@ == old(v)@.remove(k)
                    && forall|j: int| 0 <= j < k ==> !((#[trigger] old(v)@[j]).from.road == from
                        && old(v)@[j].to.road == to),
            None => final(v)@ == old(v)@ && forall|j: int|
                0 <= j < old(v)@.len() ==> !((#[trigger] old(v)@[j]).from.road == from
                    && old(v)@[j].to.road == to),
        },
        forall|x: MovementID| #[trigger] final(v)@.contains(x) ==> old(v)@.contains(x),
        r matches Some(m) ==> old(v)@.contains(m),
        forall|x: MovementID| #[trigger] old(v)@.contains(x) && !final(v)@.contains(x) ==> r == Some(x),
{
    let mut k: usize = 0;
    while k < v.len()
        invariant
            v@ == old(v)@,
            forall|j: int| 0 <= j < k ==> !((#[trigger] v@[j]).from.road == from && v@[j].to.road == to),
        decreases v.len() - k,
    {
        if v[k].from.road == from && v[k].to.road == to {
            let m = v.remove(k);
            proof {
                assert(old(v)@[k as int] == m);
                assert forall|x: MovementID| #[trigger] old(v)@.contains(x) && !v@.contains(x) implies Some(m) == Some(x) by {
                    let j = choose|j: int| 0 <= j < old(v)@.len() && old(v)@[j] == x;
                    if j < k {
                        assert(v@[j] == x);
                    } else if j > k {
                        assert(v@[j - 1] == x);
                    }
                }
                assert forall|x: MovementID| #[trigger] v@.contains(x) implies old(v)@.contains(x) by {
                    let j = choose|j: int| 0 <= j < v@.len() && v@[j] == x;
                    if j < k {
                        assert(old(v)@[j] == x);
                    } else {
                        assert(old(v)@[j + 1] == x);
                    }
                }
            }
            return Some(m);
        }
        k += 1;
    }
    None
}

/// `x` names a vehicle movement of `i`.
pub open spec fn is_vehicle_id(i: Intersection, x: MovementID) -> bool {
    exists|a: int| 0 <= a < i.movements@.len() && (#[trigger] i.movements@[a]).id == x && !x.crosswalk
}

/// Every identifier of `s` names a vehicle movement of `i`.
pub open spec fn vehicle_ids(i: Intersection, s: Seq<MovementID>) -> bool {
    forall|x: MovementID| #[trigger] s.contains(x) ==> is_vehicle_id(i, x)
}

/// A stage that names only vehicle movements of `i`.
pub open spec fn vehicle_stage(i: Intersection, s: Stage) -> bool {
    vehicle_ids(i, s.protected_movements@) && vehicle_ids(i, s.yield_movements@)
}

proof fn lemma_ids_of_type_vehicle(i: Intersection, t: TurnType)
    ensures
        vehicle_ids(i, ids_of_type(i, t)),
{
    let f = i.movements@.filter(vehicle_of_type(t));
    let v = ids_of_type(i, t);
    assert forall|x: MovementID| #[trigger] v.contains(x) implies is_vehicle_id(i, x) by {
        let k = choose|k: int| 0 <= k < v.len() && v[k] == x;
        assert(v[k] == f[k].id);
        assert(f.contains(f[k]));
        i.movements@.lemma_filter_contains_rev(vehicle_of_type(t), f[k]);
        i.movements@.lemma_filter_pred(vehicle_of_type(t), k);
        let a = choose|a: int| 0 <= a < i.movements@.len() && i.movements@[a] == f[k];
        assert(i.movements@[a].id == x);
    }
}

/// Stages that each protect something, no two alike.
pub open spec fn distinct_nonempty(stages: Seq<Stage>) -> bool {
    &&& forall|k: int| 0 <= k < stages.len() ==> (#[trigger] stages[k]).protected_movements@.len() > 0
    &&& forall|a: int, b: int| 0 <= a < b < stages.len() ==> !same_stage(#[trigger] stages[a], #[trigger] stages[b])
}

/// Whether a stage like `s` is already in `stages`.
fn has_same_stage(stages: &Vec<Stage>, s: &Stage) -> (r: bool)
    ensures
        r == exists|k: int| 0 <= k < stages@.len() && same_stage(#[trigger] stages@[k], *s),
{
    let mut k: usize = 0;
    while k < stages.len()
        invariant
            forall|j: int| 0 <= j < k ==> !same_stage(#[trigger] stages@[j], *s),
        decreases stages.len() - k,
    {
        if stages[k].same_as(s) {
            return true;
        }
        k += 1;
    }
    false
}

/// Some stage of `stages` protects `x` or lets it yield.
pub open spec fn covered(stages: Seq<Stage>, x: MovementID) -> bool {
    exists|k: int|
        0 <= k < stages.len() && ((#[trigger] stages[k]).protected_movements@.contains(x)
            || stages[k].yield_movements@.contains(x))
}

/// Appends `stage` unless it protects nothing or an equal stage is there.
fn add_stage(ts: &mut ControlTrafficSignal, stage: Stage)
    ensures
        final(ts).id == old(ts).id,
        final(ts).stages@ == if stage.protected_movements@.len() > 0 && !(exists|k: int|
            0 <= k < old(ts).stages@.len() && same_stage(#[trigger] old(ts).stages@[k], stage)) {
            old(ts).stages@.push(stage)
        } else {
            old(ts).stages@
        },
        distinct_nonempty(old(ts).stages@) ==> distinct_nonempty(final(ts).stages@),
        forall|x: MovementID| #[trigger] covered(old(ts).stages@, x) ==> covered(final(ts).stages@, x),
        stage.protected_movements@.len() > 0 ==> forall|x: MovementID|
            (stage.protected_movements@.contains(x) || stage.yield_movements@.contains(x)) ==> #[trigger] covered(
                final(ts).stages@,
                x,
            ),
{
    if stage.protected_movements.len() == 0 {
        return;
    }
    if has_same_stage(&ts.stages, &stage) {
        proof {
            let k = choose|k: int| 0 <= k < ts.stages@.len() && same_stage(#[trigger] ts.stages@[k], stage);
            assert forall|x: MovementID| (stage.protected_movements@.contains(x) || stage.yield_movements@.contains(x))
                implies #[trigger] covered(ts.stages@, x) by {
                assert(ts.stages@[k].protected_movements@.contains(x) || ts.stages@[k].yield_movements@.contains(x));
            }
        }
        return;
    }
    let ghost before = ts.stages@;
    ts.stages.push(stage);
    proof {
        assert forall|x: MovementID| #[trigger] covered(before, x) implies covered(ts.stages@, x) by {
            let k = choose|k: int|
                0 <= k < before.len() && ((#[trigger] before[k]).protected_movements@.contains(x)
                    || before[k].yield_movements@.contains(x));
            assert(ts.stages@[k] == before[k]);
        }
        assert forall|x: MovementID| (stage.protected_movements@.contains(x) || stage.yield_movements@.contains(x))
            implies #[trigger] covered(ts.stages@, x) by {
            assert(ts.stages@[before.len() as int] == stage);
        }
    }
    proof {
        let n = old(ts).stages@.len();
        if distinct_nonempty(old(ts).stages@) {
            assert forall|a: int, b: int| 0 <= a < b < ts.stages@.len() implies !same_stage(
                #[trigger] ts.stages@[a],
                #[trigger] ts.stages@[b],
            ) by {
                assert(ts.stages@[a] == old(ts).stages@[a]);
                if b == n {
                    assert(!same_stage(old(ts).stages@[a], stage));
                } else {
                    assert(ts.stages@[b] == old(ts).stages@[b]);
                }
            }
        }
    }
}

/// A stage that protects `p` and lets `y` go after yielding.
fn protected_yield_stage(p: MovementID, y: MovementID) -> (r: Stage)
    ensures
        r.protected_movements@ == seq![p],
        r.yield_movements@ == seq![y],
        r.stage_type == StageType::Fixed(DEFAULT_STAGE_MILLIS),
{
    let mut stage = Stage::new();
    stage.protected_movements.push(p);
    stage.yield_movements.push(y);
    assert(stage.protected_movements@ =~= seq![p]);
    assert(stage.yield_movements@ =~= seq![y]);
    stage
}

/// A pair of protected movements of `stage` that conflict at `i`, if any.
fn is_conflict(stage: &Stage, i: &Intersection) -> (r: Option<(MovementID, MovementID)>)
    requires
        i.wf(),
    ensures
        match r {
            Some((a, b)) => stage.protected_movements@.contains(a) && stage.protected_movements@.contains(b)
                && ids_conflict(*i, a, b),
            None => conflict_free(*i, stage.protected_movements@),
        },
{
    let mut p: usize = 0;
    while p < stage.protected_movements.len()
        invariant
            i.wf(),
            p <= stage.protected_movements@.len(),
            forall|a: int, b: int|
                0 <= a < p && 0 <= b < stage.protected_movements@.len() ==> !ids_conflict(*i, #[trigger] stage.protected_movements@[a], #[trigger] stage.protected_movements@[b]),
        decreases stage.protected_movements.len() - p,
    {
        let mut q: usize = 0;
        while q < stage.protected_movements.len()
            invariant
                i.wf(),
                p < stage.protected_movements@.len(),
                forall|a: int, b: int|
                    0 <= a < p && 0 <= b < stage.protected_movements@.len() ==> !ids_conflict(*i, #[trigger] stage.protected_movements@[a], #[trigger] stage.protected_movements@[b]),
                forall|b: int| 0 <= b < q ==> !ids_conflict(*i, stage.protected_movements@[p as int], #[trigger] stage.protected_movements@[b]),
            decreases stage.protected_movements.len() - q,
        {
            if movements_conflict(i, &stage.protected_movements[p], &stage.protected_movements[q]) {
                let a = stage.protected_movements[p];
                let b = stage.protected_movements[q];
                assert(stage.protected_movements@[p as int] == a);
                assert(stage.protected_movements@[q as int] == b);
                assert(stage.protected_movements@.contains(a));
                assert(stage.protected_movements@.contains(b));
                return Some((a, b));
            }
            q += 1;
        }
        p += 1;
    }
    None
}

/// Adds every identifier of `w` to `v`.
fn extend_ids(v: &mut Vec<MovementID>, w: &Vec<MovementID>)
    ensures
        forall|x: MovementID| #[trigger] final(v)@.contains(x) <==> (old(v)@.contains(x) || w@.contains(x)),
{
    let mut k: usize = 0;
    while k < w.len()
        invariant
            k <= w@.len(),
            forall|x: MovementID|
                v@.contains(x) <==> (old(v)@.contains(x) || w@.subrange(0, k as int).contains(x)),
        decreases w.len() - k,
    {
        insert_id(v, w[k]);
        proof {
            assert forall|x: MovementID|
                v@.contains(x) <==> (old(v)@.contains(x) || w@.subrange(0, k + 1).contains(x)) by {
                if w@.subrange(0, k + 1).contains(x) && x != w@[k as int] {
                    let j = choose|j: int| 0 <= j < k + 1 && #[trigger] w@.subrange(0, k + 1)[j] == x;
                    assert(w@.subrange(0, k as int)[j] == x);
                }
                if w@.subrange(0, k as int).contains(x) {
                    let j = choose|j: int| 0 <= j < k && #[trigger] w@.subrange(0, k as int)[j] == x;
                    assert(w@.subrange(0, k + 1)[j] == x);
                }
                if x == w@[k as int] {
                    assert(w@.subrange(0, k + 1)[k as int] == x);
                }
            }
        }
        k += 1;
    }
    assert(w@.subrange(0, w@.len() as int) == w@);
}

/// Takes road `r` out of a sorted set of roads.
fn remove_road(v: &mut Vec<RoadID>, r: RoadID)
    requires
        sorted_roads(old(v)@),
    ensures
        sorted_roads(final(v)@),
        forall|x: RoadID| final(v)@.contains(x) <==> (old(v)@.contains(x) && x != r),
{
    let mut k: usize = 0;
    while k < v.len()
        invariant
            v@ == old(v)@,
            sorted_roads(old(v)@),
            forall|j: int| 0 <= j < k ==> v@[j] != r,
        decreases v.len() - k,
    {
        if v[k] == r {
            v.remove(k);
            proof {
                assert forall|x: RoadID| v@.contains(x) <==> (old(v)@.contains(x) && x != r) by {
                    if old(v)@.contains(x) && x != r {
                        let j = choose|j: int| 0 <= j < old(v)@.len() && old(v)@[j] == x;
                        if j < k {
                            assert(v@[j] == x);
                        } else if j > k {
                            assert(v@[j - 1] == x);
                        }
                    }
                    if v@.contains(x) {
                        let j = choose|j: int| 0 <= j < v@.len() && v@[j] == x;
                        if j < k {
                            assert(old(v)@[j] == x);
                        } else {
                            assert(old(v)@[j + 1] == x);
                            assert(old(v)@[k as int].0 < old(v)@[j + 1].0);
                        }
                    }
                }
            }
            return;
        }
        k += 1;
    }
}

/// Adds to `v` the identifiers of `src` that leave from road `from`.
fn extend_from(v: &mut Vec<MovementID>, from: RoadID, src: &Vec<MovementID>, Ghost(i): Ghost<Intersection>)
    requires
        vehicle_ids(i, old(v)@),
        vehicle_ids(i, src@),
    ensures
        vehicle_ids(i, final(v)@),
        forall|x: MovementID|
            #[trigger] final(v)@.contains(x) <==> (old(v)@.contains(x) || (src@.contains(x) && x.from.road == from)),
{
    let w = movements_from(from, src);
    proof {
        assert forall|x: MovementID| #[trigger] w@.contains(x) <==> (src@.contains(x) && x.from.road == from) by {
            if w@.contains(x) {
                src@.lemma_filter_contains_rev(leaves_from(from), x);
                let k = choose|k: int| 0 <= k < w@.len() && w@[k] == x;
                src@.lemma_filter_pred(leaves_from(from), k);
            }
            if src@.contains(x) && x.from.road == from {
                let k = choose|k: int| 0 <= k < src@.len() && src@[k] == x;
                src@.lemma_filter_contains(leaves_from(from), k);
            }
        }
    }
    let mut k: usize = 0;
    while k < w.len()
        invariant
            k <= w@.len(),
            vehicle_ids(i, src@),
            vehicle_ids(i, old(v)@),
            forall|x: MovementID| #[trigger] w@.contains(x) <==> (src@.contains(x) && x.from.road == from),
            forall|x: MovementID| v@.contains(x) <==> (old(v)@.contains(x) || w@.subrange(0, k as int).contains(x)),
        decreases w.len() - k,
    {
        let m = w[k];
        insert_id(v, m);
        proof {
            assert forall|x: MovementID| v@.contains(x) <==> (old(v)@.contains(x) || w@.subrange(0, k + 1).contains(x)) by {
                if w@.subrange(0, k + 1).contains(x) && x != m {
                    let j = choose|j: int| 0 <= j < k + 1 && #[trigger] w@.subrange(0, k + 1)[j] == x;
                    assert(w@.subrange(0, k as int)[j] == x);
                }
                if w@.subrange(0, k as int).contains(x) {
                    let j = choose|j: int| 0 <= j < k && #[trigger] w@.subrange(0, k as int)[j] == x;
                    assert(w@.subrange(0, k + 1)[j] == x);
                }
                if x == m {
                    assert(w@.subrange(0, k + 1)[k as int] == x);
                }
            }
        }
        k += 1;
    }
    assert(w@.subrange(0, w@.len() as int) == w@);
    assert forall|x: MovementID| #[trigger] v@.contains(x) implies is_vehicle_id(i, x) by {
        if !old(v)@.contains(x) {
            assert(w@.contains(x));
            assert(src@.contains(x));
        }
    }
}

/// Adds the vehicle movement `m` to `v`.
fn insert_vehicle(v: &mut Vec<MovementID>, m: MovementID, Ghost(i): Ghost<Intersection>)
    requires
        vehicle_ids(i, old(v)@),
        is_vehicle_id(i, m),
    ensures
        vehicle_ids(i, final(v)@),
        forall|x: MovementID| #[trigger] final(v)@.contains(x) <==> (old(v)@.contains(x) || x == m),
{
    insert_id(v, m);
}

/// Every right or left turn of `r0` or `l0` leaving from road `r` is
/// protected or yields in some stage.
pub open spec fn turns_covered(stages: Seq<Stage>, r0: Seq<MovementID>, l0: Seq<MovementID>, r: RoadID) -> bool {
    forall|x: MovementID| (r0.contains(x) || l0.contains(x)) && x.from.road == r ==> #[trigger] covered(stages, x)
}

/// `x` is a right turn, left turn or straight movement of `i`.
pub open spec fn classified(i: Intersection, x: MovementID) -> bool {
    ids_of_type(i, TurnType::Right).contains(x) || ids_of_type(i, TurnType::Left).contains(x) || ids_of_type(
        i,
        TurnType::Straight,
    ).contains(x)
}

/// Builds stages for an intersection of any shape. One-way through roads get
/// one stage with all their turns. Each two-way through pair gets a stage with
/// straight and right turns protected and left turns yielding, then a stage
/// with the left turns protected; where those two left turns conflict, that
/// second stage becomes two, each protecting one and letting the other
/// yield. Roads left over are taken two at a time from the end of the sorted
/// set and treated the same way as if they ran straight across; a last odd one
/// gets a single stage with its right and left turns.
///
/// No stage is empty, no two stages are alike, every stage names only
/// vehicle movements of `i`, and every right turn, left turn and straight
/// movement is protected or yields in some stage.
fn multi_way_stages(i: &Intersection) -> (r: ControlTrafficSignal)
    requires
        i.wf(),
    ensures
        r.id == i.id,
        distinct_nonempty(r.stages@),
        forall|k: int| 0 <= k < r.stages@.len() ==> vehicle_stage(*i, #[trigger] r.stages@[k]),
        forall|x: MovementID| classified(*i, x) ==> covered(r.stages@, x),
{
    let mut ts = ControlTrafficSignal::new(i.id);
    let (mut right, mut left, straight, mut roads) = movements(i);
    let (one_way, two_way) = straight_types(&straight);
    let ghost r0 = right@;
    let ghost l0 = left@;
    let ghost s0 = straight@;
    proof {
        lemma_ids_of_type_vehicle(*i, TurnType::Right);
        lemma_ids_of_type_vehicle(*i, TurnType::Left);
        lemma_ids_of_type_vehicle(*i, TurnType::Straight);
        assert forall|x: MovementID| #[trigger] one_way@.contains(x) implies is_vehicle_id(*i, x) by {
            straight@.lemma_filter_contains_rev(no_reverse_in(straight@), x);
        }
        assert forall|k: int| 0 <= k < two_way@.len() implies is_vehicle_id(*i, (#[trigger] two_way@[k]).0)
            && is_vehicle_id(*i, two_way@[k].1) by {
            let firsts = two_way@.map_values(|p: (MovementID, MovementID)| p.0);
            assert(firsts[k] == two_way@[k].0);
            assert(firsts.contains(firsts[k]));
            straight@.lemma_filter_contains_rev(has_reverse_in(straight@), two_way@[k].0);
        }
    }
    let mut k: usize = 0;
    while k < one_way.len()
        invariant
            ts.id == i.id,
            distinct_nonempty(ts.stages@),
            sorted_roads(roads@),
            right@ == r0,
            left@ == l0,
            vehicle_ids(*i, right@),
            vehicle_ids(*i, left@),
            vehicle_ids(*i, one_way@),
            forall|j: int| 0 <= j < ts.stages@.len() ==> vehicle_stage(*i, #[trigger] ts.stages@[j]),
            k <= one_way@.len(),
            forall|j: int| 0 <= j < k ==> covered(ts.stages@, #[trigger] one_way@[j]),
            forall|r: RoadID| vehicle_from(*i, r) && !roads@.contains(r) ==> #[trigger] turns_covered(ts.stages@, r0, l0, r),
        decreases one_way.len() - k,
    {
        let m = one_way[k];
        assert(one_way@.contains(m));
        let mut stage = Stage::new();
        insert_vehicle(&mut stage.protected_movements, m, Ghost(*i));
        extend_from(&mut stage.protected_movements, m.from.road, &right, Ghost(*i));
        extend_from(&mut stage.protected_movements, m.from.road, &left, Ghost(*i));
        let ghost before = ts.stages@;
        let ghost roads0 = roads@;
        add_stage(&mut ts, stage);
        remove_road(&mut roads, m.from.road);
        proof {
            assert(stage.protected_movements@.contains(m));
            assert forall|j: int| 0 <= j < k + 1 implies covered(ts.stages@, #[trigger] one_way@[j]) by {
                if j < k {
                    assert(covered(before, one_way@[j]));
                }
            }
            assert forall|r: RoadID| vehicle_from(*i, r) && !roads@.contains(r) implies #[trigger] turns_covered(ts.stages@, r0, l0, r) by {
                if r != m.from.road {
                    assert(turns_covered(before, r0, l0, r));
                    assert forall|x: MovementID| (r0.contains(x) || l0.contains(x)) && x.from.road == r implies #[trigger] covered(ts.stages@, x) by {
                        assert(covered(before, x));
                    }
                }
            }
        }
        k += 1;
    }
    let mut k: usize = 0;
    while k < two_way.len()
        invariant
            i.wf(),
            ts.id == i.id,
            distinct_nonempty(ts.stages@),
            sorted_roads(roads@),
            right@ == r0,
            left@ == l0,
            vehicle_ids(*i, right@),
            vehicle_ids(*i, left@),
            forall|j: int| 0 <= j < two_way@.len() ==> is_vehicle_id(*i, (#[trigger] two_way@[j]).0)
                && is_vehicle_id(*i, two_way@[j].1),
            forall|j: int| 0 <= j < ts.stages@.len() ==> vehicle_stage(*i, #[trigger] ts.stages@[j]),
            k <= two_way@.len(),
            forall|x: MovementID| #[trigger] one_way@.contains(x) ==> covered(ts.stages@, x),
            forall|j: int| 0 <= j < k ==> covered(ts.stages@, (#[trigger] two_way@[j]).0),
            forall|r: RoadID| vehicle_from(*i, r) && !roads@.contains(r) ==> #[trigger] turns_covered(ts.stages@, r0, l0, r),
        decreases two_way.len() - k,
    {
        let (m1, m2) = two_way[k];
        assert(is_vehicle_id(*i, m1) && is_vehicle_id(*i, m2));
        let mut stage1 = Stage::new();
        let mut stage2 = Stage::new();
        insert_vehicle(&mut stage1.protected_movements, m1, Ghost(*i));
        insert_vehicle(&mut stage1.protected_movements, m2, Ghost(*i));
        extend_from(&mut stage1.protected_movements, m1.from.road, &right, Ghost(*i));
        extend_from(&mut stage1.protected_movements, m2.from.road, &right, Ghost(*i));
        extend_from(&mut stage1.yield_movements, m1.from.road, &left, Ghost(*i));
        extend_from(&mut stage2.protected_movements, m1.from.road, &left, Ghost(*i));
        extend_from(&mut stage1.yield_movements, m2.from.road, &left, Ghost(*i));
        extend_from(&mut stage2.protected_movements, m2.from.road, &left, Ghost(*i));
        let ghost before = ts.stages@;
        add_stage(&mut ts, stage1);
        let ghost mid = ts.stages@;
        proof {
            assert(stage1.protected_movements@.contains(m1));
        }
        match is_conflict(&stage2, i) {
            Some((a, b)) => {
                add_stage(&mut ts, protected_yield_stage(a, b));
                add_stage(&mut ts, protected_yield_stage(b, a));
            },
            None => {
                add_stage(&mut ts, stage2);
            },
        }
        remove_road(&mut roads, m1.from.road);
        remove_road(&mut roads, m2.from.road);
        proof {
            assert forall|x: MovementID| covered(mid, x) implies #[trigger] covered(ts.stages@, x) by {}
            assert forall|x: MovementID| covered(before, x) implies #[trigger] covered(ts.stages@, x) by {
                assert(covered(mid, x));
            }
            assert forall|j: int| 0 <= j < k + 1 implies covered(ts.stages@, (#[trigger] two_way@[j]).0) by {
                if j < k {
                    assert(covered(before, two_way@[j].0));
                } else {
                    assert(covered(mid, m1));
                }
            }
            assert forall|x: MovementID| #[trigger] one_way@.contains(x) implies covered(ts.stages@, x) by {
                assert(covered(before, x));
            }
            assert forall|r: RoadID| vehicle_from(*i, r) && !roads@.contains(r) implies #[trigger] turns_covered(ts.stages@, r0, l0, r) by {
                assert forall|x: MovementID| (r0.contains(x) || l0.contains(x)) && x.from.road == r implies #[trigger] covered(ts.stages@, x) by {
                    if r == m1.from.road || r == m2.from.road {
                        assert(covered(mid, x));
                    } else {
                        assert(turns_covered(before, r0, l0, r));
                        assert(covered(before, x));
                    }
                }
            }
        }
        k += 1;
    }
    proof {
        assert forall|x: MovementID| #[trigger] s0.contains(x) implies covered(ts.stages@, x) by {
            let j = choose|j: int| 0 <= j < s0.len() && s0[j] == x;
            if no_reverse_in(s0)(x) {
                s0.lemma_filter_contains(no_reverse_in(s0), j);
            } else {
                s0.lemma_filter_contains(has_reverse_in(s0), j);
                let firsts = two_way@.map_values(|p: (MovementID, MovementID)| p.0);
                let t = choose|t: int| 0 <= t < firsts.len() && firsts[t] == x;
                assert(two_way@[t].0 == x);
            }
        }
    }
    let mut rest = roads;
    while rest.len() > 0
        invariant
            ts.id == i.id,
            distinct_nonempty(ts.stages@),
            sorted_roads(rest@),
            vehicle_ids(*i, right@),
            vehicle_ids(*i, left@),
            forall|x: MovementID| #[trigger] right@.contains(x) ==> r0.contains(x),
            forall|x: MovementID| #[trigger] left@.contains(x) ==> l0.contains(x),
            forall|x: MovementID| r0.contains(x) && !right@.contains(x) ==> #[trigger] covered(ts.stages@, x),
            forall|x: MovementID| l0.contains(x) && !left@.contains(x) ==> #[trigger] covered(ts.stages@, x),
            forall|x: MovementID| #[trigger] s0.contains(x) ==> covered(ts.stages@, x),
            forall|j: int| 0 <= j < ts.stages@.len() ==> vehicle_stage(*i, #[trigger] ts.stages@[j]),
            forall|r: RoadID| vehicle_from(*i, r) && !rest@.contains(r) ==> #[trigger] turns_covered(ts.stages@, r0, l0, r),
        decreases rest.len(),
    {
        let ghost rest0 = rest@;
        let ghost right0 = right@;
        let ghost left0 = left@;
        let ghost before = ts.stages@;
        let r1 = rest.pop().unwrap();
        proof {
            assert(rest0 == rest@.push(r1));
            assert forall|x: RoadID| rest@.contains(x) implies x != r1 by {
                let j = choose|j: int| 0 <= j < rest@.len() && rest@[j] == x;
                assert(rest0[j].0 < rest0[rest0.len() - 1].0);
            }
        }
        let mut stage1 = Stage::new();
        let mut stage2 = Stage::new();
        if rest.len() > 0 {
            let ghost rest1 = rest@;
            let r2 = rest.pop().unwrap();
            proof {
                assert(rest1 == rest@.push(r2));
                assert forall|x: RoadID| rest@.contains(x) implies x != r2 && x != r1 by {
                    let j = choose|j: int| 0 <= j < rest@.len() && rest@[j] == x;
                    assert(rest1[j].0 < rest1[rest1.len() - 1].0);
                    assert(rest1.contains(x));
                }
            }
            let ra = remove_movement(r1, r2, &mut right);
            let ghost right_mid = right@;
            let la = if ra.is_none() { remove_movement(r1, r2, &mut left) } else { None };
            let ghost left_mid = left@;
            let rb = remove_movement(r2, r1, &mut right);
            let lb = if rb.is_none() { remove_movement(r2, r1, &mut left) } else { None };
            if let Some(m) = ra {
                insert_vehicle(&mut stage1.protected_movements, m, Ghost(*i));
            }
            if let Some(m) = la {
                insert_vehicle(&mut stage1.protected_movements, m, Ghost(*i));
            }
            if let Some(m) = rb {
                insert_vehicle(&mut stage1.protected_movements, m, Ghost(*i));
            }
            if let Some(m) = lb {
                insert_vehicle(&mut stage1.protected_movements, m, Ghost(*i));
            }
            extend_from(&mut stage1.protected_movements, r1, &right, Ghost(*i));
            extend_from(&mut stage1.protected_movements, r2, &right, Ghost(*i));
            extend_from(&mut stage1.yield_movements, r1, &left, Ghost(*i));
            extend_from(&mut stage2.protected_movements, r1, &left, Ghost(*i));
            extend_from(&mut stage1.yield_movements, r2, &left, Ghost(*i));
            extend_from(&mut stage2.protected_movements, r2, &left, Ghost(*i));
            add_stage(&mut ts, stage1);
            let ghost mid = ts.stages@;
            add_stage(&mut ts, stage2);
            proof {
                assert forall|x: MovementID| covered(before, x) implies #[trigger] covered(ts.stages@, x) by {
                    assert(covered(mid, x));
                }
                assert forall|x: MovementID| stage1.protected_movements@.contains(x) || stage1.yield_movements@.contains(x)
                    implies #[trigger] covered(ts.stages@, x) by {
                    assert(stage1.protected_movements@.len() > 0 || !stage1.protected_movements@.contains(x));
                    if stage1.protected_movements@.contains(x) {
                        assert(covered(mid, x));
                    } else {
                        assert(stage1.yield_movements@.contains(x));
                        assert(left@.contains(x));
                        assert(stage2.protected_movements@.contains(x));
                    }
                }
                assert forall|x: MovementID| stage2.protected_movements@.contains(x) implies #[trigger] covered(ts.stages@, x) by {}
                assert forall|x: MovementID| r0.contains(x) && !right@.contains(x) implies #[trigger] covered(ts.stages@, x) by {
                    if right0.contains(x) {
                        if right_mid.contains(x) {
                            assert(rb == Some(x));
                        } else {
                            assert(ra == Some(x));
                        }
                        assert(stage1.protected_movements@.contains(x));
                    } else {
                        assert(covered(before, x));
                    }
                }
                assert forall|x: MovementID| l0.contains(x) && !left@.contains(x) implies #[trigger] covered(ts.stages@, x) by {
                    if left0.contains(x) {
                        if left_mid.contains(x) {
                            assert(lb == Some(x));
                        } else {
                            assert(la == Some(x));
                        }
                        assert(stage1.protected_movements@.contains(x));
                    } else {
                        assert(covered(before, x));
                    }
                }
                assert forall|x: MovementID| #[trigger] s0.contains(x) implies covered(ts.stages@, x) by {
                    assert(covered(before, x));
                }
                assert forall|r: RoadID| vehicle_from(*i, r) && !rest@.contains(r) implies #[trigger] turns_covered(ts.stages@, r0, l0, r) by {
                    assert forall|x: MovementID| (r0.contains(x) || l0.contains(x)) && x.from.road == r implies #[trigger] covered(ts.stages@, x) by {
                        if r == r1 || r == r2 {
                            if r0.contains(x) && right@.contains(x) {
                                assert(stage1.protected_movements@.contains(x));
                            } else if l0.contains(x) && left@.contains(x) {
                                assert(stage2.protected_movements@.contains(x));
                            }
                        } else {
                            assert(rest0.contains(r) == false) by {
                                if rest0.contains(r) {
                                    let j = choose|j: int| 0 <= j < rest0.len() && rest0[j] == r;
                                    if j < rest@.len() {
                                        assert(rest@[j] == r);
                                    } else if j == rest@.len() {
                                        assert(rest1[j] == r2);
                                    } else {
                                        assert(rest0[j] == r1);
                                    }
                                }
                            }
                            assert(turns_covered(before, r0, l0, r));
                            assert(covered(before, x));
                        }
                    }
                }
            }
        } else {
            extend_from(&mut stage1.protected_movements, r1, &right, Ghost(*i));
            extend_from(&mut stage1.protected_movements, r1, &left, Ghost(*i));
            add_stage(&mut ts, stage1);
            proof {
                assert forall|x: MovementID| covered(before, x) implies #[trigger] covered(ts.stages@, x) by {}
                assert forall|x: MovementID| r0.contains(x) && !right@.contains(x) implies #[trigger] covered(ts.stages@, x) by {
                    assert(covered(before, x));
                }
                assert forall|x: MovementID| l0.contains(x) && !left@.contains(x) implies #[trigger] covered(ts.stages@, x) by {
                    assert(covered(before, x));
                }
                assert forall|x: MovementID| #[trigger] s0.contains(x) implies covered(ts.stages@, x) by {
                    assert(covered(before, x));
                }
                assert forall|r: RoadID| vehicle_from(*i, r) && !rest@.contains(r) implies #[trigger] turns_covered(ts.stages@, r0, l0, r) by {
                    assert forall|x: MovementID| (r0.contains(x) || l0.contains(x)) && x.from.road == r implies #[trigger] covered(ts.stages@, x) by {
                        if r == r1 {
                            if r0.contains(x) && right@.contains(x) {
                                assert(stage1.protected_movements@.contains(x));
                            } else if l0.contains(x) && left@.contains(x) {
                                assert(stage1.protected_movements@.contains(x));
                            } else {
                                assert(covered(before, x));
                            }
                        } else {
                            assert(!rest0.contains(r)) by {
                                if rest0.contains(r) {
                                    let j = choose|j: int| 0 <= j < rest0.len() && rest0[j] == r;
                                    if j < rest@.len() {
                                        assert(rest@[j] == r);
                                    }
                                }
                            }
                            assert(turns_covered(before, r0, l0, r));
                            assert(covered(before, x));
                        }
                    }
                }
            }
        }
    }
    proof {
        assert forall|x: MovementID| classified(*i, x) implies covered(ts.stages@, x) by {
            if r0.contains(x) || l0.contains(x) {
                assert(is_vehicle_id(*i, x));
                let a = choose|a: int| 0 <= a < i.movements@.len() && (#[trigger] i.movements@[a]).id == x && !x.crosswalk;
                assert(vehicle_from(*i, x.from.road));
                assert(turns_covered(ts.stages@, r0, l0, x.from.road));
            }
        }
    }
    ts
}

/// Takes every copy of `m` out of `v`.
fn remove_id(v: &mut Vec<MovementID>, m: MovementID)
    ensures
        forall|x: MovementID| final(v)@.contains(x) <==> (old(v)@.contains(x) && x != m),
{
    let mut out: Vec<MovementID> = Vec::new();
    let mut k: usize = 0;
    while k < v.len()
        invariant
            k <= v@.len(),
            v@ == old(v)@,
            forall|x: MovementID| out@.contains(x) <==> (v@.subrange(0, k as int).contains(x) && x != m),
        decreases v.len() - k,
    {
        let x = v[k];
        if x != m {
            insert_id(&mut out, x);
        }
        proof {
            assert forall|y: MovementID| out@.contains(y) <==> (v@.subrange(0, k + 1).contains(y) && y != m) by {
                if v@.subrange(0, k + 1).contains(y) && y != x {
                    let j = choose|j: int| 0 <= j < k + 1 && #[trigger] v@.subrange(0, k + 1)[j] == y;
                    assert(v@.subrange(0, k as int)[j] == y);
                }
                if v@.subrange(0, k as int).contains(y) {
                    let j = choose|j: int| 0 <= j < k && #[trigger] v@.subrange(0, k as int)[j] == y;
                    assert(v@.subrange(0, k + 1)[j] == y);
                }
                if y == x {
                    assert(v@.subrange(0, k + 1)[k as int] == y);
                }
            }
        }
        k += 1;
    }
    assert(v@.subrange(0, v@.len() as int) == v@);
    *v = out;
}

/// Gives `m` the right of way in `stage` (`protected`) or lets it go after
/// yielding, taking it out of the other set.
fn edit_movement(stage: &mut Stage, m: MovementID, protected: bool)
    ensures
        final(stage).stage_type == old(stage).stage_type,
        forall|x: MovementID| #[trigger] final(stage).protected_movements@.contains(x) <==> if x == m {
            protected
        } else {
            old(stage).protected_movements@.contains(x)
        },
        forall|x: MovementID| #[trigger] final(stage).yield_movements@.contains(x) <==> if x == m {
            !protected
        } else {
            old(stage).yield_movements@.contains(x)
        },
{
    remove_id(&mut stage.protected_movements, m);
    remove_id(&mut stage.yield_movements, m);
    if protected {
        insert_id(&mut stage.protected_movements, m);
    } else {
        insert_id(&mut stage.yield_movements, m);
    }
}

/// Whether some vehicle movement of `i` leaves from `r`.
fn has_vehicle_from(i: &Intersection, r: RoadID) -> (b: bool)
    ensures
        b == vehicle_from(*i, r),
{
    let mut k: usize = 0;
    while k < i.movements.len()
        invariant
            forall|a: int|
                0 <= a < k ==> !(!(#[trigger] i.movements@[a]).id.crosswalk
                    && i.movements@[a].id.from.road == r),
        decreases i.movements.len() - k,
    {
        if !i.movements[k].id.crosswalk && i.movements[k].id.from.road == r {
            return true;
        }
        k += 1;
    }
    false
}

pub open spec fn is_incoming(i: Intersection) -> spec_fn(RoadID) -> bool {
    |r: RoadID| vehicle_from(i, r)
}

/// The incident roads of `i` that some vehicle movement leaves from, in the
/// intersection's counter-clockwise order.
pub fn get_sorted_incoming_roads(i: &Intersection) -> (r: Vec<RoadID>)
    ensures
        r@ == i.roads@.filter(is_incoming(*i)),
{
    let mut r: Vec<RoadID> = Vec::new();
    let mut k: usize = 0;
    while k < i.roads.len()
        invariant
            k <= i.roads@.len(),
            r@ == i.roads@.subrange(0, k as int).filter(is_incoming(*i)),
        decreases i.roads.len() - k,
    {
        let x = i.roads[k];
        proof {
            assert(i.roads@.subrange(0, k + 1) == i.roads@.subrange(0, k as int).push(x));
            i.roads@.subrange(0, k as int).lemma_filter_push(x, is_incoming(*i));
        }
        if has_vehicle_from(i, x) {
            r.push(x);
        }
        k += 1;
    }
    assert(i.roads@.subrange(0, i.roads@.len() as int) == i.roads@);
    r
}


/// One line of a stage template: movements from these roads of this turn
/// type, protected or yielding.
pub type StageSpec = (Vec<RoadID>, TurnType, bool);

/// The turn type a template line means under a driving side: left-hand
/// driving mirrors left and right turns.
pub open spec fn sided(t: TurnType, side: DrivingSide) -> TurnType {
    if side == DrivingSide::Left {
        match t {
            TurnType::Right => TurnType::Left,
            TurnType::Left => TurnType::Right,
            _ => t,
        }
    } else {
        t
    }
}

fn sided_turn(t: TurnType, side: DrivingSide) -> (r: TurnType)
    ensures
        r == sided(t, side),
{
    match side {
        DrivingSide::Left => match t {
            TurnType::Right => TurnType::Left,
            TurnType::Left => TurnType::Right,
            _ => t,
        },
        DrivingSide::Right => t,
    }
}

/// A template line as values: roads, turn type, protected or not.
pub type LineView = (Seq<RoadID>, TurnType, bool);

pub open spec fn line_view(l: StageSpec) -> LineView {
    (l.0@, l.1, l.2)
}

pub open spec fn lines_view(v: Seq<StageSpec>) -> Seq<LineView> {
    v.map_values(|l: StageSpec| line_view(l))
}

/// Line `line` covers movement `m` under driving side `side`.
pub open spec fn line_matches(line: LineView, side: DrivingSide, m: Movement) -> bool {
    line.0.contains(m.id.from.road) && m.turn_type == sided(line.1, side)
}

/// What the last line of `lines` that covers `m` says: protected (`true`)
/// or yielding (`false`); `None` when no line covers it.
pub open spec fn last_match(lines: Seq<LineView>, side: DrivingSide, m: Movement) -> Option<bool>
    decreases lines.len(),
{
    if lines.len() == 0 {
        None
    } else if line_matches(lines.last(), side, m) {
        Some(lines.last().2)
    } else {
        last_match(lines.drop_last(), side, m)
    }
}

/// `x` names a movement of `i` whose last covering line says `want`.
pub open spec fn template_says(i: Intersection, lines: Seq<LineView>, side: DrivingSide, x: MovementID, want: bool) -> bool {
    exists|a: int|
        0 <= a < i.movements@.len() && (#[trigger] i.movements@[a]).id == x && last_match(
            lines,
            side,
            i.movements@[a],
        ) == Some(want)
}

/// The movements a template protects and lets yield at `i`.
pub open spec fn expanded(i: Intersection, lines: Seq<LineView>, side: DrivingSide) -> (Set<MovementID>, Set<MovementID>) {
    (
        Set::new(|x: MovementID| template_says(i, lines, side, x, true)),
        Set::new(|x: MovementID| template_says(i, lines, side, x, false)),
    )
}

/// A stage as sets, with its timing.
pub open spec fn stage_sets(s: Stage) -> (Set<MovementID>, Set<MovementID>, StageType) {
    (s.protected_movements@.to_set(), s.yield_movements@.to_set(), s.stage_type)
}

/// The stages that a list of templates gives at `i`: each template
/// expanded, those that protect nothing left out, all of default length.
pub open spec fn templates_at(i: Intersection, specs: Seq<Seq<LineView>>, side: DrivingSide) -> Seq<(Set<MovementID>, Set<MovementID>, StageType)>
    decreases specs.len(),
{
    if specs.len() == 0 {
        Seq::empty()
    } else {
        let rest = templates_at(i, specs.drop_last(), side);
        let e = expanded(i, specs.last(), side);
        if e.0 != Set::<MovementID>::empty() {
            rest.push((e.0, e.1, StageType::Fixed(DEFAULT_STAGE_MILLIS)))
        } else {
            rest
        }
    }
}

/// The status of movement `b` while line `l` is being applied, up to
/// movement `a`.
pub open spec fn status_during(i: Intersection, lines: Seq<LineView>, side: DrivingSide, l: int, a: int, b: int) -> Option<bool> {
    if b < a {
        last_match(lines.subrange(0, l + 1), side, i.movements@[b])
    } else {
        last_match(lines.subrange(0, l), side, i.movements@[b])
    }
}

/// Expands one template at `i`: each movement is protected or yields as the
/// last line covering it says.
fn expand_template(i: &Intersection, side: DrivingSide, lines: &Vec<StageSpec>) -> (s: Stage)
    requires
        i.wf(),
    ensures
        s.stage_type == StageType::Fixed(DEFAULT_STAGE_MILLIS),
        forall|x: MovementID| s.protected_movements@.contains(x) <==> template_says(*i, lines_view(lines@), side, x, true),
        forall|x: MovementID| s.yield_movements@.contains(x) <==> template_says(*i, lines_view(lines@), side, x, false),
{
    let ghost lv = lines_view(lines@);
    let ghost mv = i.movements@;
    let mut stage = Stage::new();
    let mut l: usize = 0;
    while l < lines.len()
        invariant
            i.wf(),
            lv == lines_view(lines@),
            mv == i.movements@,
            l <= lines@.len(),
            stage.stage_type == StageType::Fixed(DEFAULT_STAGE_MILLIS),
            forall|x: MovementID| stage.protected_movements@.contains(x) <==> template_says(*i, lv.subrange(0, l as int), side, x, true),
            forall|x: MovementID| stage.yield_movements@.contains(x) <==> template_says(*i, lv.subrange(0, l as int), side, x, false),
        decreases lines.len() - l,
    {
        let line = &lines[l];
        let t = sided_turn(line.1, side);
        proof {
            assert(lv[l as int] == line_view(*line));
            assert(lv.subrange(0, l + 1).drop_last() == lv.subrange(0, l as int));
            assert(lv.subrange(0, l + 1).last() == line_view(*line));
        }
        let mut a: usize = 0;
        while a < i.movements.len()
            invariant
                i.wf(),
                lv == lines_view(lines@),
                mv == i.movements@,
                l < lines@.len(),
                a <= mv.len(),
                *line == lines@[l as int],
                t == sided(line.1, side),
                lv.subrange(0, l + 1).drop_last() == lv.subrange(0, l as int),
                lv.subrange(0, l + 1).last() == line_view(*line),
                stage.stage_type == StageType::Fixed(DEFAULT_STAGE_MILLIS),
                forall|x: MovementID| stage.protected_movements@.contains(x) <==> exists|b: int|
                    0 <= b < mv.len() && (#[trigger] mv[b]).id == x && status_during(*i, lv, side, l as int, a as int, b) == Some(true),
                forall|x: MovementID| stage.yield_movements@.contains(x) <==> exists|b: int|
                    0 <= b < mv.len() && (#[trigger] mv[b]).id == x && status_during(*i, lv, side, l as int, a as int, b) == Some(false),
            decreases i.movements.len() - a,
        {
            let m = &i.movements[a];
            let hit = m.turn_type == t && contains_road(&line.0, m.id.from.road);
            if hit {
                edit_movement(&mut stage, m.id, line.2);
            }
            proof {
                assert(hit == line_matches(line_view(*line), side, *m));
                assert forall|x: MovementID| stage.protected_movements@.contains(x) <==> exists|b: int|
                    0 <= b < mv.len() && (#[trigger] mv[b]).id == x && status_during(*i, lv, side, l as int, a + 1, b) == Some(true) by {
                    lemma_status_step(*i, lv, side, l as int, a as int, x);
                }
                assert forall|x: MovementID| stage.yield_movements@.contains(x) <==> exists|b: int|
                    0 <= b < mv.len() && (#[trigger] mv[b]).id == x && status_during(*i, lv, side, l as int, a + 1, b) == Some(false) by {
                    lemma_status_step(*i, lv, side, l as int, a as int, x);
                }
            }
            a += 1;
        }
        proof {
            assert forall|x: MovementID| #[trigger] template_says(*i, lv.subrange(0, l + 1), side, x, true) <==> exists|b: int|
                0 <= b < mv.len() && (#[trigger] mv[b]).id == x && status_during(*i, lv, side, l as int, mv.len() as int, b) == Some(true) by {}
            assert forall|x: MovementID| #[trigger] template_says(*i, lv.subrange(0, l + 1), side, x, false) <==> exists|b: int|
                0 <= b < mv.len() && (#[trigger] mv[b]).id == x && status_during(*i, lv, side, l as int, mv.len() as int, b) == Some(false) by {}
        }
        l += 1;
    }
    assert(lv.subrange(0, lines@.len() as int) == lv);
    stage
}

/// With unique movement identifiers, the movement named `x` is the only
/// one whose status can change when movement `a` is visited.
proof fn lemma_status_step(i: Intersection, lv: Seq<LineView>, side: DrivingSide, l: int, a: int, x: MovementID)
    requires
        i.wf(),
        0 <= l < lv.len(),
        0 <= a < i.movements@.len(),
    ensures
        forall|b: int| 0 <= b < i.movements@.len() && b != a ==> status_during(i, lv, side, l, a + 1, b) == status_during(i, lv, side, l, a, b),
        status_during(i, lv, side, l, a + 1, a) == (if line_matches(lv[l], side, i.movements@[a]) {
            Some(lv[l].2)
        } else {
            status_during(i, lv, side, l, a, a)
        }),
        forall|b: int| 0 <= b < i.movements@.len() && b != a ==> (#[trigger] i.movements@[b]).id != i.movements@[a].id,
{
    let s1 = lv.subrange(0, l + 1);
    assert(s1.drop_last() == lv.subrange(0, l));
    assert(s1.last() == lv[l]);
    assert forall|b: int| 0 <= b < i.movements@.len() && b != a implies (#[trigger] i.movements@[b]).id != i.movements@[a].id by {
        if b < a {
            assert(i.movements@[b].id != i.movements@[a].id);
        } else {
            assert(i.movements@[a].id != i.movements@[b].id);
        }
    }
}

/// Expands each template into a stage: every movement of `i` whose road and
/// turn type match a line is protected or yields as the line says, later
/// lines overriding earlier ones. Stages that protect nothing are left out.
fn make_stages(ts: &mut ControlTrafficSignal, side: DrivingSide, i: &Intersection, specs: &Vec<Vec<StageSpec>>)
    requires
        i.wf(),
    ensures
        final(ts).id == old(ts).id,
        old(ts).stages@.is_prefix_of(final(ts).stages@),
        final(ts).stages@.len() <= old(ts).stages@.len() + specs@.len(),
        forall|k: int|
            old(ts).stages@.len() <= k < final(ts).stages@.len() ==> (
            #[trigger] final(ts).stages@[k]).protected_movements@.len() > 0,
        final(ts).stages@.subrange(old(ts).stages@.len() as int, final(ts).stages@.len() as int).map_values(
            |s: Stage| stage_sets(s),
        ) == templates_at(*i, specs@.map_values(|v: Vec<StageSpec>| lines_view(v@)), side),
{
    let ghost sv = specs@.map_values(|v: Vec<StageSpec>| lines_view(v@));
    let ghost n0 = ts.stages@.len();
    let mut n: usize = 0;
    while n < specs.len()
        invariant
            i.wf(),
            sv == specs@.map_values(|v: Vec<StageSpec>| lines_view(v@)),
            n0 == old(ts).stages@.len(),
            n <= specs@.len(),
            ts.id == old(ts).id,
            old(ts).stages@.is_prefix_of(ts.stages@),
            ts.stages@.len() <= old(ts).stages@.len() + n,
            forall|k: int|
                old(ts).stages@.len() <= k < ts.stages@.len() ==> (
                #[trigger] ts.stages@[k]).protected_movements@.len() > 0,
            ts.stages@.subrange(n0 as int, ts.stages@.len() as int).map_values(|s: Stage| stage_sets(s))
                == templates_at(*i, sv.subrange(0, n as int), side),
        decreases specs.len() - n,
    {
        let stage = expand_template(i, side, &specs[n]);
        let ghost before = ts.stages@;
        proof {
            let e = expanded(*i, sv[n as int], side);
            assert(sv[n as int] == lines_view(specs@[n as int]@));
            assert(sv.subrange(0, n + 1).drop_last() == sv.subrange(0, n as int));
            assert(sv.subrange(0, n + 1).last() == sv[n as int]);
            assert(stage.protected_movements@.to_set() =~= e.0);
            assert(stage.yield_movements@.to_set() =~= e.1);
            if stage.protected_movements@.len() > 0 {
                assert(e.0.contains(stage.protected_movements@[0]));
            } else {
                assert(e.0 =~= Set::<MovementID>::empty());
            }
        }
        if stage.protected_movements.len() > 0 {
            ts.stages.push(stage);
            proof {
                assert(ts.stages@.subrange(n0 as int, ts.stages@.len() as int) =~= before.subrange(n0 as int, before.len() as int).push(stage));
                assert(ts.stages@.subrange(n0 as int, ts.stages@.len() as int).map_values(|s: Stage| stage_sets(s))
                    =~= before.subrange(n0 as int, before.len() as int).map_values(|s: Stage| stage_sets(s)).push(stage_sets(stage)));
            }
        }
        n += 1;
    }
    assert(sv.subrange(0, specs@.len() as int) == sv);
}

/// Movement `a` is the first of `i` that goes straight.
pub open spec fn first_straight(i: Intersection, a: int) -> bool {
    0 <= a < i.movements@.len() && i.movements@[a].turn_type == TurnType::Straight && forall|b: int|
        0 <= b < a ==> (#[trigger] i.movements@[b]).turn_type != TurnType::Straight
}

/// The first of the three roads `rs` that is neither `north` nor `south`.
pub open spec fn minor_road(rs: Seq<RoadID>, north: RoadID, south: RoadID) -> Option<RoadID> {
    if rs[0] != north && rs[0] != south {
        Some(rs[0])
    } else if rs[1] != north && rs[1] != south {
        Some(rs[1])
    } else if rs[2] != north && rs[2] != south {
        Some(rs[2])
    } else {
        None
    }
}

/// The three-way templates for a through road `north`-`south` and a minor
/// road `east`.
pub open spec fn three_way_lines(north: RoadID, south: RoadID, east: RoadID) -> Seq<Seq<LineView>> {
    let ns = seq![north, south];
    let e = seq![east];
    seq![
        seq![(ns, TurnType::Straight, true), (ns, TurnType::Right, true), (ns, TurnType::Left, false), (e, TurnType::Right, false)],
        seq![(ns, TurnType::Left, true), (e, TurnType::Right, false)],
        seq![(e, TurnType::Straight, true), (e, TurnType::Right, true), (e, TurnType::Left, true), (ns, TurnType::Right, false)],
    ]
}

/// The three-stage plan for a T intersection. The first straight movement
/// names the through road; the other incoming road is the minor one. Its
/// stages: the through road's straight and right turns with its left turns
/// yielding, then its left turns, then everything from the minor road.
/// `None` unless exactly three roads are incoming, some movement goes
/// straight, and a third road is left over.
fn three_way_three_stage(i: &Intersection, side: DrivingSide) -> (r: Option<ControlTrafficSignal>)
    requires
        i.wf(),
    ensures
        ({
            let rs = i.roads@.filter(is_incoming(*i));
            if rs.len() != 3 || !(exists|a: int| first_straight(*i, a)) {
                r is None
            } else {
                let a = choose|a: int| first_straight(*i, a);
                let m = i.movements@[a].id;
                match minor_road(rs, m.from.road, m.to.road) {
                    None => r is None,
                    Some(east) => r matches Some(ts) && ts.id == i.id && ts.stages@.map_values(|s: Stage| stage_sets(s))
                        == templates_at(*i, three_way_lines(m.from.road, m.to.road, east), side),
                }
            }
        }),
{
    let roads = get_sorted_incoming_roads(i);
    if roads.len() != 3 {
        return None;
    }
    let mut straight: Option<MovementID> = None;
    let mut a: usize = 0;
    while a < i.movements.len() && straight.is_none()
        invariant
            a <= i.movements@.len(),
            forall|b: int| 0 <= b < a ==> (#[trigger] i.movements@[b]).turn_type != TurnType::Straight,
            straight matches Some(m) ==> first_straight(*i, a as int) && m == i.movements@[a as int].id,
        decreases i.movements.len() - a + (if straight is None { 1int } else { 0 }),
    {
        if i.movements[a].turn_type == TurnType::Straight {
            straight = Some(i.movements[a].id);
        } else {
            a += 1;
        }
    }
    proof {
        if straight is Some {
            let c = choose|c: int| first_straight(*i, c);
            if c < a {
                assert(i.movements@[c].turn_type != TurnType::Straight);
            } else if c > a {
                assert(i.movements@[a as int].turn_type != TurnType::Straight);
            }
        } else {
            assert forall|c: int| !first_straight(*i, c) by {
                if 0 <= c < i.movements@.len() {
                    assert(i.movements@[c].turn_type != TurnType::Straight);
                }
            }
        }
    }
    let straight = match straight {
        Some(m) => m,
        None => return None,
    };
    let (north, south) = (straight.from.road, straight.to.road);
    let east = if roads[0] != north && roads[0] != south {
        roads[0]
    } else if roads[1] != north && roads[1] != south {
        roads[1]
    } else if roads[2] != north && roads[2] != south {
        roads[2]
    } else {
        return None;
    };
    let mut ts = ControlTrafficSignal::new(i.id);
    let specs: Vec<Vec<StageSpec>> = vec![
        vec![
            (vec![north, south], TurnType::Straight, true),
            (vec![north, south], TurnType::Right, true),
            (vec![north, south], TurnType::Left, false),
            (vec![east], TurnType::Right, false),
        ],
        vec![(vec![north, south], TurnType::Left, true), (vec![east], TurnType::Right, false)],
        vec![
            (vec![east], TurnType::Straight, true),
            (vec![east], TurnType::Right, true),
            (vec![east], TurnType::Left, true),
            (vec![north, south], TurnType::Right, false),
        ],
    ];
    proof {
        let ns = seq![north, south];
        let e = seq![east];
        assert(specs@.map_values(|v: Vec<StageSpec>| lines_view(v@)) =~= three_way_lines(north, south, east)) by {
            assert(lines_view(specs@[0]@) =~= three_way_lines(north, south, east)[0]) by {
                assert(specs@[0]@[0].0@ =~= ns);
                assert(specs@[0]@[1].0@ =~= ns);
                assert(specs@[0]@[2].0@ =~= ns);
                assert(specs@[0]@[3].0@ =~= e);
            }
            assert(lines_view(specs@[1]@) =~= three_way_lines(north, south, east)[1]) by {
                assert(specs@[1]@[0].0@ =~= ns);
                assert(specs@[1]@[1].0@ =~= e);
            }
            assert(lines_view(specs@[2]@) =~= three_way_lines(north, south, east)[2]) by {
                assert(specs@[2]@[0].0@ =~= e);
                assert(specs@[2]@[1].0@ =~= e);
                assert(specs@[2]@[2].0@ =~= e);
                assert(specs@[2]@[3].0@ =~= ns);
            }
        }
    }
    make_stages(&mut ts, side, i, &specs);
    assert(ts.stages@.subrange(0, ts.stages@.len() as int) == ts.stages@);
    Some(ts)
}

/// The four-stage plan for a four-way intersection, naming its incoming
/// roads north, west, south and east in order: north-south straight and
/// right turns with left turns yielding, then north-south left turns, then
/// the same two stages for east-west. `None` unless exactly four roads are
/// incoming.
fn four_way_four_stage(i: &Intersection, side: DrivingSide) -> (r: Option<ControlTrafficSignal>)
    requires
        i.wf(),
    ensures
        (i.roads@.filter(is_incoming(*i)).len() == 4) == (r is Some),
        r matches Some(ts) ==> ts.id == i.id && ts.stages@.len() <= 4 && {
            let rs = i.roads@.filter(is_incoming(*i));
            ts.stages@.map_values(|s: Stage| stage_sets(s)) == templates_at(
                *i,
                four_way_lines(rs[0], rs[1], rs[2], rs[3]),
                side,
            )
        },
{
    let roads = get_sorted_incoming_roads(i);
    if roads.len() != 4 {
        return None;
    }
    let (north, west, south, east) = (roads[0], roads[1], roads[2], roads[3]);
    let mut ts = ControlTrafficSignal::new(i.id);
    let specs: Vec<Vec<StageSpec>> = vec![
        vec![
            (vec![north, south], TurnType::Straight, true),
            (vec![north, south], TurnType::Left, false),
            (vec![north, south], TurnType::Right, true),
            (vec![east, west], TurnType::Right, false),
        ],
        vec![(vec![north, south], TurnType::Left, true), (vec![east, west], TurnType::Right, false)],
        vec![
            (vec![east, west], TurnType::Straight, true),
            (vec![east, west], TurnType::Left, false),
            (vec![east, west], TurnType::Right, true),
            (vec![north, south], TurnType::Right, false),
        ],
        vec![(vec![east, west], TurnType::Left, true), (vec![north, south], TurnType::Right, false)],
    ];
    proof {
        let ns = seq![north, south];
        let ew = seq![east, west];
        assert(specs@.map_values(|v: Vec<StageSpec>| lines_view(v@)) =~= four_way_lines(north, west, south, east)) by {
            assert(lines_view(specs@[0]@) =~= four_way_lines(north, west, south, east)[0]) by {
                assert(specs@[0]@[0].0@ =~= ns);
                assert(specs@[0]@[1].0@ =~= ns);
                assert(specs@[0]@[2].0@ =~= ns);
                assert(specs@[0]@[3].0@ =~= ew);
            }
            assert(lines_view(specs@[1]@) =~= four_way_lines(north, west, south, east)[1]) by {
                assert(specs@[1]@[0].0@ =~= ns);
                assert(specs@[1]@[1].0@ =~= ew);
            }
            assert(lines_view(specs@[2]@) =~= four_way_lines(north, west, south, east)[2]) by {
                assert(specs@[2]@[0].0@ =~= ew);
                assert(specs@[2]@[1].0@ =~= ew);
                assert(specs@[2]@[2].0@ =~= ew);
                assert(specs@[2]@[3].0@ =~= ns);
            }
            assert(lines_view(specs@[3]@) =~= four_way_lines(north, west, south, east)[3]) by {
                assert(specs@[3]@[0].0@ =~= ew);
                assert(specs@[3]@[1].0@ =~= ns);
            }
        }
    }
    make_stages(&mut ts, side, i, &specs);
    assert(ts.stages@.subrange(0, ts.stages@.len() as int) == ts.stages@);
    Some(ts)
}

/// The four-way templates for incoming roads north, west, south and east.
pub open spec fn four_way_lines(north: RoadID, west: RoadID, south: RoadID, east: RoadID) -> Seq<Seq<LineView>> {
    let ns = seq![north, south];
    let ew = seq![east, west];
    seq![
        seq![(ns, TurnType::Straight, true), (ns, TurnType::Left, false), (ns, TurnType::Right, true), (ew, TurnType::Right, false)],
        seq![(ns, TurnType::Left, true), (ew, TurnType::Right, false)],
        seq![(ew, TurnType::Straight, true), (ew, TurnType::Left, false), (ew, TurnType::Right, true), (ns, TurnType::Right, false)],
        seq![(ew, TurnType::Left, true), (ns, TurnType::Right, false)],
    ]
}

/// `x` names a vehicle movement of `i` leaving from road `r`.
pub open spec fn vehicle_id_from(i: Intersection, r: RoadID, x: MovementID) -> bool {
    exists|a: int| 0 <= a < i.movements@.len() && (#[trigger] i.movements@[a]).id == x && !x.crosswalk
        && x.from.road == r
}

/// `x` names a crossing movement of `i`.
pub open spec fn crossing_id(i: Intersection, x: MovementID) -> bool {
    exists|a: int| 0 <= a < i.movements@.len() && (#[trigger] i.movements@[a]).id == x && x.crosswalk
}

/// A stage protecting every vehicle movement of `i` that leaves from `r`.
fn road_stage(i: &Intersection, r: RoadID) -> (s: Stage)
    ensures
        forall|x: MovementID| s.protected_movements@.contains(x) <==> vehicle_id_from(*i, r, x),
        s.yield_movements@.len() == 0,
{
    let mut s = Stage::new();
    let mut k: usize = 0;
    while k < i.movements.len()
        invariant
            k <= i.movements@.len(),
            s.yield_movements@.len() == 0,
            forall|x: MovementID|
                s.protected_movements@.contains(x) <==> exists|a: int|
                    0 <= a < k && (#[trigger] i.movements@[a]).id == x && !x.crosswalk
                        && x.from.road == r,
        decreases i.movements.len() - k,
    {
        let m = i.movements[k].id;
        if !m.crosswalk && m.from.road == r {
            insert_id(&mut s.protected_movements, m);
        }
        proof {
            assert forall|x: MovementID|
                s.protected_movements@.contains(x) <==> exists|a: int|
                    0 <= a < k + 1 && (#[trigger] i.movements@[a]).id == x && !x.crosswalk
                        && x.from.road == r by {
                if x == m && !m.crosswalk && m.from.road == r {
                    assert(i.movements@[k as int].id == x);
                }
            }
        }
        k += 1;
    }
    s
}

/// A stage protecting every crossing movement of `i`.
fn all_walk_stage(i: &Intersection) -> (s: Stage)
    ensures
        forall|x: MovementID| s.protected_movements@.contains(x) <==> crossing_id(*i, x),
        s.yield_movements@.len() == 0,
        s.stage_type == StageType::Fixed(DEFAULT_STAGE_MILLIS),
{
    let mut s = Stage::new();
    let mut k: usize = 0;
    while k < i.movements.len()
        invariant
            k <= i.movements@.len(),
            s.yield_movements@.len() == 0,
            s.stage_type == StageType::Fixed(DEFAULT_STAGE_MILLIS),
            forall|x: MovementID|
                s.protected_movements@.contains(x) <==> exists|a: int|
                    0 <= a < k && (#[trigger] i.movements@[a]).id == x && x.crosswalk,
        decreases i.movements.len() - k,
    {
        let m = i.movements[k].id;
        if m.crosswalk {
            insert_id(&mut s.protected_movements, m);
        }
        proof {
            assert forall|x: MovementID|
                s.protected_movements@.contains(x) <==> exists|a: int|
                    0 <= a < k + 1 && (#[trigger] i.movements@[a]).id == x && x.crosswalk by {
                if x == m && m.crosswalk {
                    assert(i.movements@[k as int].id == x);
                }
            }
        }
        k += 1;
    }
    s
}

/// `s` is an all-walk stage of `i`: it protects exactly the crossings, lets
/// nothing yield, and has the default timing.
pub open spec fn all_walk_like(i: Intersection, s: Stage) -> bool {
    &&& forall|x: MovementID| s.protected_movements@.contains(x) <==> crossing_id(i, x)
    &&& forall|x: MovementID| !s.yield_movements@.contains(x)
    &&& s.stage_type == StageType::Fixed(DEFAULT_STAGE_MILLIS)
}

/// Stage `k` is the first all-walk stage of `stages`.
pub open spec fn first_all_walk(i: Intersection, stages: Seq<Stage>, k: int) -> bool {
    0 <= k < stages.len() && all_walk_like(i, stages[k]) && forall|j: int|
        0 <= j < k ==> !all_walk_like(i, #[trigger] stages[j])
}

/// Some movement of `i` is a crossing.
pub open spec fn has_crossing(i: Intersection) -> bool {
    exists|a: int| 0 <= a < i.movements@.len() && (#[trigger] i.movements@[a]).id.crosswalk
}

/// Takes crossings out of every stage but the first all-walk one, and
/// appends an all-walk stage if there was none and some crossing exists.
fn convert_to_ped_scramble(ts: &mut ControlTrafficSignal, i: &Intersection)
    ensures
        final(ts).id == old(ts).id,
        final(ts).stages@.len() == old(ts).stages@.len() + if !(exists|k: int| first_all_walk(*i, old(ts).stages@, k))
            && has_crossing(*i) { 1int } else { 0 },
        forall|k: int|
            0 <= k < old(ts).stages@.len() ==> {
                let o = #[trigger] old(ts).stages@[k];
                let n = final(ts).stages@[k];
                &&& n.yield_movements@ == o.yield_movements@
                &&& n.stage_type == o.stage_type
                &&& if first_all_walk(*i, old(ts).stages@, k) {
                    n.protected_movements@ == o.protected_movements@
                } else {
                    forall|x: MovementID| n.protected_movements@.contains(x) <==> (o.protected_movements@.contains(x) && !x.crosswalk)
                }
            },
        final(ts).stages@.len() > old(ts).stages@.len() ==> all_walk_like(*i, final(ts).stages@.last()),
        plan_views(final(ts).stages@) == scrambled(*i, plan_views(old(ts).stages@)),
{
    let all_walk = all_walk_stage(i);
    let ghost olds = ts.stages@;
    proof {
        assert forall|st: Stage| same_stage(st, all_walk) == all_walk_like(*i, st) by {
            if same_stage(st, all_walk) {
                assert forall|x: MovementID| st.protected_movements@.contains(x) <==> crossing_id(*i, x) by {
                    assert(st.protected_movements@.contains(x) <==> all_walk.protected_movements@.contains(x));
                }
                assert forall|x: MovementID| !st.yield_movements@.contains(x) by {
                    if st.yield_movements@.contains(x) {
                        assert(all_walk.yield_movements@.contains(x));
                    }
                }
            }
            if all_walk_like(*i, st) {
                assert forall|x: MovementID| st.protected_movements@.contains(x) <==> all_walk.protected_movements@.contains(x) by {
                    assert(st.protected_movements@.contains(x) <==> crossing_id(*i, x));
                }
                assert forall|x: MovementID| st.yield_movements@.contains(x) <==> all_walk.yield_movements@.contains(x) by {
                    if all_walk.yield_movements@.contains(x) {
                        let j = choose|j: int| 0 <= j < all_walk.yield_movements@.len() && all_walk.yield_movements@[j] == x;
                    }
                }
            }
        }
        assert((all_walk.protected_movements@.len() > 0) == has_crossing(*i)) by {
            if all_walk.protected_movements@.len() > 0 {
                assert(all_walk.protected_movements@.contains(all_walk.protected_movements@[0]));
                assert(crossing_id(*i, all_walk.protected_movements@[0]));
            }
            if has_crossing(*i) {
                let a = choose|a: int| 0 <= a < i.movements@.len() && (#[trigger] i.movements@[a]).id.crosswalk;
                assert(crossing_id(*i, i.movements@[a].id));
                assert(all_walk.protected_movements@.contains(i.movements@[a].id));
            }
        }
    }
    let mut stages: Vec<Stage> = Vec::new();
    let mut has_all_walk = false;
    let mut k: usize = 0;
    while k < ts.stages.len()
        invariant
            olds == ts.stages@,
            k <= olds.len(),
            stages@.len() == k,
            forall|st: Stage| same_stage(st, all_walk) == all_walk_like(*i, st),
            has_all_walk == exists|j: int| first_all_walk(*i, olds, j) && j < k,
            forall|j: int|
                0 <= j < k ==> {
                    let o = #[trigger] olds[j];
                    let n = stages@[j];
                    &&& n.yield_movements@ == o.yield_movements@
                    &&& n.stage_type == o.stage_type
                    &&& if first_all_walk(*i, olds, j) {
                        n.protected_movements@ == o.protected_movements@
                    } else {
                        forall|x: MovementID| n.protected_movements@.contains(x) <==> (o.protected_movements@.contains(x) && !x.crosswalk)
                    }
                },
        decreases ts.stages.len() - k,
    {
        let mut stage = ts.stages[k].duplicate();
        let ghost o = olds[k as int];
        proof {
            if has_all_walk {
                let j = choose|j: int| first_all_walk(*i, olds, j) && j < k;
                assert(!first_all_walk(*i, olds, k as int));
            } else {
                assert forall|j: int| 0 <= j < k implies !all_walk_like(*i, #[trigger] olds[j]) by {
                    if all_walk_like(*i, olds[j]) {
                        lemma_first_exists(*i, olds, j);
                    }
                }
            }
        }
        if !has_all_walk && stage.same_as(&all_walk) {
            has_all_walk = true;
            assert(first_all_walk(*i, olds, k as int));
        } else {
            let mut out: Vec<MovementID> = Vec::new();
            let mut j: usize = 0;
            while j < stage.protected_movements.len()
                invariant
                    j <= stage.protected_movements@.len(),
                    stage.protected_movements@ == o.protected_movements@,
                    forall|x: MovementID| out@.contains(x) <==> (stage.protected_movements@.subrange(0, j as int).contains(x) && !x.crosswalk),
                decreases stage.protected_movements.len() - j,
            {
                let x = stage.protected_movements[j];
                if !x.crosswalk {
                    insert_id(&mut out, x);
                }
                proof {
                    let sp = stage.protected_movements@;
                    assert forall|y: MovementID| out@.contains(y) <==> (sp.subrange(0, j + 1).contains(y) && !y.crosswalk) by {
                        if sp.subrange(0, j + 1).contains(y) && y != x {
                            let t = choose|t: int| 0 <= t < j + 1 && #[trigger] sp.subrange(0, j + 1)[t] == y;
                            assert(sp.subrange(0, j as int)[t] == y);
                        }
                        if sp.subrange(0, j as int).contains(y) {
                            let t = choose|t: int| 0 <= t < j && #[trigger] sp.subrange(0, j as int)[t] == y;
                            assert(sp.subrange(0, j + 1)[t] == y);
                        }
                        if y == x {
                            assert(sp.subrange(0, j + 1)[j as int] == y);
                        }
                    }
                }
                j += 1;
            }
            assert(stage.protected_movements@.subrange(0, stage.protected_movements@.len() as int) == stage.protected_movements@);
            stage.protected_movements = out;
            proof {
                if !has_all_walk {
                    assert(!first_all_walk(*i, olds, k as int));
                }
            }
        }
        stages.push(stage);
        proof {
            assert forall|j: int| 0 <= j < k + 1 implies {
                let o2 = #[trigger] olds[j];
                let n = stages@[j];
                &&& n.yield_movements@ == o2.yield_movements@
                &&& n.stage_type == o2.stage_type
                &&& if first_all_walk(*i, olds, j) {
                    n.protected_movements@ == o2.protected_movements@
                } else {
                    forall|x: MovementID| n.protected_movements@.contains(x) <==> (o2.protected_movements@.contains(x) && !x.crosswalk)
                }
            } by {
                if j < k {
                    assert(stages@[j] == stages@.drop_last()[j]);
                }
            }
            if has_all_walk {
                if first_all_walk(*i, olds, k as int) {
                } else {
                    let j = choose|j: int| first_all_walk(*i, olds, j) && j < k;
                }
            }
        }
        k += 1;
    }
    if !has_all_walk && all_walk.protected_movements.len() > 0 {
        stages.push(all_walk);
    }
    proof {
        lemma_scramble_views(*i, olds, stages@);
    }
    ts.stages = stages;
}

proof fn lemma_all_walk_view(i: Intersection, s: Stage)
    ensures
        all_walk_like(i, s) == (stage_sets(s) == walk_view(i)),
{
    let w = walk_view(i);
    if all_walk_like(i, s) {
        assert(s.protected_movements@.to_set() =~= w.0);
        assert(s.yield_movements@.to_set() =~= w.1);
    }
    if stage_sets(s) == w {
        assert forall|x: MovementID| s.protected_movements@.contains(x) <==> crossing_id(i, x) by {
            assert(s.protected_movements@.to_set().contains(x) == w.0.contains(x));
        }
        assert forall|x: MovementID| !s.yield_movements@.contains(x) by {
            assert(s.yield_movements@.to_set().contains(x) == w.1.contains(x));
        }
    }
}

proof fn lemma_scramble_views(i: Intersection, old_stages: Seq<Stage>, new_stages: Seq<Stage>)
    requires
        new_stages.len() == old_stages.len() + if !(exists|k: int| first_all_walk(i, old_stages, k))
            && has_crossing(i) { 1int } else { 0 },
        forall|k: int|
            0 <= k < old_stages.len() ==> {
                let o = #[trigger] old_stages[k];
                let n = new_stages[k];
                &&& n.yield_movements@ == o.yield_movements@
                &&& n.stage_type == o.stage_type
                &&& if first_all_walk(i, old_stages, k) {
                    n.protected_movements@ == o.protected_movements@
                } else {
                    forall|x: MovementID| n.protected_movements@.contains(x) <==> (o.protected_movements@.contains(x) && !x.crosswalk)
                }
            },
        new_stages.len() > old_stages.len() ==> all_walk_like(i, new_stages.last()),
    ensures
        plan_views(new_stages) == scrambled(i, plan_views(old_stages)),
{
    let ov = plan_views(old_stages);
    let nv = plan_views(new_stages);
    assert forall|k: int| 0 <= k < old_stages.len() implies first_all_walk(i, old_stages, k) == first_walk_view(i, ov, k) by {
        lemma_all_walk_view(i, old_stages[k]);
        if first_all_walk(i, old_stages, k) {
            assert forall|j: int| 0 <= j < k implies #[trigger] ov[j] != walk_view(i) by {
                lemma_all_walk_view(i, old_stages[j]);
            }
        }
        if first_walk_view(i, ov, k) {
            assert forall|j: int| 0 <= j < k implies !all_walk_like(i, #[trigger] old_stages[j]) by {
                lemma_all_walk_view(i, old_stages[j]);
                assert(ov[j] != walk_view(i));
                assert(ov[j] == stage_sets(old_stages[j]));
            }
        }
    }
    assert((exists|k: int| first_all_walk(i, old_stages, k)) == (exists|k: int| first_walk_view(i, ov, k))) by {
        if exists|k: int| first_all_walk(i, old_stages, k) {
            let k = choose|k: int| first_all_walk(i, old_stages, k);
            assert(first_walk_view(i, ov, k));
        }
        if exists|k: int| first_walk_view(i, ov, k) {
            let k = choose|k: int| first_walk_view(i, ov, k);
            assert(first_all_walk(i, old_stages, k));
        }
    }
    let sv = scrambled(i, ov);
    assert forall|k: int| 0 <= k < nv.len() implies #[trigger] nv[k] == sv[k] by {
        if k < old_stages.len() {
            let o = old_stages[k];
            let n = new_stages[k];
            if !first_all_walk(i, old_stages, k) {
                assert(n.protected_movements@.to_set() =~= o.protected_movements@.to_set().filter(|x: MovementID| !x.crosswalk));
            }
        } else {
            lemma_all_walk_view(i, new_stages.last());
        }
    }
    assert(nv =~= sv);
}

proof fn lemma_first_exists(i: Intersection, stages: Seq<Stage>, j: int)
    requires
        0 <= j < stages.len(),
        all_walk_like(i, stages[j]),
    ensures
        exists|k: int| first_all_walk(i, stages, k) && k <= j,
    decreases j,
{
    if forall|t: int| 0 <= t < j ==> !all_walk_like(i, #[trigger] stages[t]) {
        assert(first_all_walk(i, stages, j));
    } else {
        let t = choose|t: int| 0 <= t < j && all_walk_like(i, #[trigger] stages[t]);
        lemma_first_exists(i, stages, t);
    }
}

proof fn lemma_road_stage_valid(i: Intersection, r: RoadID, s: Stage)
    requires
        i.wf(),
        forall|x: MovementID| s.protected_movements@.contains(x) <==> vehicle_id_from(i, r, x),
        s.yield_movements@.len() == 0,
        s.protected_movements@.len() > 0,
    ensures
        stage_valid(i, s),
{
    let v = s.protected_movements@;
    assert forall|k: int| 0 <= k < v.len() implies i.has_movement(#[trigger] v[k]) by {
        assert(v.contains(v[k]));
        assert(vehicle_id_from(i, r, v[k]));
        let a = choose|a: int|
            0 <= a < i.movements@.len() && (#[trigger] i.movements@[a]).id == v[k] && !v[k].crosswalk
                && v[k].from.road == r;
        assert(i.movements@[a].id == v[k]);
    }
    assert forall|p: int, q: int| 0 <= p < v.len() && 0 <= q < v.len() implies !ids_conflict(
        i,
        #[trigger] v[p],
        #[trigger] v[q],
    ) by {
        assert(v.contains(v[p]));
        assert(v.contains(v[q]));
        assert(vehicle_id_from(i, r, v[p]));
        assert(vehicle_id_from(i, r, v[q]));
    }
}

proof fn lemma_all_walk_valid(i: Intersection, s: Stage)
    requires
        i.wf(),
        forall|x: MovementID| s.protected_movements@.contains(x) <==> crossing_id(i, x),
        s.yield_movements@.len() == 0,
        s.protected_movements@.len() > 0,
    ensures
        stage_valid(i, s),
{
    let v = s.protected_movements@;
    assert forall|k: int| 0 <= k < v.len() implies i.has_movement(#[trigger] v[k]) by {
        assert(v.contains(v[k]));
        assert(crossing_id(i, v[k]));
        let a = choose|a: int|
            0 <= a < i.movements@.len() && (#[trigger] i.movements@[a]).id == v[k] && v[k].crosswalk;
        assert(i.movements@[a].id == v[k]);
    }
    assert forall|p: int, q: int| 0 <= p < v.len() && 0 <= q < v.len() implies !ids_conflict(
        i,
        #[trigger] v[p],
        #[trigger] v[q],
    ) by {
        assert(v.contains(v[p]));
        assert(crossing_id(i, v[p]));
    }
}

/// The last-resort plan: one stage per incident road protecting its vehicle
/// movements, then one all-walk stage protecting every crossing. It is
/// always valid, since movements from one road never conflict and neither do
/// crossings.
fn stage_per_road(i: &Intersection) -> (r: ControlTrafficSignal)
    requires
        i.wf(),
    ensures
        r.id == i.id,
        plan_valid(*i, r.stages@),
{
    let mut ts = ControlTrafficSignal::new(i.id);
    let mut k: usize = 0;
    while k < i.roads.len()
        invariant
            i.wf(),
            k <= i.roads@.len(),
            ts.id == i.id,
            forall|j: int| 0 <= j < ts.stages@.len() ==> stage_valid(*i, #[trigger] ts.stages@[j]),
            forall|a: int|
                0 <= a < i.movements@.len() && !(#[trigger] i.movements@[a]).id.crosswalk
                    && i.roads@.subrange(0, k as int).contains(i.movements@[a].id.from.road)
                    ==> protected_in(ts.stages@, i.movements@[a].id),
        decreases i.roads.len() - k,
    {
        let r = i.roads[k];
        let stage = road_stage(i, r);
        let ghost before = ts.stages@;
        if stage.protected_movements.len() > 0 {
            proof {
                lemma_road_stage_valid(*i, r, stage);
            }
            ts.stages.push(stage);
        }
        proof {
            assert forall|a: int|
                0 <= a < i.movements@.len() && !(#[trigger] i.movements@[a]).id.crosswalk
                    && i.roads@.subrange(0, k + 1).contains(i.movements@[a].id.from.road)
                    implies protected_in(ts.stages@, i.movements@[a].id) by {
                let x = i.movements@[a].id;
                let j = choose|j: int| 0 <= j < k + 1 && #[trigger] i.roads@.subrange(0, k + 1)[j] == x.from.road;
                if j < k {
                    assert(i.roads@.subrange(0, k as int)[j] == x.from.road);
                    assert(protected_in(before, x));
                    let s = choose|s: int|
                        0 <= s < before.len() && (#[trigger] before[s]).protected_movements@.contains(x);
                    assert(ts.stages@[s] == before[s]);
                } else {
                    assert(vehicle_id_from(*i, r, x));
                    assert(ts.stages@[ts.stages@.len() - 1].protected_movements@.contains(x));
                }
            }
        }
        k += 1;
    }
    let all_walk = all_walk_stage(i);
    let ghost before = ts.stages@;
    if all_walk.protected_movements.len() > 0 {
        proof {
            lemma_all_walk_valid(*i, all_walk);
        }
        ts.stages.push(all_walk);
    }
    proof {
        assert(i.roads@.subrange(0, i.roads@.len() as int) == i.roads@);
        assert forall|a: int| 0 <= a < i.movements@.len() implies protected_in(
            ts.stages@,
            (#[trigger] i.movements@[a]).id,
        ) by {
            let x = i.movements@[a].id;
            if !x.crosswalk {
                assert(i.roads@.contains(x.from.road));
                assert(protected_in(before, x));
                let s = choose|s: int|
                    0 <= s < before.len() && (#[trigger] before[s]).protected_movements@.contains(x);
                assert(ts.stages@[s] == before[s]);
            } else {
                assert(i.movements@[a].id == x);
                assert(crossing_id(*i, x));
                assert(all_walk.protected_movements@.contains(x));
                assert(ts.stages@[ts.stages@.len() - 1].protected_movements@.contains(x));
            }
        }
    }
    ts
}

/// Two plans that differ at most in stage timing are equally valid.
proof fn lemma_timing_irrelevant(i: Intersection, a: Seq<Stage>, b: Seq<Stage>)
    requires
        a.len() == b.len(),
        forall|k: int|
            0 <= k < a.len() ==> (#[trigger] a[k]).protected_movements@ == b[k].protected_movements@
                && a[k].yield_movements@ == b[k].yield_movements@,
    ensures
        plan_valid(i, a) == plan_valid(i, b),
{
    assert forall|k: int| 0 <= k < a.len() implies stage_valid(i, #[trigger] a[k]) == stage_valid(i, b[k]) by {}
    assert forall|m: MovementID| protected_in(a, m) == protected_in(b, m) by {
        if protected_in(a, m) {
            let k = choose|k: int| 0 <= k < a.len() && (#[trigger] a[k]).protected_movements@.contains(m);
            assert(b[k].protected_movements@.contains(m));
        }
        if protected_in(b, m) {
            let k = choose|k: int| 0 <= k < b.len() && (#[trigger] b[k]).protected_movements@.contains(m);
            assert(a[k].protected_movements@.contains(m));
        }
    }
    if plan_valid(i, a) {
        assert forall|k: int| 0 <= k < b.len() implies stage_valid(i, #[trigger] b[k]) by {
            assert(stage_valid(i, a[k]));
        }
    }
    if plan_valid(i, b) {
        assert forall|k: int| 0 <= k < a.len() implies stage_valid(i, #[trigger] a[k]) by {
            assert(stage_valid(i, b[k]));
        }
    }
}

/// A stage is the same as itself.
proof fn lemma_same_stage_refl(s: Stage)
    ensures
        same_stage(s, s),
{
}

/// Stage `p` folded into stage `q`: `q` with `p`'s protected movements.
pub open spec fn merged_view(v: Seq<StageView>, p: int, q: int) -> StageView {
    (v[q].0.union(v[p].0), v[q].1, v[q].2)
}

pub open spec fn neither(a: StageView, b: StageView) -> spec_fn(StageView) -> bool {
    |s: StageView| s != a && s != b
}

/// The trial plan for folding stage `p` into stage `q`: the merged stage,
/// then every stage equal to neither.
pub open spec fn trial_views(v: Seq<StageView>, p: int, q: int) -> Seq<StageView> {
    seq![merged_view(v, p, q)] + v.filter(neither(v[p], v[q]))
}

/// Folding stage `p` into a different stage `q` gives a valid plan.
pub open spec fn merge_ok(i: Intersection, v: Seq<StageView>, p: int, q: int) -> bool {
    0 <= p < v.len() && 0 <= q < v.len() && v[p] != v[q] && views_valid(i, trial_views(v, p, q))
}

/// `(p, q)` is the first pair, in order, whose merge works.
pub open spec fn first_merge(i: Intersection, v: Seq<StageView>, p: int, q: int) -> bool {
    merge_ok(i, v, p, q) && forall|a: int, b: int|
        (a < p || (a == p && b < q)) ==> !#[trigger] merge_ok(i, v, a, b)
}

proof fn lemma_same_stage_views(a: Stage, b: Stage)
    ensures
        same_stage(a, b) == (stage_sets(a) == stage_sets(b)),
{
    if same_stage(a, b) {
        assert(a.protected_movements@.to_set() =~= b.protected_movements@.to_set());
        assert(a.yield_movements@.to_set() =~= b.yield_movements@.to_set());
    }
    if stage_sets(a) == stage_sets(b) {
        assert forall|m: MovementID| a.protected_movements@.contains(m) <==> b.protected_movements@.contains(m) by {
            assert(a.protected_movements@.to_set().contains(m) == b.protected_movements@.to_set().contains(m));
        }
        assert forall|m: MovementID| a.yield_movements@.contains(m) <==> b.yield_movements@.contains(m) by {
            assert(a.yield_movements@.to_set().contains(m) == b.yield_movements@.to_set().contains(m));
        }
    }
}

/// The trial plan for folding stage `p` into stage `q`.
fn build_trial(ts: &ControlTrafficSignal, p: usize, q: usize) -> (r: Vec<Stage>)
    requires
        p < ts.stages@.len(),
        q < ts.stages@.len(),
        !same_stage(ts.stages@[p as int], ts.stages@[q as int]),
    ensures
        plan_views(r@) == trial_views(plan_views(ts.stages@), p as int, q as int),
        r@.len() < ts.stages@.len(),
{
    let ghost v = plan_views(ts.stages@);
    let n = ts.stages.len();
    let src = &ts.stages[p];
    let dst = &ts.stages[q];
    let mut merged = dst.duplicate();
    extend_ids(&mut merged.protected_movements, &src.protected_movements);
    proof {
        assert forall|x: MovementID| merged.protected_movements@.to_set().contains(x) == v[q as int].0.union(v[p as int].0).contains(x) by {
            assert(merged.protected_movements@.contains(x) <==> (dst.protected_movements@.contains(x) || src.protected_movements@.contains(x)));
        }
        assert(merged.protected_movements@.to_set() =~= v[q as int].0.union(v[p as int].0));
        assert(stage_sets(merged) == merged_view(v, p as int, q as int));
        lemma_same_stage_refl(*src);
        lemma_same_stage_refl(*dst);
        lemma_same_stage_views(*src, *dst);
    }
    let mut trial: Vec<Stage> = vec![merged];
    let mut k: usize = 0;
    while k < n
        invariant
            n == ts.stages@.len(),
            v == plan_views(ts.stages@),
            p < n,
            q < n,
            p != q,
            k <= n,
            *src == ts.stages@[p as int],
            *dst == ts.stages@[q as int],
            plan_views(trial@) == seq![merged_view(v, p as int, q as int)] + v.subrange(0, k as int).filter(
                neither(v[p as int], v[q as int]),
            ),
            trial@.len() + (if p < k { 1int } else { 0 }) + (if q < k { 1int } else { 0 }) <= k + 1,
        decreases n - k,
    {
        let s = &ts.stages[k];
        proof {
            lemma_same_stage_refl(*src);
            lemma_same_stage_refl(*dst);
            lemma_same_stage_views(*s, *src);
            lemma_same_stage_views(*s, *dst);
            assert(v[k as int] == stage_sets(*s));
            assert(v.subrange(0, k + 1) == v.subrange(0, k as int).push(v[k as int]));
            v.subrange(0, k as int).lemma_filter_push(v[k as int], neither(v[p as int], v[q as int]));
        }
        let ghost before = trial@;
        if !s.same_as(src) && !s.same_as(dst) {
            let d = s.duplicate();
            trial.push(d);
            proof {
                assert(stage_sets(d) == stage_sets(*s));
                assert(plan_views(trial@) =~= plan_views(before).push(stage_sets(d)));
            }
        }
        k += 1;
    }
    assert(v.subrange(0, n as int) == v);
    trial
}

/// Tries to fold one stage's protected movements into another. For each
/// ordered pair of different stages (`src`, `dst`), in order, it builds a
/// trial plan: `dst` with `src`'s protected movements added, followed by
/// every stage equal to neither `src` nor `dst`. The first trial that is
/// valid is returned; it has fewer stages than `ts`. `None` when no trial
/// is valid.
pub fn merge_stages(ts: &ControlTrafficSignal, i: &Intersection) -> (r: Option<ControlTrafficSignal>)
    requires
        i.wf(),
    ensures
        r is None <==> !exists|p: int, q: int| merge_ok(*i, plan_views(ts.stages@), p, q),
        r matches Some(m) ==> m.id == ts.id && plan_valid(*i, m.stages@) && m.stages@.len() < ts.stages@.len()
            && exists|p: int, q: int|
            first_merge(*i, plan_views(ts.stages@), p, q) && plan_views(m.stages@) == trial_views(
                plan_views(ts.stages@),
                p,
                q,
            ),
{
    let ghost v = plan_views(ts.stages@);
    let n = ts.stages.len();
    let mut p: usize = 0;
    while p < n
        invariant
            n == ts.stages@.len(),
            v == plan_views(ts.stages@),
            i.wf(),
            p <= n,
            forall|a: int, b: int| a < p ==> !#[trigger] merge_ok(*i, v, a, b),
        decreases n - p,
    {
        let mut q: usize = 0;
        while q < n
            invariant
                n == ts.stages@.len(),
                v == plan_views(ts.stages@),
                p < n,
                q <= n,
                i.wf(),
                forall|a: int, b: int| (a < p || (a == p && b < q)) ==> !#[trigger] merge_ok(*i, v, a, b),
            decreases n - q,
        {
            let src = &ts.stages[p];
            let dst = &ts.stages[q];
            proof {
                lemma_same_stage_views(*src, *dst);
            }
            if !src.same_as(dst) {
                let trial = build_trial(ts, p, q);
                let ok = stages_valid(i, &trial);
                proof {
                    lemma_views_valid(*i, trial@);
                }
                if ok {
                    proof {
                        assert(first_merge(*i, v, p as int, q as int));
                    }
                    return Some(ControlTrafficSignal { id: ts.id, stages: trial });
                }
            }
            q += 1;
        }
        p += 1;
    }
    None
}

/// Extension step and longest extension of a lagging-green stage, in
/// milliseconds.
pub const LAGGING_EXTENSION_MILLIS: u64 = 10000;

pub const LAGGING_MAX_MILLIS: u64 = 20000;

/// Every protected movement of `s` yields in `prev`.
pub open spec fn lagging(prev: Stage, s: Stage) -> bool {
    forall|m: MovementID| s.protected_movements@.contains(m) ==> prev.yield_movements@.contains(m)
}

/// The timing a stage gets after lagging-green promotion.
pub open spec fn lagging_timing(stages: Seq<Stage>, k: int) -> StageType {
    if k > 0 && lagging(stages[k - 1], stages[k]) && stages[k].stage_type is Fixed {
        StageType::Variable(0, LAGGING_EXTENSION_MILLIS, LAGGING_MAX_MILLIS)
    } else {
        stages[k].stage_type
    }
}

/// Makes every fixed stage after the first variable, with no minimum, when
/// all it protects was yielding in the stage before it: such a stage can be
/// skipped or cut short when nobody waits for it.
fn make_lagging_green_variable(ts: &mut ControlTrafficSignal)
    ensures
        final(ts).id == old(ts).id,
        final(ts).stages@.len() == old(ts).stages@.len(),
        forall|k: int|
            0 <= k < final(ts).stages@.len() ==> (#[trigger] final(ts).stages@[k]).protected_movements@
                == old(ts).stages@[k].protected_movements@ && final(ts).stages@[k].yield_movements@
                == old(ts).stages@[k].yield_movements@ && final(ts).stages@[k].stage_type
                == lagging_timing(old(ts).stages@, k),
{
    let mut k: usize = 0;
    while k < ts.stages.len()
        invariant
            ts.id == old(ts).id,
            k <= ts.stages@.len(),
            ts.stages@.len() == old(ts).stages@.len(),
            forall|j: int|
                0 <= j < ts.stages@.len() ==> (#[trigger] ts.stages@[j]).protected_movements@
                    == old(ts).stages@[j].protected_movements@ && ts.stages@[j].yield_movements@
                    == old(ts).stages@[j].yield_movements@,
            forall|j: int|
                0 <= j < ts.stages@.len() ==> (#[trigger] ts.stages@[j]).stage_type == if j < k {
                    lagging_timing(old(ts).stages@, j)
                } else {
                    old(ts).stages@[j].stage_type
                },
        decreases ts.stages.len() - k,
    {
        if k > 0 {
            let promote = match ts.stages[k].stage_type {
                StageType::Fixed(_) => subset_ids(&ts.stages[k].protected_movements, &ts.stages[k - 1].yield_movements),
                StageType::Variable(..) => false,
            };
            if promote {
                let mut s = ts.stages[k].duplicate();
                s.stage_type = StageType::Variable(0, LAGGING_EXTENSION_MILLIS, LAGGING_MAX_MILLIS);
                ts.stages.set(k, s);
            }
        }
        k += 1;
    }
}


/// Walking pace used for crossing times: 1.4 m/s, in tenths of a
/// millimetre per second.
pub const CROSSWALK_PACE: u128 = 14000;

/// Shortest walk stage, in milliseconds.
pub const MIN_CROSSWALK_MILLIS: u64 = 15000;

/// The length of the geometry of movement `m` at `i`, or zero where `i` has
/// no such movement.
pub open spec fn movement_len(i: Intersection, m: MovementID) -> nat {
    if i.has_movement(m) {
        let a = choose|a: int| 0 <= a < i.movements@.len() && (#[trigger] i.movements@[a]).id == m;
        length_spec(i.movements@[a].geom@)
    } else {
        0
    }
}

/// The longest crossing among the identifiers of `v`.
pub open spec fn max_crossing_len(i: Intersection, v: Seq<MovementID>) -> nat
    decreases v.len(),
{
    if v.len() == 0 {
        0
    } else {
        let rest = max_crossing_len(i, v.drop_last());
        let here = if v.last().crosswalk { movement_len(i, v.last()) } else { 0 };
        if here > rest { here } else { rest }
    }
}

/// Whole seconds, in milliseconds, to walk `d` at the crossing pace,
/// rounded up, and capped at the largest `u64`.
pub open spec fn walk_millis(d: nat) -> nat {
    let secs = d as int / (CROSSWALK_PACE as int) + if d as int % (CROSSWALK_PACE as int) == 0 { 0int } else { 1int };
    let ms = secs * 1000;
    if ms > u64::MAX { u64::MAX as nat } else { ms as nat }
}

/// The time the longest protected crossing of `s` needs, if it has one of
/// non-zero length.
pub open spec fn crosswalk_time(i: Intersection, s: Stage) -> Option<u64> {
    let d = max_crossing_len(i, s.protected_movements@);
    if d > 0 { Some(walk_millis(d) as u64) } else { None }
}

/// The time the longest protected crossing of `s` needs, if it has one of
/// non-zero length.
fn max_crosswalk_time(s: &Stage, i: &Intersection) -> (r: Option<u64>)
    requires
        i.wf(),
    ensures
        r == crosswalk_time(*i, *s),
{
    let v = &s.protected_movements;
    let mut best: u128 = 0;
    let mut k: usize = 0;
    while k < v.len()
        invariant
            i.wf(),
            k <= v@.len(),
            v@ == s.protected_movements@,
            best == max_crossing_len(*i, v@.subrange(0, k as int)),
        decreases v.len() - k,
    {
        let m = v[k];
        let mut here: u128 = 0;
        if m.crosswalk {
            if let Some(a) = i.movement_index(&m) {
                here = polyline_length(&i.movements[a].geom);
                proof {
                    let b = choose|b: int| 0 <= b < i.movements@.len() && (#[trigger] i.movements@[b]).id == m;
                    if b != a {
                        let (lo, hi) = if b < a { (b, a as int) } else { (a as int, b) };
                        assert(i.movements@[lo].id != i.movements@[hi].id);
                    }
                }
            }
        }
        proof {
            let pre = v@.subrange(0, k as int);
            assert(v@.subrange(0, k + 1).drop_last() == pre);
            assert(v@.subrange(0, k + 1).last() == m);
        }
        if here > best {
            best = here;
        }
        k += 1;
    }
    assert(v@.subrange(0, v@.len() as int) == v@);
    if best > 0 {
        let ms = best / CROSSWALK_PACE + if best % CROSSWALK_PACE == 0 { 0 } else { 1 };
        let ms = if ms > (u64::MAX as u128) / 1000 {
            u64::MAX
        } else {
            (ms * 1000) as u64
        };
        Some(ms)
    } else {
        None
    }
}

/// The timing a stage gets from its crossings: a fixed stage with a
/// crossing becomes variable, lasting at least the walk time and at least
/// `MIN_CROSSWALK_MILLIS`, extended a second at a time for at most a second.
pub open spec fn crosswalk_timing(i: Intersection, s: Stage) -> StageType {
    crosswalk_timing_for(i, s, s.stage_type)
}

/// The timing a stage protecting what `s` protects, with timing `ty`, gets
/// from its crossings.
pub open spec fn crosswalk_timing_for(i: Intersection, s: Stage, ty: StageType) -> StageType {
    match crosswalk_time(i, s) {
        Some(d) => if ty is Fixed {
            StageType::Variable(
                if d > MIN_CROSSWALK_MILLIS { d } else { MIN_CROSSWALK_MILLIS },
                1000,
                1000,
            )
        } else {
            ty
        },
        None => ty,
    }
}

/// `m` is valid and no merge of two of its stages gives a valid plan.
pub open spec fn merge_free(i: Intersection, m: Seq<Stage>) -> bool {
    plan_valid(i, m) && !(exists|p: int, q: int| merge_ok(i, plan_views(m), p, q))
}

/// `r` is `m` with lagging-green and then crosswalk timing applied.
pub open spec fn timed_from(i: Intersection, m: Seq<Stage>, r: Seq<Stage>) -> bool {
    r.len() == m.len() && forall|k: int|
        0 <= k < m.len() ==> (#[trigger] r[k]).protected_movements@ == m[k].protected_movements@
            && r[k].yield_movements@ == m[k].yield_movements@ && r[k].stage_type == crosswalk_timing_for(
            i,
            m[k],
            lagging_timing(m, k),
        )
}

/// Gives every fixed stage with a crossing a variable timing long enough to
/// walk it.
fn make_crosswalk_variable(ts: &mut ControlTrafficSignal, i: &Intersection)
    requires
        i.wf(),
    ensures
        final(ts).id == old(ts).id,
        final(ts).stages@.len() == old(ts).stages@.len(),
        forall|k: int|
            0 <= k < final(ts).stages@.len() ==> (#[trigger] final(ts).stages@[k]).protected_movements@
                == old(ts).stages@[k].protected_movements@ && final(ts).stages@[k].yield_movements@
                == old(ts).stages@[k].yield_movements@ && final(ts).stages@[k].stage_type
                == crosswalk_timing(*i, old(ts).stages@[k]),
{
    let mut k: usize = 0;
    while k < ts.stages.len()
        invariant
            i.wf(),
            ts.id == old(ts).id,
            k <= ts.stages@.len(),
            ts.stages@.len() == old(ts).stages@.len(),
            forall|j: int|
                0 <= j < ts.stages@.len() ==> (#[trigger] ts.stages@[j]).protected_movements@
                    == old(ts).stages@[j].protected_movements@ && ts.stages@[j].yield_movements@
                    == old(ts).stages@[j].yield_movements@,
            forall|j: int|
                0 <= j < ts.stages@.len() ==> (#[trigger] ts.stages@[j]).stage_type == if j < k {
                    crosswalk_timing(*i, old(ts).stages@[j])
                } else {
                    old(ts).stages@[j].stage_type
                },
        decreases ts.stages.len() - k,
    {
        proof {
            assert(crosswalk_time(*i, ts.stages@[k as int]) == crosswalk_time(*i, old(ts).stages@[k as int]));
        }
        if let Some(d) = max_crosswalk_time(&ts.stages[k], i) {
            if let StageType::Fixed(_) = ts.stages[k].stage_type {
                let mut s = ts.stages[k].duplicate();
                s.stage_type = StageType::Variable(
                    if d > MIN_CROSSWALK_MILLIS { d } else { MIN_CROSSWALK_MILLIS },
                    1000,
                    1000,
                );
                ts.stages.set(k, s);
            }
        }
        k += 1;
    }
}

/// A stage as values: what it protects, what yields, its timing.
pub type StageView = (Set<MovementID>, Set<MovementID>, StageType);

/// The template stages at `i` before pedestrian handling: the three-way
/// template when three roads are incoming, some movement goes straight and a
/// minor road is left over; the four-way template when four roads are
/// incoming; otherwise none.
pub open spec fn template_base(i: Intersection, side: DrivingSide) -> Seq<StageView> {
    let rs = i.roads@.filter(is_incoming(i));
    if rs.len() == 3 {
        if exists|a: int| first_straight(i, a) {
            let a = choose|a: int| first_straight(i, a);
            let m = i.movements@[a].id;
            match minor_road(rs, m.from.road, m.to.road) {
                Some(east) => templates_at(i, three_way_lines(m.from.road, m.to.road, east), side),
                None => Seq::empty(),
            }
        } else {
            Seq::empty()
        }
    } else if rs.len() == 4 {
        templates_at(i, four_way_lines(rs[0], rs[1], rs[2], rs[3]), side)
    } else {
        Seq::empty()
    }
}

/// The all-walk stage of `i` as values.
pub open spec fn walk_view(i: Intersection) -> StageView {
    (Set::new(|x: MovementID| crossing_id(i, x)), Set::empty(), StageType::Fixed(DEFAULT_STAGE_MILLIS))
}

pub open spec fn first_walk_view(i: Intersection, v: Seq<StageView>, k: int) -> bool {
    0 <= k < v.len() && v[k] == walk_view(i) && forall|j: int| 0 <= j < k ==> #[trigger] v[j] != walk_view(i)
}

/// Pedestrian handling on stage values: crossings leave every stage but
/// the first all-walk one, and an all-walk stage is appended when there was
/// none and some crossing exists.
pub open spec fn scrambled(i: Intersection, v: Seq<StageView>) -> Seq<StageView> {
    let kept = Seq::new(
        v.len(),
        |k: int| if first_walk_view(i, v, k) {
            v[k]
        } else {
            (v[k].0.filter(|x: MovementID| !x.crosswalk), v[k].1, v[k].2)
        },
    );
    if !(exists|k: int| first_walk_view(i, v, k)) && has_crossing(i) {
        kept.push(walk_view(i))
    } else {
        kept
    }
}

/// A plan of stage values is valid at `i`, as `plan_valid` says of stages.
pub open spec fn views_valid(i: Intersection, v: Seq<StageView>) -> bool {
    &&& forall|k: int| 0 <= k < v.len() ==> (#[trigger] v[k]).0 != Set::<MovementID>::empty()
    &&& forall|k: int, x: MovementID| 0 <= k < v.len() && #[trigger] v[k].0.contains(x) ==> i.has_movement(x)
    &&& forall|k: int, x: MovementID| 0 <= k < v.len() && #[trigger] v[k].1.contains(x) ==> i.has_movement(x)
    &&& forall|k: int, x: MovementID, y: MovementID|
        0 <= k < v.len() && #[trigger] v[k].0.contains(x) && #[trigger] v[k].0.contains(y) ==> !ids_conflict(i, x, y)
    &&& forall|a: int| 0 <= a < i.movements@.len() ==> view_protects(v, (#[trigger] i.movements@[a]).id)
}

/// Some stage value of `v` protects `m`.
pub open spec fn view_protects(v: Seq<StageView>, m: MovementID) -> bool {
    exists|k: int| 0 <= k < v.len() && (#[trigger] v[k]).0.contains(m)
}

pub open spec fn plan_views(stages: Seq<Stage>) -> Seq<StageView> {
    stages.map_values(|s: Stage| stage_sets(s))
}

proof fn lemma_views_valid(i: Intersection, stages: Seq<Stage>)
    ensures
        plan_valid(i, stages) == views_valid(i, plan_views(stages)),
{
    let v = plan_views(stages);
    assert forall|k: int| 0 <= k < stages.len() implies #[trigger] v[k] == stage_sets(stages[k]) by {}
    if plan_valid(i, stages) {
        assert forall|k: int| 0 <= k < v.len() implies (#[trigger] v[k]).0 != Set::<MovementID>::empty() by {
            assert(stage_valid(i, stages[k]));
            let p = stages[k].protected_movements@;
            assert(v[k].0.contains(p[0]));
        }
        assert forall|k: int, x: MovementID| 0 <= k < v.len() && #[trigger] v[k].0.contains(x) implies i.has_movement(x) by {
            assert(stage_valid(i, stages[k]));
            let p = stages[k].protected_movements@;
            let j = choose|j: int| 0 <= j < p.len() && p[j] == x;
            assert(i.has_movement(p[j]));
        }
        assert forall|k: int, x: MovementID| 0 <= k < v.len() && #[trigger] v[k].1.contains(x) implies i.has_movement(x) by {
            assert(stage_valid(i, stages[k]));
            let p = stages[k].yield_movements@;
            let j = choose|j: int| 0 <= j < p.len() && p[j] == x;
            assert(i.has_movement(p[j]));
        }
        assert forall|k: int, x: MovementID, y: MovementID|
            0 <= k < v.len() && #[trigger] v[k].0.contains(x) && #[trigger] v[k].0.contains(y) implies !ids_conflict(i, x, y) by {
            assert(stage_valid(i, stages[k]));
            let p = stages[k].protected_movements@;
            let a = choose|a: int| 0 <= a < p.len() && p[a] == x;
            let b = choose|b: int| 0 <= b < p.len() && p[b] == y;
            assert(!ids_conflict(i, p[a], p[b]));
        }
        assert forall|a: int| 0 <= a < i.movements@.len() implies view_protects(v, (#[trigger] i.movements@[a]).id) by {
            assert(protected_in(stages, i.movements@[a].id));
            let k = choose|k: int| 0 <= k < stages.len() && (#[trigger] stages[k]).protected_movements@.contains(i.movements@[a].id);
            assert(v[k].0.contains(i.movements@[a].id));
        }
        assert(views_valid(i, v));
    }
    if views_valid(i, v) {
        assert forall|k: int| 0 <= k < stages.len() implies stage_valid(i, #[trigger] stages[k]) by {
            let p = stages[k].protected_movements@;
            let y = stages[k].yield_movements@;
            if p.len() == 0 {
                assert(v[k].0 =~= Set::<MovementID>::empty());
            }
            assert forall|j: int| 0 <= j < p.len() implies i.has_movement(#[trigger] p[j]) by {
                assert(v[k].0.contains(p[j]));
            }
            assert forall|j: int| 0 <= j < y.len() implies i.has_movement(#[trigger] y[j]) by {
                assert(v[k].1.contains(y[j]));
            }
            assert forall|a: int, b: int| 0 <= a < p.len() && 0 <= b < p.len() implies !ids_conflict(i, #[trigger] p[a], #[trigger] p[b]) by {
                assert(v[k].0.contains(p[a]) && v[k].0.contains(p[b]));
            }
        }
        assert forall|a: int| 0 <= a < i.movements@.len() implies protected_in(stages, (#[trigger] i.movements@[a]).id) by {
            assert(view_protects(v, i.movements@[a].id));
            let k = choose|k: int| 0 <= k < v.len() && (#[trigger] v[k]).0.contains(i.movements@[a].id);
            assert(stages[k].protected_movements@.contains(i.movements@[a].id));
        }
    }
}

/// Builds an unoptimized plan: the three- or four-way template followed by a
/// pedestrian scramble; where that is not valid, the multi-way stages with a
/// scramble; where that is still not valid, one stage per road and an
/// all-walk stage. The result is always valid.
fn make_signal(i: &Intersection, side: DrivingSide) -> (r: ControlTrafficSignal)
    requires
        i.wf(),
    ensures
        r.id == i.id,
        plan_valid(*i, r.stages@),
        views_valid(*i, scrambled(*i, template_base(*i, side))) ==> plan_views(r.stages@) == scrambled(
            *i,
            template_base(*i, side),
        ),
{
    let mut ts = ControlTrafficSignal::new(i.id);
    if let Some(other) = three_way_three_stage(i, side) {
        ts.stages = other.stages;
    } else if let Some(other) = four_way_four_stage(i, side) {
        ts.stages = other.stages;
    } else {
        assert(plan_views(ts.stages@) =~= Seq::<StageView>::empty());
    }
    assert(plan_views(ts.stages@) == template_base(*i, side));
    convert_to_ped_scramble(&mut ts, i);
    proof {
        lemma_views_valid(*i, ts.stages@);
    }
    if !ts.validate(i) {
        let other = multi_way_stages(i);
        ts.stages = other.stages;
        convert_to_ped_scramble(&mut ts, i);
    }
    if !ts.validate(i) {
        ts = stage_per_road(i);
    }
    ts
}

/// Drops stages that protect nothing, merges stages while a merge keeps the
/// plan valid, then applies lagging-green and crosswalk timing.
fn optimize(ts: ControlTrafficSignal, i: &Intersection) -> (r: ControlTrafficSignal)
    requires
        i.wf(),
        plan_valid(*i, ts.stages@),
    ensures
        r.id == ts.id,
        plan_valid(*i, r.stages@),
        r.stages@.len() <= ts.stages@.len(),
        exists|m: Seq<Stage>| merge_free(*i, m) && timed_from(*i, m, r.stages@),
{
    let mut kept: Vec<Stage> = Vec::new();
    let mut k: usize = 0;
    while k < ts.stages.len()
        invariant
            k <= ts.stages@.len(),
            plan_valid(*i, ts.stages@),
            kept@.len() == k,
            forall|j: int|
                0 <= j < k ==> (#[trigger] kept@[j]).protected_movements@ == ts.stages@[j].protected_movements@
                    && kept@[j].yield_movements@ == ts.stages@[j].yield_movements@,
        decreases ts.stages.len() - k,
    {
        assert(stage_valid(*i, ts.stages@[k as int]));
        if ts.stages[k].protected_movements.len() > 0 {
            kept.push(ts.stages[k].duplicate());
        }
        k += 1;
    }
    proof {
        lemma_timing_irrelevant(*i, kept@, ts.stages@);
    }
    let mut cur = ControlTrafficSignal { id: ts.id, stages: kept };
    let mut stable = false;
    while !stable
        invariant
            i.wf(),
            cur.id == ts.id,
            plan_valid(*i, cur.stages@),
            cur.stages@.len() <= ts.stages@.len(),
            stable ==> !(exists|p: int, q: int| merge_ok(*i, plan_views(cur.stages@), p, q)),
        decreases cur.stages@.len() + (if stable { 0int } else { 1int }),
    {
        match merge_stages(&cur, i) {
            Some(merged) => {
                cur = merged;
            },
            None => {
                stable = true;
            },
        }
    }
    let ghost m = cur.stages@;
    make_lagging_green_variable(&mut cur);
    proof {
        lemma_timing_irrelevant(*i, m, cur.stages@);
    }
    let ghost lagged = cur.stages@;
    make_crosswalk_variable(&mut cur, i);
    proof {
        lemma_timing_irrelevant(*i, lagged, cur.stages@);
        assert forall|k: int| 0 <= k < m.len() implies crosswalk_timing(*i, lagged[k]) == crosswalk_timing_for(*i, m[k], lagging_timing(m, k)) by {
            assert(crosswalk_time(*i, lagged[k]) == crosswalk_time(*i, m[k]));
        }
        assert(merge_free(*i, m));
        assert(timed_from(*i, m, cur.stages@));
    }
    cur
}

/// Synthesizes the signal plan of an intersection: the first valid plan of
/// the template, multi-way and per-road strategies, then optimized. The plan
/// is always there and always valid: every stage protects at least one
/// movement and no two conflicting ones, and every movement is protected in
/// some stage. Its stages are those of a valid plan in which no two stages
/// can be merged, with lagging-green and crosswalk timing applied.
pub fn make_traffic_signal(map: &StreetMap, i: &Intersection) -> (r: Option<ControlTrafficSignal>)
    requires
        i.wf(),
    ensures
        r is Some,
        r->0.id == i.id,
        plan_valid(*i, r->0.stages@),
        exists|m: Seq<Stage>| merge_free(*i, m) && timed_from(*i, m, r->0.stages@),
{
    let ts = make_signal(i, map.driving_side);
    Some(optimize(ts, i))
}

} // verus!
