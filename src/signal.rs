//! Traffic-signal plans: stages, validity, and the checks the synthesizer and
//! the optimizer rely on.
use vstd::prelude::*;

use crate::geom::{polylines_intersect, polylines_meet};
use crate::map::{Intersection, IntersectionID, Movement, MovementID};

verus! {

/// Default length of a fixed stage, in milliseconds.
pub const DEFAULT_STAGE_MILLIS: u64 = 30000;

/// How long a stage lasts, in milliseconds.
#[derive(Clone, Copy, Debug, PartialEq, Eq, Structural)]
pub enum StageType {
    Fixed(u64),
    /// Minimum, extension step, longest extension.
    Variable(u64, u64, u64),
}

/// One signal phase: movements with right of way, movements that may go
/// after yielding, and its timing.
#[derive(Clone, Debug)]
pub struct Stage {
    pub protected_movements: Vec<MovementID>,
    pub yield_movements: Vec<MovementID>,
    pub stage_type: StageType,
}

/// An ordered plan of stages for one intersection.
#[derive(Clone, Debug)]
pub struct ControlTrafficSignal {
    pub id: IntersectionID,
    pub stages: Vec<Stage>,
}

/// Two sequences hold the same identifiers, as sets.
pub open spec fn same_ids(a: Seq<MovementID>, b: Seq<MovementID>) -> bool {
    forall|m: MovementID| a.contains(m) <==> b.contains(m)
}

/// Two stages are equal as sets of movements, with the same timing.
pub open spec fn same_stage(a: Stage, b: Stage) -> bool {
    same_ids(a.protected_movements@, b.protected_movements@) && same_ids(
        a.yield_movements@,
        b.yield_movements@,
    ) && a.stage_type == b.stage_type
}

/// Two vehicle movements from different roads whose centerlines meet.
pub open spec fn conflict(a: Movement, b: Movement) -> bool {
    !a.id.crosswalk && !b.id.crosswalk && a.id.from.road != b.id.from.road && polylines_meet(
        a.geom@,
        b.geom@,
    )
}

/// The movements named `m1` and `m2` at `i` conflict.
pub open spec fn ids_conflict(i: Intersection, m1: MovementID, m2: MovementID) -> bool {
    exists|a: int, b: int|
        0 <= a < i.movements@.len() && 0 <= b < i.movements@.len() && (#[trigger] i.movements@[a]).id
            == m1 && (#[trigger] i.movements@[b]).id == m2 && conflict(
            i.movements@[a],
            i.movements@[b],
        )
}

/// Every identifier in `s` names a movement of `i`.
pub open spec fn all_known(i: Intersection, s: Seq<MovementID>) -> bool {
    forall|k: int| 0 <= k < s.len() ==> i.has_movement(#[trigger] s[k])
}

/// No two protected movements of `s` conflict.
pub open spec fn conflict_free(i: Intersection, s: Seq<MovementID>) -> bool {
    forall|p: int, q: int|
        0 <= p < s.len() && 0 <= q < s.len() ==> !ids_conflict(i, #[trigger] s[p], #[trigger] s[q])
}

/// A stage is valid at `i`: it protects something, names only movements of
/// `i`, and protects no conflicting pair.
pub open spec fn stage_valid(i: Intersection, s: Stage) -> bool {
    &&& s.protected_movements@.len() > 0
    &&& all_known(i, s.protected_movements@)
    &&& all_known(i, s.yield_movements@)
    &&& conflict_free(i, s.protected_movements@)
}

/// Some stage of `stages` protects `m`.
pub open spec fn protected_in(stages: Seq<Stage>, m: MovementID) -> bool {
    exists|k: int| 0 <= k < stages.len() && (#[trigger] stages[k]).protected_movements@.contains(m)
}

/// Every movement of `i` is protected in some stage.
pub open spec fn covers(i: Intersection, stages: Seq<Stage>) -> bool {
    forall|a: int| 0 <= a < i.movements@.len() ==> protected_in(stages, (#[trigger] i.movements@[a]).id)
}

/// A plan is valid at `i`: all its stages are valid and together they
/// protect every movement.
pub open spec fn plan_valid(i: Intersection, stages: Seq<Stage>) -> bool {
    (forall|k: int| 0 <= k < stages.len() ==> stage_valid(i, #[trigger] stages[k])) && covers(
        i,
        stages,
    )
}

/// Whether `v` holds `m`.
pub fn contains_id(v: &Vec<MovementID>, m: &MovementID) -> (r: bool)
    ensures
        r == v@.contains(*m),
{
    let mut k: usize = 0;
    while k < v.len()
        invariant
            forall|j: int| 0 <= j < k ==> v@[j] != *m,
        decreases v.len() - k,
    {
        if v[k] == *m {
            return true;
        }
        k += 1;
    }
    false
}

/// Whether every identifier of `a` is in `b`.
pub fn subset_ids(a: &Vec<MovementID>, b: &Vec<MovementID>) -> (r: bool)
    ensures
        r == (forall|m: MovementID| a@.contains(m) ==> b@.contains(m)),
{
    let mut k: usize = 0;
    while k < a.len()
        invariant
            forall|j: int| 0 <= j < k ==> b@.contains(#[trigger] a@[j]),
        decreases a.len() - k,
    {
        if !contains_id(b, &a[k]) {
            return false;
        }
        k += 1;
    }
    assert forall|m: MovementID| a@.contains(m) implies b@.contains(m) by {
        let j = choose|j: int| 0 <= j < a@.len() && a@[j] == m;
        assert(b@.contains(a@[j]));
    }
    true
}

/// Whether two sequences hold the same identifiers.
pub fn same_id_set(a: &Vec<MovementID>, b: &Vec<MovementID>) -> (r: bool)
    ensures
        r == same_ids(a@, b@),
{
    subset_ids(a, b) && subset_ids(b, a)
}

/// Adds `m` unless it is already there.
pub fn insert_id(v: &mut Vec<MovementID>, m: MovementID)
    ensures
        forall|x: MovementID| #[trigger] final(v)@.contains(x) <==> (old(v)@.contains(x) || x == m),
        old(v)@.is_prefix_of(final(v)@),
{
    if !contains_id(v, &m) {
        v.push(m);
        proof {
            assert forall|x: MovementID| v@.contains(x) <==> (old(v)@.contains(x) || x == m) by {
                if old(v)@.contains(x) {
                    let j = choose|j: int| 0 <= j < old(v)@.len() && old(v)@[j] == x;
                    assert(v@[j] == x);
                }
                if x == m {
                    assert(v@[v@.len() - 1] == m);
                }
                if v@.contains(x) && x != m {
                    let j = choose|j: int| 0 <= j < v@.len() && v@[j] == x;
                    assert(old(v)@[j] == x);
                }
            }
        }
    }
    assert(old(v)@.is_prefix_of(v@));
}

/// A copy of a list of identifiers.
pub fn copy_ids(v: &Vec<MovementID>) -> (r: Vec<MovementID>)
    ensures
        r@ == v@,
{
    let r = v.clone();
    assert(r@ =~= v@);
    r
}

impl Stage {
    /// A copy of this stage.
    pub fn duplicate(&self) -> (r: Stage)
        ensures
            r.protected_movements@ == self.protected_movements@,
            r.yield_movements@ == self.yield_movements@,
            r.stage_type == self.stage_type,
    {
        Stage {
            protected_movements: copy_ids(&self.protected_movements),
            yield_movements: copy_ids(&self.yield_movements),
            stage_type: self.stage_type,
        }
    }

    /// An empty stage of the default fixed length.
    pub fn new() -> (r: Stage)
        ensures
            r.protected_movements@.len() == 0,
            r.yield_movements@.len() == 0,
            r.stage_type == StageType::Fixed(DEFAULT_STAGE_MILLIS),
    {
        Stage {
            protected_movements: Vec::new(),
            yield_movements: Vec::new(),
            stage_type: StageType::Fixed(DEFAULT_STAGE_MILLIS),
        }
    }

    /// Whether two stages hold the same movements with the same timing.
    pub fn same_as(&self, other: &Stage) -> (r: bool)
        ensures
            r == same_stage(*self, *other),
    {
        same_id_set(&self.protected_movements, &other.protected_movements) && same_id_set(
            &self.yield_movements,
            &other.yield_movements,
        ) && self.stage_type == other.stage_type
    }
}

/// Whether the movements named `m1` and `m2` conflict at `i`.
pub fn movements_conflict(i: &Intersection, m1: &MovementID, m2: &MovementID) -> (r: bool)
    requires
        i.wf(),
    ensures
        r == ids_conflict(*i, *m1, *m2),
{
    let a = i.movement_index(m1);
    let b = i.movement_index(m2);
    match (a, b) {
        (Some(a), Some(b)) => {
            let x = &i.movements[a];
            let y = &i.movements[b];
            let r = !x.id.crosswalk && !y.id.crosswalk && x.id.from.road != y.id.from.road
                && polylines_intersect(&x.geom, &y.geom);
            proof {
                if ids_conflict(*i, *m1, *m2) {
                    let (a2, b2) = choose|a2: int, b2: int|
                        0 <= a2 < i.movements@.len() && 0 <= b2 < i.movements@.len() && (
                        #[trigger] i.movements@[a2]).id == *m1 && (#[trigger] i.movements@[b2]).id
                            == *m2 && conflict(i.movements@[a2], i.movements@[b2]);
                    if a2 != a as int {
                        let (lo, hi) = if a2 < a { (a2, a as int) } else { (a as int, a2) };
                        assert(i.movements@[lo].id != i.movements@[hi].id);
                    }
                    if b2 != b as int {
                        let (lo, hi) = if b2 < b { (b2, b as int) } else { (b as int, b2) };
                        assert(i.movements@[lo].id != i.movements@[hi].id);
                    }
                }
                if r {
                    assert(conflict(i.movements@[a as int], i.movements@[b as int]));
                }
            }
            r
        },
        _ => false,
    }
}

/// Whether every identifier of `v` names a movement of `i`.
fn all_known_ids(i: &Intersection, v: &Vec<MovementID>) -> (r: bool)
    ensures
        r == all_known(*i, v@),
{
    let mut k: usize = 0;
    while k < v.len()
        invariant
            forall|j: int| 0 <= j < k ==> i.has_movement(#[trigger] v@[j]),
        decreases v.len() - k,
    {
        if i.movement_index(&v[k]).is_none() {
            return false;
        }
        k += 1;
    }
    true
}

/// Whether no two identifiers of `v` name conflicting movements.
fn is_conflict_free(i: &Intersection, v: &Vec<MovementID>) -> (r: bool)
    requires
        i.wf(),
    ensures
        r == conflict_free(*i, v@),
{
    let mut p: usize = 0;
    while p < v.len()
        invariant
            i.wf(),
            forall|a: int, b: int|
                0 <= a < p && 0 <= b < v@.len() ==> !ids_conflict(*i, #[trigger] v@[a], #[trigger] v@[b]),
        decreases v.len() - p,
    {
        let mut q: usize = 0;
        while q < v.len()
            invariant
                i.wf(),
                p < v@.len(),
                forall|a: int, b: int|
                    0 <= a < p && 0 <= b < v@.len() ==> !ids_conflict(*i, #[trigger] v@[a], #[trigger] v@[b]),
                forall|b: int| 0 <= b < q ==> !ids_conflict(*i, v@[p as int], #[trigger] v@[b]),
            decreases v.len() - q,
        {
            if movements_conflict(i, &v[p], &v[q]) {
                return false;
            }
            q += 1;
        }
        p += 1;
    }
    true
}

/// Whether `s` is a valid stage at `i`.
pub fn stage_is_valid(i: &Intersection, s: &Stage) -> (r: bool)
    requires
        i.wf(),
    ensures
        r == stage_valid(*i, *s),
{
    s.protected_movements.len() > 0 && all_known_ids(i, &s.protected_movements) && all_known_ids(
        i,
        &s.yield_movements,
    ) && is_conflict_free(i, &s.protected_movements)
}

/// Whether some stage protects `m`.
fn protected_somewhere(stages: &Vec<Stage>, m: &MovementID) -> (r: bool)
    ensures
        r == protected_in(stages@, *m),
{
    let mut k: usize = 0;
    while k < stages.len()
        invariant
            forall|j: int| 0 <= j < k ==> !(#[trigger] stages@[j]).protected_movements@.contains(*m),
        decreases stages.len() - k,
    {
        if contains_id(&stages[k].protected_movements, m) {
            return true;
        }
        k += 1;
    }
    false
}

/// Whether every movement of `i` is protected by some stage.
fn covers_all(i: &Intersection, stages: &Vec<Stage>) -> (r: bool)
    ensures
        r == covers(*i, stages@),
{
    let mut a: usize = 0;
    while a < i.movements.len()
        invariant
            a <= i.movements@.len(),
            forall|x: int| 0 <= x < a ==> protected_in(stages@, (#[trigger] i.movements@[x]).id),
        decreases i.movements.len() - a,
    {
        if !protected_somewhere(stages, &i.movements[a].id) {
            return false;
        }
        a += 1;
    }
    true
}

/// Whether a list of stages is a valid plan for `i`.
pub fn stages_valid(i: &Intersection, stages: &Vec<Stage>) -> (r: bool)
    requires
        i.wf(),
    ensures
        r == plan_valid(*i, stages@),
{
    let mut k: usize = 0;
    while k < stages.len()
        invariant
            i.wf(),
            forall|j: int| 0 <= j < k ==> stage_valid(*i, #[trigger] stages@[j]),
        decreases stages.len() - k,
    {
        if !stage_is_valid(i, &stages[k]) {
            return false;
        }
        k += 1;
    }
    covers_all(i, stages)
}

impl ControlTrafficSignal {
    /// An empty plan for `id`.
    pub fn new(id: IntersectionID) -> (r: ControlTrafficSignal)
        ensures
            r.id == id,
            r.stages@.len() == 0,
    {
        ControlTrafficSignal { id, stages: Vec::new() }
    }

    /// Whether this plan is valid at `i`: every stage protects something and
    /// no conflicting pair, and every movement is protected somewhere.
    pub fn validate(&self, i: &Intersection) -> (r: bool)
        requires
            i.wf(),
        ensures
            r == plan_valid(*i, self.stages@),
    {
        stages_valid(i, &self.stages)
    }
}

} // verus!
