use crate::union_find::{clones_faithfully, UnionFind};
use vstd::prelude::*;

verus! {

/// Why an edit of a project is refused. The variants that carry an error of
/// the time computation stay with the editor outside this library.
#[derive(Debug, Clone, Copy, PartialEq, Eq, Structural)]
pub enum ProjectEditError {
    InvalidTarget,
    ComponentInstanceNotFound,
    InvalidMarkerPin,
    CannotUnlockForAvoidFloating,
    MarkerPinNotFound,
    InvalidMarkerPinAddPosition,
    ParameterTypeMismatch,
    MarkerPinsAreSame,
    PinsAlreadyConnected,
    MarkerPinShouldLocked,
    CannotSplitForAvoidFloating,
    MarkerLinkNotFound,
}

/// A marker pin of a component: its identifier, and whether its time in the
/// component is locked. The pins of a component are listed left pin first,
/// then its markers, then its right pin.
#[derive(Debug, Clone, Copy, PartialEq, Eq, Structural)]
pub struct PinModel {
    pub id: u64,
    pub locked: bool,
}

/// `t` is the first place of `pins` in `lo..hi` that holds `id`.
pub open spec fn first_with_id(pins: Seq<PinModel>, lo: int, hi: int, id: u64, t: int) -> bool {
    &&& lo <= t < hi
    &&& pins[t].id == id
    &&& forall|j: int| lo <= j < t ==> #[trigger] pins[j].id != id
}

/// Some place of `pins` in `lo..hi` holds `id`.
pub open spec fn has_id(pins: Seq<PinModel>, lo: int, hi: int, id: u64) -> bool {
    exists|j: int| lo <= j < hi && #[trigger] pins[j].id == id
}

/// Finds the first place of `pins` in `lo..hi` that holds `id`.
fn find_pin(pins: &[PinModel], lo: usize, hi: usize, id: u64) -> (r: Option<usize>)
    requires
        lo <= hi <= pins@.len(),
    ensures
        r matches Some(t) ==> first_with_id(pins@, lo as int, hi as int, id, t as int),
        r is None ==> !has_id(pins@, lo as int, hi as int, id),
{
    let mut i = lo;
    while i < hi
        invariant
            lo <= i <= hi <= pins@.len(),
            forall|j: int| lo <= j < i ==> #[trigger] pins@[j].id != id,
        decreases hi - i,
    {
        if pins[i].id == id {
            return Some(i);
        }
        i = i + 1;
    }
    None
}

/// `id` is an end of `link`.
pub open spec fn has_end(link: (u64, u64), id: u64) -> bool {
    link.0 == id || link.1 == id
}

/// Some link has an end among the pins at places `k..` of `pins`.
pub open spec fn links_reach(links: Seq<(u64, u64)>, pins: Seq<PinModel>, k: int) -> bool {
    exists|l: int, j: int| 0 <= l < links.len() && k <= j < pins.len() && #[trigger] has_end(links[l], pins[j].id)
}

/// Whether one of the links has `id` as an end.
fn linked(links: &[(u64, u64)], id: u64) -> (r: bool)
    ensures
        r == exists|l: int| 0 <= l < links@.len() && #[trigger] has_end(links@[l], id),
{
    let mut l: usize = 0;
    while l < links.len()
        invariant
            l <= links@.len(),
            forall|m: int| 0 <= m < l ==> !#[trigger] has_end(links@[m], id),
        decreases links@.len() - l,
    {
        let link = links[l];
        if link.0 == id || link.1 == id {
            assert(has_end(links@[l as int], id));
            return true;
        }
        l = l + 1;
    }
    false
}

/// The checks before a component is split at the marker `pin`: the pin must
/// be one of the markers (not the left or right pin), it must be locked, and
/// some link must hold the part from it to the right pin in place, or that
/// part would float. On success, the place of the pin in `pins`.
pub fn check_split(pins: &[PinModel], pin: u64, links: &[(u64, u64)]) -> (r: Result<usize, ProjectEditError>)
    requires
        pins@.len() >= 2,
    ensures
        !has_id(pins@, 1, pins@.len() - 1, pin) <==> (r matches Err(e) && e
            == ProjectEditError::MarkerPinNotFound),
        forall|k: int|
            #[trigger] first_with_id(pins@, 1, pins@.len() - 1, pin, k) ==> {
                &&& !pins@[k].locked ==> (r matches Err(e) && e == ProjectEditError::MarkerPinShouldLocked)
                &&& pins@[k].locked && !links_reach(links@, pins@, k) ==> (r matches Err(e) && e
                    == ProjectEditError::CannotSplitForAvoidFloating)
                &&& pins@[k].locked && links_reach(links@, pins@, k) ==> (r matches Ok(i) && i == k)
            },
{
    let k = match find_pin(pins, 1, pins.len() - 1, pin) {
        Some(k) => k,
        None => return Err(ProjectEditError::MarkerPinNotFound),
    };
    proof {
        assert(has_id(pins@, 1, pins@.len() - 1, pin));
        assert forall|k2: int| #[trigger] first_with_id(pins@, 1, pins@.len() - 1, pin, k2) implies k2 == k by {
            if k2 < k {
            } else if k < k2 {
                assert(pins@[k as int].id == pin);
            }
        }
    }
    if !pins[k].locked {
        return Err(ProjectEditError::MarkerPinShouldLocked);
    }
    let mut j = k;
    while j < pins.len()
        invariant
            k <= j <= pins@.len(),
            1 <= k < pins@.len() - 1,
            has_id(pins@, 1, pins@.len() - 1, pin),
            pins@[k as int].locked,
            forall|k2: int| #[trigger] first_with_id(pins@, 1, pins@.len() - 1, pin, k2) ==> k2 == k,
            forall|m: int, l: int|
                k <= m < j && 0 <= l < links@.len() ==> !#[trigger] has_end(links@[l], pins@[m].id),
        decreases pins@.len() - j,
    {
        if linked(links, pins[j].id) {
            proof {
                let l = choose|l: int| 0 <= l < links@.len() && #[trigger] has_end(links@[l], pins@[j as int].id);
                assert(has_end(links@[l], pins@[j as int].id));
                assert(links_reach(links@, pins@, k as int));
            }
            return Ok(k);
        }
        j = j + 1;
    }
    Err(ProjectEditError::CannotSplitForAvoidFloating)
}

/// `j` is the last locked place of `pins` below `hi`.
pub open spec fn last_locked_below(pins: Seq<PinModel>, hi: int, j: int) -> bool {
    &&& 0 <= j < hi
    &&& pins[j].locked
    &&& forall|k: int| j < k < hi ==> !#[trigger] pins[k].locked
}

/// Some place of `pins` below `hi` is locked.
pub open spec fn has_locked_below(pins: Seq<PinModel>, hi: int) -> bool {
    exists|j: int| 0 <= j < hi && #[trigger] pins[j].locked
}

/// `j` is the first locked place of `pins` above `lo`.
pub open spec fn first_locked_above(pins: Seq<PinModel>, lo: int, j: int) -> bool {
    &&& lo < j < pins.len()
    &&& pins[j].locked
    &&& forall|k: int| lo < k < j ==> !#[trigger] pins[k].locked
}

/// Some place of `pins` above `lo` is locked.
pub open spec fn has_locked_above(pins: Seq<PinModel>, lo: int) -> bool {
    exists|j: int| lo < j < pins.len() && #[trigger] pins[j].locked
}

/// How the time at which a pin gets locked is found, by places in the
/// component's list of pins.
#[derive(Debug, Clone, Copy, PartialEq, Eq, Structural)]
pub enum LockPlan {
    /// The pin at `target` is locked already; nothing changes.
    AlreadyLocked { target: usize },
    /// The time of `target` is interpolated between the locked pins at
    /// `left` and `right`.
    Between { target: usize, left: usize, right: usize },
    /// The time of `target` is the locked time of `base` shifted by the
    /// distance between the two pins.
    From { target: usize, base: usize },
}

/// The plan for locking the pin at place `t`: the locked pins that surround
/// it if there are some on both sides; else the two nearest locked pins on
/// the side that has two; else the one locked pin there is.
pub open spec fn lock_plan(pins: Seq<PinModel>, t: int, p: LockPlan) -> bool {
    if pins[t].locked {
        p == LockPlan::AlreadyLocked { target: t as usize }
    } else if has_locked_below(pins, t) && has_locked_above(pins, t) {
        p matches LockPlan::Between { target, left, right } && target == t && last_locked_below(pins, t, left as int)
            && first_locked_above(pins, t, right as int)
    } else if has_locked_below(pins, t) {
        ||| (p matches LockPlan::Between { target, left, right } && target == t && last_locked_below(
            pins,
            t,
            right as int,
        ) && last_locked_below(pins, right as int, left as int))
        ||| (p matches LockPlan::From { target, base } && target == t && last_locked_below(pins, t, base as int)
            && !has_locked_below(pins, base as int))
    } else {
        ||| (p matches LockPlan::Between { target, left, right } && target == t && first_locked_above(
            pins,
            t,
            left as int,
        ) && first_locked_above(pins, left as int, right as int))
        ||| (p matches LockPlan::From { target, base } && target == t && first_locked_above(pins, t, base as int)
            && !has_locked_above(pins, base as int))
    }
}

/// Decides how the pin `pin` of a component gets locked. A component in
/// which the pin to lock is the only locked one cannot occur.
pub fn plan_lock_pin(pins: &[PinModel], pin: u64) -> (r: Result<LockPlan, ProjectEditError>)
    requires
        forall|t: int|
            #[trigger] first_with_id(pins@, 0, pins@.len() as int, pin, t) && !pins@[t].locked ==> has_locked_below(
                pins@,
                t,
            ) || has_locked_above(pins@, t),
    ensures
        !has_id(pins@, 0, pins@.len() as int, pin) <==> (r matches Err(e) && e == ProjectEditError::MarkerPinNotFound),
        forall|t: int|
            #[trigger] first_with_id(pins@, 0, pins@.len() as int, pin, t) ==> (r matches Ok(p) && lock_plan(
                pins@,
                t,
                p,
            )),
{
    let t = match find_pin(pins, 0, pins.len(), pin) {
        Some(t) => t,
        None => return Err(ProjectEditError::MarkerPinNotFound),
    };
    proof {
        assert(has_id(pins@, 0, pins@.len() as int, pin));
        assert forall|t2: int| #[trigger] first_with_id(pins@, 0, pins@.len() as int, pin, t2) implies t2 == t by {
            if t2 < t {
            } else if t < t2 {
                assert(pins@[t as int].id == pin);
            }
        }
    }
    if pins[t].locked {
        return Ok(LockPlan::AlreadyLocked { target: t });
    }
    let mut below_last: Option<usize> = None;
    let mut below_prev: Option<usize> = None;
    let mut i: usize = 0;
    while i < t
        invariant
            i <= t < pins@.len(),
            below_last matches Some(j) ==> last_locked_below(pins@, i as int, j as int),
            below_last is None ==> !has_locked_below(pins@, i as int),
            below_prev matches Some(j2) ==> (below_last matches Some(j1) && last_locked_below(pins@, j1 as int, j2 as int)),
            below_prev is None ==> (below_last matches Some(j1) ==> !has_locked_below(pins@, j1 as int)),
        decreases t - i,
    {
        if pins[i].locked {
            below_prev = below_last;
            below_last = Some(i);
        }
        i = i + 1;
    }
    let mut above_first: Option<usize> = None;
    let mut above_next: Option<usize> = None;
    let mut i: usize = t + 1;
    while i < pins.len()
        invariant
            t < i <= pins@.len(),
            above_first matches Some(j) ==> first_locked_above(pins@, t as int, j as int) && j < i,
            above_first is None ==> forall|k: int| t < k < i ==> !#[trigger] pins@[k].locked,
            above_next matches Some(j2) ==> (above_first matches Some(j1) && first_locked_above(pins@, j1 as int, j2 as int)),
            above_next is None ==> (above_first matches Some(j1) ==> forall|k: int| j1 < k < i ==> !#[trigger] pins@[k].locked),
        decreases pins@.len() - i,
    {
        if pins[i].locked {
            if above_first.is_none() {
                above_first = Some(i);
            } else if above_next.is_none() {
                proof {
                    let j1 = above_first->0;
                    assert(first_locked_above(pins@, j1 as int, i as int));
                }
                above_next = Some(i);
            }
        }
        i = i + 1;
    }
    proof {
        if above_first is None {
            assert(!has_locked_above(pins@, t as int));
        }
        if let Some(j1) = above_first {
            assert(has_locked_above(pins@, t as int));
            if above_next is None {
                assert(!has_locked_above(pins@, j1 as int));
            }
        }
        if let Some(j1) = below_last {
            assert(has_locked_below(pins@, t as int));
        }
    }
    match (below_prev, below_last, above_first, above_next) {
        (_, Some(left), Some(right), _) => Ok(LockPlan::Between { target: t, left, right }),
        (Some(left), Some(right), _, _) => Ok(LockPlan::Between { target: t, left, right }),
        (_, _, Some(left), Some(right)) => Ok(LockPlan::Between { target: t, left, right }),
        (_, Some(base), _, _) => Ok(LockPlan::From { target: t, base }),
        (_, _, Some(base), _) => Ok(LockPlan::From { target: t, base }),
        _ => {
            assert(first_with_id(pins@, 0, pins@.len() as int, pin, t as int));
            Err(ProjectEditError::MarkerPinNotFound)
        },
    }
}

/// The classes after the class of `x` joins the class of `y`, which keeps
/// its representative; `f` gives each pin the representative of its class.
pub open spec fn merged(f: spec_fn(u64) -> u64, x: u64, y: u64) -> spec_fn(u64) -> u64 {
    |z: u64| if f(z) == f(x) { f(y) } else { f(z) }
}

/// The classes after the two ends of each link are joined, in order.
pub open spec fn join_links(f: spec_fn(u64) -> u64, links: Seq<(u64, u64)>) -> spec_fn(u64) -> u64
    decreases links.len(),
{
    if links.len() == 0 {
        f
    } else {
        join_links(merged(f, links[0].0, links[0].1), links.skip(1))
    }
}

/// The classes after every locked pin of a component, but `pin`, joins the
/// first such pin, `base` once it is known.
pub open spec fn join_locked(f: spec_fn(u64) -> u64, pins: Seq<PinModel>, pin: Option<u64>, base: Option<u64>) -> spec_fn(
    u64,
) -> u64
    decreases pins.len(),
{
    if pins.len() == 0 {
        f
    } else if !pins[0].locked || pin == Some(pins[0].id) {
        join_locked(f, pins.skip(1), pin, base)
    } else {
        match base {
            None => join_locked(f, pins.skip(1), pin, Some(pins[0].id)),
            Some(b) => join_locked(merged(f, b, pins[0].id), pins.skip(1), pin, base),
        }
    }
}

/// The classes after the locked pins of each component are joined.
pub open spec fn join_components(f: spec_fn(u64) -> u64, comps: Seq<Seq<PinModel>>, pin: Option<u64>) -> spec_fn(u64) -> u64
    decreases comps.len(),
{
    if comps.len() == 0 {
        f
    } else {
        join_components(join_locked(f, comps[0], pin, None), comps.skip(1), pin)
    }
}

/// The pins that stay in place together if `pin` gets unlocked: those joined
/// by a link, and those locked in one component (but `pin`). Two pins are
/// held together when they have the same representative.
pub open spec fn held_together(links: Seq<(u64, u64)>, comps: Seq<Seq<PinModel>>, pin: u64) -> spec_fn(u64) -> u64 {
    join_components(join_links(separate(), links), comps, Some(pin))
}

/// Every pin in a class of its own.
pub open spec fn separate() -> spec_fn(u64) -> u64 {
    |z: u64| z
}

/// The pins of each component.
pub open spec fn component_pins(components: Seq<Vec<PinModel>>) -> Seq<Seq<PinModel>> {
    components.map_values(|c: Vec<PinModel>| c@)
}

/// Pin identifiers clone faithfully.
proof fn lemma_ids_clone_faithfully()
    ensures
        clones_faithfully::<u64>(),
{
    assert forall|a: u64, b: u64| #[trigger] vstd::pervasive::strictly_cloned::<u64>(a, b) implies a == b by {}
}

/// The representative that `uf` gives each pin.
pub open spec fn roots(uf: UnionFind<u64>) -> spec_fn(u64) -> u64 {
    |z: u64| uf.root(z)
}

/// What unlocking a pin takes.
#[derive(Debug, Clone, Copy, PartialEq, Eq, Structural)]
pub enum UnlockPlan {
    /// The pin is not locked; nothing changes.
    AlreadyUnlocked,
    /// The pin stays held to the root's left pin without its lock; it is
    /// only unlocked.
    Unlock,
    /// The pin would float: it is unlocked and linked to the locked pin
    /// `next` of its component.
    UnlockAndLink { next: u64 },
}

/// What unlocking the pin at place `t` of `pins` gives, where `held` tells
/// whether the pin, without its lock, is held together with the root's left
/// pin.
pub open spec fn unlock_outcome(pins: Seq<PinModel>, t: int, held: bool, r: Result<UnlockPlan, ProjectEditError>) -> bool {
    if !pins[t].locked {
        r matches Ok(p) && p == UnlockPlan::AlreadyUnlocked
    } else if held {
        r matches Ok(p) && p == UnlockPlan::Unlock
    } else if has_locked_below(pins, t) {
        r matches Ok(UnlockPlan::UnlockAndLink { next }) && exists|j: int| #[trigger] last_locked_below(pins, t, j) && next == pins[j].id
    } else if has_locked_above(pins, t) {
        r matches Ok(UnlockPlan::UnlockAndLink { next }) && exists|j: int| #[trigger] first_locked_above(pins, t, j) && next == pins[j].id
    } else {
        r matches Err(e) && e == ProjectEditError::CannotUnlockForAvoidFloating
    }
}

/// Decides how the pin `pin` of component `target` gets unlocked. When the
/// pin, without its lock, is still held together with the root's left pin
/// `left`, it is only unlocked; else it is linked to the nearest locked pin
/// before it in its component, or else after it; if there is none, the pin
/// would float and the edit is refused.
#[verifier::loop_isolation(false)]
pub fn plan_unlock_pin(components: &[Vec<PinModel>], links: &[(u64, u64)], left: u64, target: usize, pin: u64) -> (r:
    Result<UnlockPlan, ProjectEditError>)
    ensures
        target >= components@.len() ==> (r matches Err(e) && e == ProjectEditError::ComponentInstanceNotFound),
        target < components@.len() ==> {
            let pins = components@[target as int]@;
            let f = held_together(links@, component_pins(components@), pin);
            &&& !has_id(pins, 0, pins.len() as int, pin) <==> (r matches Err(e) && e
                == ProjectEditError::MarkerPinNotFound)
            &&& forall|t: int|
                #[trigger] first_with_id(pins, 0, pins.len() as int, pin, t) ==> unlock_outcome(pins, t, f(pin) == f(left), r)
        },
{
    broadcast use vstd::std_specs::hash::group_hash_axioms, vstd::laws_eq::group_laws_eq;

    if target >= components.len() {
        return Err(ProjectEditError::ComponentInstanceNotFound);
    }
    let pins: &Vec<PinModel> = &components[target];
    let t = match find_pin(pins.as_slice(), 0, pins.len(), pin) {
        Some(t) => t,
        None => return Err(ProjectEditError::MarkerPinNotFound),
    };
    proof {
        assert(has_id(pins@, 0, pins@.len() as int, pin));
        assert forall|t2: int| #[trigger] first_with_id(pins@, 0, pins@.len() as int, pin, t2) implies t2 == t by {
            if t2 < t {
            } else if t < t2 {
                assert(pins@[t as int].id == pin);
            }
        }
    }
    if !pins[t].locked {
        return Ok(UnlockPlan::AlreadyUnlocked);
    }
    let ghost goal = held_together(links@, component_pins(components@), pin);
    proof {
        lemma_ids_clone_faithfully();
    }
    let mut uf: UnionFind<u64> = UnionFind::new();
    assert(roots(uf) =~= separate());
    assert(links@.skip(0) =~= links@);
    let mut i: usize = 0;
    while i < links.len()
        invariant
            i <= links@.len(),
            uf.wf(),
            join_links(roots(uf), links@.skip(i as int)) == join_links(separate(), links@),
        decreases links@.len() - i,
    {
        let ghost before = roots(uf);
        let link = links[i];
        uf.union(link.0, link.1);
        proof {
            assert(roots(uf) =~= merged(before, link.0, link.1));
            assert(links@.skip(i as int).skip(1) =~= links@.skip(i + 1));
        }
        i = i + 1;
    }
    assert(links@.skip(links@.len() as int) =~= Seq::<(u64, u64)>::empty());
    let ghost comps = component_pins(components@);
    assert(comps.skip(0) =~= comps);
    let mut c: usize = 0;
    while c < components.len()
        invariant
            c <= components@.len(),
            comps == component_pins(components@),
            uf.wf(),
            join_components(roots(uf), comps.skip(c as int), Some(pin)) == goal,
            goal == held_together(links@, comps, pin),
        decreases components@.len() - c,
    {
        let comp: &Vec<PinModel> = &components[c];
        let ghost start = roots(uf);
        let mut base: Option<u64> = None;
        let mut k: usize = 0;
        assert(comp@.skip(0) =~= comp@);
        while k < comp.len()
            invariant
                k <= comp@.len(),
                uf.wf(),
                join_locked(roots(uf), comp@.skip(k as int), Some(pin), base) == join_locked(start, comp@, Some(pin), None),
            decreases comp@.len() - k,
        {
            let p = comp[k];
            let ghost before = roots(uf);
            proof {
                assert(comp@.skip(k as int).skip(1) =~= comp@.skip(k + 1));
                assert(comp@.skip(k as int)[0] == p);
            }
            if p.locked && p.id != pin {
                match base {
                    None => {
                        base = Some(p.id);
                    },
                    Some(b) => {
                        uf.union(b, p.id);
                        assert(roots(uf) =~= merged(before, b, p.id));
                    },
                }
            }
            k = k + 1;
        }
        proof {
            assert(comp@.skip(comp@.len() as int) =~= Seq::<PinModel>::empty());
            assert(comps[c as int] == comp@);
            assert(comps.skip(c as int).skip(1) =~= comps.skip(c + 1));
            assert(comps.skip(c as int)[0] == comp@);
        }
        c = c + 1;
    }
    assert(comps.skip(comps.len() as int) =~= Seq::<Seq<PinModel>>::empty());
    assert(roots(uf) == goal);
    let root_pin = uf.get_root(pin);
    let root_left = uf.get_root(left);
    if root_pin == root_left {
        return Ok(UnlockPlan::Unlock);
    }
    let mut i: usize = t;
    while i > 0
        invariant
            i <= t < pins@.len(),
            forall|k: int| i <= k < t ==> !#[trigger] pins@[k].locked,
        decreases i,
    {
        i = i - 1;
        if pins[i].locked {
            assert(last_locked_below(pins@, t as int, i as int));
            return Ok(UnlockPlan::UnlockAndLink { next: pins[i].id });
        }
    }
    assert(!has_locked_below(pins@, t as int));
    let mut i: usize = t + 1;
    while i < pins.len()
        invariant
            t < i <= pins@.len(),
            forall|k: int| t < k < i ==> !#[trigger] pins@[k].locked,
        decreases pins@.len() - i,
    {
        if pins[i].locked {
            assert(first_locked_above(pins@, t as int, i as int));
            return Ok(UnlockPlan::UnlockAndLink { next: pins[i].id });
        }
        i = i + 1;
    }
    assert(!has_locked_above(pins@, t as int));
    Err(ProjectEditError::CannotUnlockForAvoidFloating)
}

/// The classes after the two ends of each link that touches none of the
/// pins `d` are joined, in order.
pub open spec fn join_links_avoiding(f: spec_fn(u64) -> u64, links: Seq<(u64, u64)>, d: Seq<u64>) -> spec_fn(u64) -> u64
    decreases links.len(),
{
    if links.len() == 0 {
        f
    } else if d.contains(links[0].0) || d.contains(links[0].1) {
        join_links_avoiding(f, links.skip(1), d)
    } else {
        join_links_avoiding(merged(f, links[0].0, links[0].1), links.skip(1), d)
    }
}

/// Joins, in `uf`, the locked pins of each component, but `except`.
fn join_component_locks(uf: &mut UnionFind<u64>, components: &[Vec<PinModel>], except: Option<u64>)
    requires
        old(uf).wf(),
    ensures
        final(uf).wf(),
        roots(*final(uf)) == join_components(roots(*old(uf)), component_pins(components@), except),
{
    broadcast use vstd::std_specs::hash::group_hash_axioms, vstd::laws_eq::group_laws_eq;

    let ghost comps = component_pins(components@);
    let ghost goal = join_components(roots(*uf), comps, except);
    assert(comps.skip(0) =~= comps);
    let mut c: usize = 0;
    while c < components.len()
        invariant
            c <= components@.len(),
            comps == component_pins(components@),
            uf.wf(),
            join_components(roots(*uf), comps.skip(c as int), except) == goal,
        decreases components@.len() - c,
    {
        let comp: &Vec<PinModel> = &components[c];
        let ghost start = roots(*uf);
        let mut base: Option<u64> = None;
        let mut k: usize = 0;
        assert(comp@.skip(0) =~= comp@);
        while k < comp.len()
            invariant
                k <= comp@.len(),
                uf.wf(),
                join_locked(roots(*uf), comp@.skip(k as int), except, base) == join_locked(start, comp@, except, None),
            decreases comp@.len() - k,
        {
            let p = comp[k];
            let ghost before = roots(*uf);
            proof {
                assert(comp@.skip(k as int).skip(1) =~= comp@.skip(k + 1));
                assert(comp@.skip(k as int)[0] == p);
            }
            let excepted = match except {
                Some(e) => e == p.id,
                None => false,
            };
            if p.locked && !excepted {
                match base {
                    None => {
                        base = Some(p.id);
                    },
                    Some(b) => {
                        uf.union(b, p.id);
                        assert(roots(*uf) =~= merged(before, b, p.id));
                    },
                }
            }
            k = k + 1;
        }
        proof {
            assert(comp@.skip(comp@.len() as int) =~= Seq::<PinModel>::empty());
            assert(comps[c as int] == comp@);
            assert(comps.skip(c as int).skip(1) =~= comps.skip(c + 1));
            assert(comps.skip(c as int)[0] == comp@);
        }
        c = c + 1;
    }
    assert(comps.skip(comps.len() as int) =~= Seq::<Seq<PinModel>>::empty());
}

/// Whether `id` is one of `ids`.
fn contains_id(ids: &[u64], id: u64) -> (r: bool)
    ensures
        r == ids@.contains(id),
{
    let mut i: usize = 0;
    while i < ids.len()
        invariant
            i <= ids@.len(),
            forall|j: int| 0 <= j < i ==> ids@[j] != id,
        decreases ids@.len() - i,
    {
        if ids[i] == id {
            assert(ids@[i as int] == id);
            return true;
        }
        i = i + 1;
    }
    false
}

/// A pushed sequence holds what it held and the pushed value.
proof fn lemma_push_contains(s: Seq<u64>, a: u64)
    ensures
        forall|x: u64| #[trigger] s.push(a).contains(x) <==> (s.contains(x) || x == a),
{
    assert forall|x: u64| #[trigger] s.push(a).contains(x) <==> (s.contains(x) || x == a) by {
        if s.contains(x) {
            let i = choose|i: int| 0 <= i < s.len() && s[i] == x;
            assert(s.push(a)[i] == x);
        }
        if x == a {
            assert(s.push(a)[s.len() as int] == a);
        }
        if s.push(a).contains(x) {
            let i = choose|i: int| 0 <= i < s.push(a).len() && s.push(a)[i] == x;
            if i < s.len() {
                assert(s[i] == x);
            }
        }
    }
}

/// `p` is at the other end of a link from one of the pins `d`.
pub open spec fn adjacent(links: Seq<(u64, u64)>, d: Seq<u64>, p: u64) -> bool {
    exists|l: int|
        0 <= l < links.len() && ((d.contains(#[trigger] links[l].0) && links[l].1 == p) || (d.contains(links[l].1)
            && links[l].0 == p))
}

/// The time of pin `id` in `times`, a list of pins with their times.
pub open spec fn time_of(times: Seq<(u64, i64)>, id: u64) -> i64 {
    times[choose|i: int| 0 <= i < times.len() && times[i].0 == id].1
}

/// Every pin has one time in `times`.
pub open spec fn times_are_a_map(times: Seq<(u64, i64)>) -> bool {
    forall|i: int, j: int| 0 <= i < j < times.len() ==> #[trigger] times[i].0 != #[trigger] times[j].0
}

/// The pins that the links reach from the deleted pins `d`, with the classes
/// `f`: when some are held together with the root's left pin `left`, the one
/// of those with the earliest time is `base`, and `to` are the others, each
/// once.
pub open spec fn relink(
    links: Seq<(u64, u64)>,
    d: Seq<u64>,
    f: spec_fn(u64) -> u64,
    left: u64,
    times: Seq<(u64, i64)>,
    base: u64,
    to: Seq<u64>,
) -> bool {
    &&& adjacent(links, d, base)
    &&& f(base) == f(left)
    &&& forall|p: u64| adjacent(links, d, p) && f(p) == f(left) ==> time_of(times, base) <= time_of(times, p)
    &&& forall|p: u64| to.contains(p) <==> (adjacent(links, d, p) && f(p) != f(left))
    &&& to.no_duplicates()
}

/// The time of pin `id`.
fn find_time(times: &[(u64, i64)], id: u64) -> (r: i64)
    requires
        times_are_a_map(times@),
        exists|i: int| 0 <= i < times@.len() && times@[i].0 == id,
    ensures
        r == time_of(times@, id),
{
    let mut i: usize = 0;
    while i < times.len()
        invariant
            i <= times@.len(),
            times_are_a_map(times@),
            exists|i: int| 0 <= i < times@.len() && times@[i].0 == id,
            forall|j: int| 0 <= j < i ==> times@[j].0 != id,
        decreases times@.len() - i,
    {
        if times[i].0 == id {
            proof {
                let c = choose|k: int| 0 <= k < times@.len() && times@[k].0 == id;
                if c != i {
                    if c < i {
                    } else {
                        assert(times@[i as int].0 != times@[c].0);
                    }
                }
            }
            return times[i].1;
        }
        i = i + 1;
    }
    proof {
        let c = choose|k: int| 0 <= k < times@.len() && times@[k].0 == id;
        assert(times@[c].0 != id);
    }
    0
}

/// Records that `p` is reached from the deleted pins: once, into `seen`;
/// into `to` when it is not held with the left pin (whose representative is
/// `left_root`); as `base` when it is held with it and is earlier than the
/// base so far.
fn note_reached(
    seen: &mut Vec<u64>,
    to: &mut Vec<u64>,
    base: &mut Option<(u64, i64)>,
    uf: &mut UnionFind<u64>,
    p: u64,
    left_root: u64,
    times: &[(u64, i64)],
    Ghost(f): Ghost<spec_fn(u64) -> u64>,
    Ghost(left): Ghost<u64>,
)
    requires
        old(uf).wf(),
        roots(*old(uf)) == f,
        left_root == f(left),
        times_are_a_map(times@),
        exists|k: int| 0 <= k < times@.len() && times@[k].0 == p,
        old(seen)@.no_duplicates(),
        old(to)@.no_duplicates(),
        forall|x: u64| old(to)@.contains(x) <==> (old(seen)@.contains(x) && f(x) != f(left)),
        *old(base) matches Some((b, tb)) ==> old(seen)@.contains(b) && f(b) == f(left) && tb == time_of(times@, b)
            && forall|x: u64| old(seen)@.contains(x) && f(x) == f(left) ==> tb <= time_of(times@, x),
        *old(base) is None ==> forall|x: u64| old(seen)@.contains(x) ==> f(x) != f(left),
    ensures
        final(uf).wf(),
        roots(*final(uf)) == f,
        final(seen)@.no_duplicates(),
        final(to)@.no_duplicates(),
        forall|x: u64| final(seen)@.contains(x) <==> (old(seen)@.contains(x) || x == p),
        forall|x: u64| final(to)@.contains(x) <==> (final(seen)@.contains(x) && f(x) != f(left)),
        *final(base) matches Some((b, tb)) ==> final(seen)@.contains(b) && f(b) == f(left) && tb == time_of(times@, b)
            && forall|x: u64| final(seen)@.contains(x) && f(x) == f(left) ==> tb <= time_of(times@, x),
        *final(base) is None ==> forall|x: u64| final(seen)@.contains(x) ==> f(x) != f(left),
{
    if contains_id(seen.as_slice(), p) {
        return;
    }
    proof {
        lemma_push_contains(seen@, p);
        lemma_push_contains(to@, p);
    }
    seen.push(p);
    let rp = uf.get_root(p);
    if rp == left_root {
        let tp = find_time(times, p);
        match *base {
            Some((_, tb)) => {
                if tp < tb {
                    *base = Some((p, tp));
                }
            },
            None => {
                *base = Some((p, tp));
            },
        }
    } else {
        to.push(p);
    }
}

/// What deleting component `deleted` does to the links: the links that do
/// not touch its pins, and the locks of every component, hold pins together.
/// Of the pins that its links reach, those held together with the root's
/// left pin `left` keep their place; the earliest of them becomes the base
/// that every other reached pin gets linked from, so that none floats.
/// `None` when no reached pin is held with the left pin.
pub fn relink_on_delete(
    components: &[Vec<PinModel>],
    links: &[(u64, u64)],
    left: u64,
    deleted: usize,
    times: &[(u64, i64)],
) -> (r: Result<Option<(u64, Vec<u64>)>, ProjectEditError>)
    requires
        times_are_a_map(times@),
        forall|l: int|
            0 <= l < links@.len() ==> (exists|i: int| 0 <= i < times@.len() && times@[i].0 == (#[trigger] links@[l]).0)
                && (exists|i: int| 0 <= i < times@.len() && times@[i].0 == links@[l].1),
    ensures
        deleted >= components@.len() ==> (r matches Err(e) && e == ProjectEditError::ComponentInstanceNotFound),
        deleted < components@.len() ==> {
            let d = components@[deleted as int]@.map_values(|p: PinModel| p.id);
            let f = join_components(
                join_links_avoiding(separate(), links@, d),
                component_pins(components@),
                None,
            );
            &&& r is Ok
            &&& (r matches Ok(None)) <==> !exists|p: u64| adjacent(links@, d, p) && #[trigger] f(p) == f(left)
            &&& (r matches Ok(Some(plan)) ==> relink(links@, d, f, left, times@, plan.0, plan.1@))
        },
{
    broadcast use vstd::std_specs::hash::group_hash_axioms, vstd::laws_eq::group_laws_eq, vstd::seq_lib::group_seq_properties;

    if deleted >= components.len() {
        return Err(ProjectEditError::ComponentInstanceNotFound);
    }
    let comp: &Vec<PinModel> = &components[deleted];
    let mut d: Vec<u64> = Vec::new();
    let mut k: usize = 0;
    while k < comp.len()
        invariant
            k <= comp@.len(),
            d@ == comp@.subrange(0, k as int).map_values(|p: PinModel| p.id),
        decreases comp@.len() - k,
    {
        d.push(comp[k].id);
        k = k + 1;
        assert(d@ =~= comp@.subrange(0, k as int).map_values(|p: PinModel| p.id));
    }
    assert(comp@.subrange(0, comp@.len() as int) =~= comp@);
    let ghost ds = d@;
    assert(ds =~= components@[deleted as int]@.map_values(|p: PinModel| p.id));
    let mut uf = union_links_avoiding(links, d.as_slice());
    join_component_locks(&mut uf, components, None);
    let ghost f = roots(uf);
    assert(f == join_components(join_links_avoiding(separate(), links@, ds), component_pins(components@), None));
    let left_root = uf.get_root(left);
    let mut base: Option<(u64, i64)> = None;
    let mut to: Vec<u64> = Vec::new();
    let mut seen: Vec<u64> = Vec::new();
    let mut i: usize = 0;
    while i < links.len()
        invariant
            i <= links@.len(),
            uf.wf(),
            roots(uf) == f,
            left_root == f(left),
            d@ == ds,
            times_are_a_map(times@),
            forall|l: int|
                0 <= l < links@.len() ==> (exists|i: int| 0 <= i < times@.len() && times@[i].0 == (#[trigger] links@[l]).0)
                    && (exists|i: int| 0 <= i < times@.len() && times@[i].0 == links@[l].1),
            seen@.no_duplicates(),
            forall|p: u64| seen@.contains(p) <==> adjacent(links@.subrange(0, i as int), ds, p),
            forall|p: u64| to@.contains(p) <==> (seen@.contains(p) && f(p) != f(left)),
            to@.no_duplicates(),
            base matches Some((b, tb)) ==> seen@.contains(b) && f(b) == f(left) && tb == time_of(times@, b)
                && forall|p: u64| seen@.contains(p) && f(p) == f(left) ==> tb <= time_of(times@, p),
            base is None ==> forall|p: u64| seen@.contains(p) ==> f(p) != f(left),
        decreases links@.len() - i,
    {
        let link = links[i];
        let ghost prefix = links@.subrange(0, i as int);
        let ghost seen0 = seen@;
        assert(links@.subrange(0, i + 1) =~= prefix.push(link));
        assert(links@[i as int] == link);
        assert(exists|k: int| 0 <= k < times@.len() && times@[k].0 == link.0);
        assert(exists|k: int| 0 <= k < times@.len() && times@[k].0 == link.1);
        let from_deleted = contains_id(d.as_slice(), link.0);
        let to_deleted = contains_id(d.as_slice(), link.1);
        assert(from_deleted == ds.contains(link.0));
        assert(to_deleted == ds.contains(link.1));
        assert(forall|p: u64|
            adjacent(prefix.push(link), ds, p) <==> (adjacent(prefix, ds, p) || (from_deleted && p == link.1) || (
            to_deleted && p == link.0))) by {
            assert forall|p: u64| adjacent(prefix.push(link), ds, p) implies (adjacent(prefix, ds, p) || (from_deleted
                && p == link.1) || (to_deleted && p == link.0)) by {
                let l = choose|l: int|
                    0 <= l < prefix.push(link).len() && ((ds.contains(#[trigger] prefix.push(link)[l].0)
                        && prefix.push(link)[l].1 == p) || (ds.contains(prefix.push(link)[l].1)
                        && prefix.push(link)[l].0 == p));
                if l < prefix.len() {
                    assert(prefix[l] == prefix.push(link)[l]);
                }
            }
            assert forall|p: u64| adjacent(prefix, ds, p) implies adjacent(prefix.push(link), ds, p) by {
                let l = choose|l: int|
                    0 <= l < prefix.len() && ((ds.contains(#[trigger] prefix[l].0) && prefix[l].1 == p) || (
                    ds.contains(prefix[l].1) && prefix[l].0 == p));
                assert(prefix.push(link)[l] == prefix[l]);
            }
            assert forall|p: u64| (from_deleted && p == link.1) || (to_deleted && p == link.0) implies adjacent(
                prefix.push(link),
                ds,
                p,
            ) by {
                assert(prefix.push(link)[i as int] == link);
            }
        }
        if from_deleted {
            note_reached(&mut seen, &mut to, &mut base, &mut uf, link.1, left_root, times, Ghost(f), Ghost(left));
        }
        if to_deleted {
            note_reached(&mut seen, &mut to, &mut base, &mut uf, link.0, left_root, times, Ghost(f), Ghost(left));
        }
        i = i + 1;
    }
    assert(links@.subrange(0, links@.len() as int) =~= links@);
    let ghost dd = components@[deleted as int]@.map_values(|p: PinModel| p.id);
    assert(dd == ds);
    assert(forall|p: u64| seen@.contains(p) <==> adjacent(links@, ds, p));
    match base {
        Some((b, tb)) => {
            assert(adjacent(links@, ds, b));
            assert forall|p: u64| adjacent(links@, ds, p) && f(p) == f(left) implies time_of(times@, b) <= time_of(times@, p) by {
                assert(seen@.contains(p));
            }
            assert forall|p: u64| to@.contains(p) <==> (adjacent(links@, ds, p) && f(p) != f(left)) by {
                assert(seen@.contains(p) <==> adjacent(links@, ds, p));
            }
            assert(relink(links@, ds, f, left, times@, b, to@));
            Ok(Some((b, to)))
        },
        None => {
            assert forall|p: u64| adjacent(links@, ds, p) implies #[trigger] f(p) != f(left) by {
                assert(seen@.contains(p));
            }
            assert(!exists|p: u64| adjacent(links@, ds, p) && #[trigger] f(p) == f(left));
            Ok(None)
        },
    }
}


/// `link` joins the pins `a` and `b`, in either direction.
pub open spec fn joins(link: (u64, u64), a: u64, b: u64) -> bool {
    link == (a, b) || link == (b, a)
}

/// Some link joins `a` and `b`.
pub open spec fn directly_linked(links: Seq<(u64, u64)>, a: u64, b: u64) -> bool {
    exists|l: int| 0 <= l < links.len() && #[trigger] joins(links[l], a, b)
}

/// The `k`-th step of `path` follows a link.
pub open spec fn walk_step(links: Seq<(u64, u64)>, path: Seq<u64>, k: int) -> bool {
    directly_linked(links, path[k], path[k + 1])
}

/// `path` goes from pin to pin along links.
pub open spec fn is_walk(links: Seq<(u64, u64)>, path: Seq<u64>) -> bool {
    &&& path.len() >= 1
    &&& forall|k: int| 0 <= k < path.len() - 1 ==> #[trigger] walk_step(links, path, k)
}

/// Links lead from `from` to `to`.
pub open spec fn reaches(links: Seq<(u64, u64)>, from: u64, to: u64) -> bool {
    exists|path: Seq<u64>| #[trigger] is_walk(links, path) && path[0] == from && path.last() == to
}

/// Links lead from `from` to `p` without passing the pin `avoid`.
pub open spec fn reaches_avoiding(links: Seq<(u64, u64)>, from: u64, p: u64, avoid: u64) -> bool {
    exists|path: Seq<u64>|
        #[trigger] is_walk(links, path) && path[0] == from && path.last() == p && !path.contains(avoid)
}

/// How many links are still to be looked at.
spec fn undone(done: Seq<bool>) -> nat
    decreases done.len(),
{
    if done.len() == 0 {
        0
    } else {
        undone(done.drop_last()) + if done.last() {
            0nat
        } else {
            1nat
        }
    }
}

proof fn lemma_undone_set(done: Seq<bool>, i: int)
    requires
        0 <= i < done.len(),
        !done[i],
    ensures
        undone(done.update(i, true)) + 1 == undone(done),
    decreases done.len(),
{
    if i == done.len() - 1 {
        assert(done.update(i, true).drop_last() =~= done.drop_last());
    } else {
        lemma_undone_set(done.drop_last(), i);
        assert(done.update(i, true).drop_last() =~= done.drop_last().update(i, true));
    }
}

/// A walk extended by one more link is a walk.
proof fn lemma_walk_push(links: Seq<(u64, u64)>, path: Seq<u64>, x: u64)
    requires
        is_walk(links, path),
        directly_linked(links, path.last(), x),
    ensures
        is_walk(links, path.push(x)),
        path.push(x)[0] == path[0],
        path.push(x).last() == x,
{
    let q = path.push(x);
    assert forall|k: int| 0 <= k < q.len() - 1 implies #[trigger] walk_step(links, q, k) by {
        if k < path.len() - 1 {
            assert(walk_step(links, path, k));
            assert(q[k] == path[k] && q[k + 1] == path[k + 1]);
        } else {
            assert(q[k] == path.last() && q[k + 1] == x);
        }
    }
}

/// A walk that starts in a set of pins that every link either joins to or
/// keeps apart from the rest stays in that set.
proof fn lemma_walk_stays(links: Seq<(u64, u64)>, s: Seq<u64>, path: Seq<u64>, k: int)
    requires
        is_walk(links, path),
        s.contains(path[0]),
        0 <= k < path.len(),
        forall|j: int| #![trigger links[j]] 0 <= j < links.len() ==> (s.contains(links[j].0) <==> s.contains(links[j].1)),
    ensures
        s.contains(path[k]),
    decreases k,
{
    if k > 0 {
        lemma_walk_stays(links, s, path, k - 1);
        assert(walk_step(links, path, k - 1));
        let j = choose|j: int| 0 <= j < links.len() && #[trigger] joins(links[j], path[k - 1], path[k]);
        assert(s.contains(links[j].0) <==> s.contains(links[j].1));
    }
}

/// What connecting the pins `from` and `to` with a new link does to the
/// links there are: connecting a pin to itself, or two pins a link already
/// joins, is refused. Where links already lead from `from` to `to`, one link
/// at `to` on such a way is removed first: the result names it, and the pin
/// at its other end is reached from `from` without passing `to`. Where no
/// links lead there, nothing is removed. `locked` lists the locked pins of the
/// components: `from` is one of them or an end of a link.
#[verifier::spinoff_prover]
pub fn plan_connect(links: &[(u64, u64)], locked: &[u64], from: u64, to: u64) -> (r: Result<Option<usize>, ProjectEditError>)
    requires
        forall|l: int| 0 <= l < links@.len() ==> #[trigger] links@[l].0 != links@[l].1,
        from == to || locked@.contains(from) || exists|l: int|
            0 <= l < links@.len() && #[trigger] has_end(links@[l], from),
    ensures
        (r == Err::<Option<usize>, ProjectEditError>(ProjectEditError::MarkerPinsAreSame)) <==> from == to,
        from != to ==> ((r == Err::<Option<usize>, ProjectEditError>(ProjectEditError::PinsAlreadyConnected))
            <==> directly_linked(links@, from, to)),
        r == Ok::<Option<usize>, ProjectEditError>(None) <==> (from != to && !directly_linked(links@, from, to)
            && !reaches(links@, from, to)),
        r matches Ok(Some(i)) ==> {
            &&& 0 <= i < links@.len()
            &&& from != to
            &&& !directly_linked(links@, from, to)
            &&& exists|p: u64| #[trigger] joins(links@[i as int], p, to) && reaches_avoiding(links@, from, p, to)
        },
{
    if from == to {
        return Err(ProjectEditError::MarkerPinsAreSame);
    }
    let n = links.len();
    let mut l: usize = 0;
    while l < n
        invariant
            n == links@.len(),
            l <= n,
            from != to,
            forall|m: int| 0 <= m < l ==> !#[trigger] joins(links@[m], from, to),
        decreases n - l,
    {
        let link = links[l];
        if (link.0 == from && link.1 == to) || (link.0 == to && link.1 == from) {
            assert(joins(links@[l as int], from, to));
            return Err(ProjectEditError::PinsAlreadyConnected);
        }
        l = l + 1;
    }
    assert(!directly_linked(links@, from, to));
    let mut done: Vec<bool> = Vec::new();
    while done.len() < n
        invariant
            n == links@.len(),
            done@.len() <= n,
            forall|j: int| 0 <= j < done@.len() ==> !#[trigger] done@[j],
        decreases n - done@.len(),
    {
        done.push(false);
    }
    let mut visited: Vec<u64> = Vec::new();
    visited.push(from);
    proof {
        let path = seq![from];
        assert(is_walk(links@, path));
        assert(!path.contains(to)) by {
            if path.contains(to) {
                let i = choose|i: int| 0 <= i < path.len() && path[i] == to;
            }
        }
        assert(visited@ =~= seq![from]);
        assert forall|x: u64| #[trigger] visited@.contains(x) implies reaches_avoiding(links@, from, x, to) by {
            let i = choose|i: int| 0 <= i < visited@.len() && visited@[i] == x;
            assert(is_walk(links@, path) && path[0] == from && path.last() == x && !path.contains(to));
        }
        assert(visited@[0] == from);
    }
    let mut changed = true;
    while changed
        invariant
            n == links@.len(),
            done@.len() == n,
            from != to,
            !directly_linked(links@, from, to),
            visited@.contains(from),
            !visited@.contains(to),
            forall|x: u64| #[trigger] visited@.contains(x) ==> reaches_avoiding(links@, from, x, to),
            forall|j: int|
                #![trigger done@[j]]
                0 <= j < n && done@[j] ==> visited@.contains(links@[j].0) && visited@.contains(links@[j].1),
            !changed ==> forall|j: int|
                #![trigger links@[j]]
                0 <= j < n ==> (visited@.contains(links@[j].0) <==> visited@.contains(links@[j].1)),
        decreases undone(done@) + if changed {
            1nat
        } else {
            0nat
        },
    {
        changed = false;
        let ghost start = undone(done@);
        let mut i: usize = 0;
        while i < n
            invariant
                n == links@.len(),
                done@.len() == n,
                i <= n,
                from != to,
                !directly_linked(links@, from, to),
                visited@.contains(from),
                !visited@.contains(to),
                forall|x: u64| #[trigger] visited@.contains(x) ==> reaches_avoiding(links@, from, x, to),
                forall|j: int|
                    #![trigger done@[j]]
                    0 <= j < n && done@[j] ==> visited@.contains(links@[j].0) && visited@.contains(links@[j].1),
                !changed ==> forall|j: int|
                    #![trigger links@[j]]
                    0 <= j < i && !done@[j] ==> !visited@.contains(links@[j].0) && !visited@.contains(links@[j].1),
                undone(done@) <= start,
                changed ==> undone(done@) < start,
            decreases n - i,
        {
            if !done[i] {
                let link = links[i];
                let av = contains_id(visited.as_slice(), link.0);
                let bv = contains_id(visited.as_slice(), link.1);
                if av || bv {
                    if link.0 == to || link.1 == to {
                        proof {
                            let p = if link.0 == to {
                                link.1
                            } else {
                                link.0
                            };
                            assert(joins(links@[i as int], p, to));
                            assert(visited@.contains(p));
                            assert(reaches_avoiding(links@, from, p, to));
                            let path = choose|path: Seq<u64>|
                                #[trigger] is_walk(links@, path) && path[0] == from && path.last() == p
                                    && !path.contains(to);
                            lemma_walk_push(links@, path, to);
                            assert(reaches(links@, from, to));
                            assert(joins(links@[i as int], p, to) && reaches_avoiding(links@, from, p, to));
                        }
                        return Ok(Some(i));
                    }
                    let ghost v0 = visited@;
                    if !av {
                        proof {
                            let path = choose|path: Seq<u64>|
                                #[trigger] is_walk(links@, path) && path[0] == from && path.last() == link.1
                                    && !path.contains(to);
                            assert(joins(links@[i as int], link.1, link.0));
                            lemma_walk_push(links@, path, link.0);
                            lemma_push_contains(path, link.0);
                            assert(reaches_avoiding(links@, from, link.0, to));
                        }
                        visited.push(link.0);
                    } else if !bv {
                        proof {
                            let path = choose|path: Seq<u64>|
                                #[trigger] is_walk(links@, path) && path[0] == from && path.last() == link.0
                                    && !path.contains(to);
                            assert(joins(links@[i as int], link.0, link.1));
                            lemma_walk_push(links@, path, link.1);
                            lemma_push_contains(path, link.1);
                            assert(reaches_avoiding(links@, from, link.1, to));
                        }
                        visited.push(link.1);
                    }
                    proof {
                        lemma_push_contains(v0, link.0);
                        lemma_push_contains(v0, link.1);
                        lemma_undone_set(done@, i as int);
                    }
                    done.set(i, true);
                    changed = true;
                }
            }
            i = i + 1;
        }
    }
    proof {
        assert forall|path: Seq<u64>| #[trigger] is_walk(links@, path) && path[0] == from implies path.last() != to by {
            lemma_walk_stays(links@, visited@, path, path.len() - 1);
        }
    }
    Ok(None)
}


/// A union-find in which the two ends of each link that touches none of the
/// pins `d` are joined.
fn union_links_avoiding(links: &[(u64, u64)], d: &[u64]) -> (uf: UnionFind<u64>)
    ensures
        uf.wf(),
        roots(uf) == join_links_avoiding(separate(), links@, d@),
{
    broadcast use vstd::std_specs::hash::group_hash_axioms, vstd::laws_eq::group_laws_eq;

    proof {
        lemma_ids_clone_faithfully();
    }
    let mut uf: UnionFind<u64> = UnionFind::new();
    assert(roots(uf) =~= separate());
    assert(links@.skip(0) =~= links@);
    let mut i: usize = 0;
    while i < links.len()
        invariant
            i <= links@.len(),
            uf.wf(),
            join_links_avoiding(roots(uf), links@.skip(i as int), d@) == join_links_avoiding(separate(), links@, d@),
        decreases links@.len() - i,
    {
        let ghost before = roots(uf);
        let link = links[i];
        proof {
            assert(links@.skip(i as int).skip(1) =~= links@.skip(i + 1));
            assert(links@.skip(i as int)[0] == link);
        }
        if !contains_id(d, link.0) && !contains_id(d, link.1) {
            uf.union(link.0, link.1);
            assert(roots(uf) =~= merged(before, link.0, link.1));
        }
        i = i + 1;
    }
    assert(links@.skip(links@.len() as int) =~= Seq::<(u64, u64)>::empty());
    uf
}

/// How link `i` follows a change of the root's length, with the classes
/// `f`: a link into the right pin `right` from a pin held with the left pin
/// `left` grows by the change (`Some(true)`), one out of the right pin to
/// such a pin shrinks by it (`Some(false)`), and any other link stays.
pub open spec fn length_shift(links: Seq<(u64, u64)>, f: spec_fn(u64) -> u64, left: u64, right: u64, i: int) -> Option<bool> {
    if links[i].1 == right && f(links[i].0) == f(left) {
        Some(true)
    } else if links[i].0 == right && f(links[i].1) == f(left) {
        Some(false)
    } else {
        None
    }
}

/// The links among the first `n` that follow a change of the root's length,
/// in order, each with how it follows it.
pub open spec fn length_shifts(links: Seq<(u64, u64)>, f: spec_fn(u64) -> u64, left: u64, right: u64, n: int) -> Seq<
    (usize, bool),
>
    decreases n,
{
    if n <= 0 {
        Seq::empty()
    } else {
        let before = length_shifts(links, f, left, right, n - 1);
        match length_shift(links, f, left, right, n - 1) {
            Some(grow) => before.push(((n - 1) as usize, grow)),
            None => before,
        }
    }
}

/// What a new length of the root does to its links: the pins that links
/// not touching the right pin `right` hold together with the left pin `left`
/// keep their place, so each link between the right pin and one of them
/// changes its length with the root; the result lists those links in order,
/// `true` for a link into the right pin (it grows by the change) and `false`
/// for one out of it (it shrinks by the change).
pub fn plan_length_edit(links: &[(u64, u64)], left: u64, right: u64) -> (r: Vec<(usize, bool)>)
    ensures
        r@ == length_shifts(links@, join_links_avoiding(separate(), links@, seq![right]), left, right, links@.len() as int),
{
    let d: Vec<u64> = vec![right];
    let mut uf = union_links_avoiding(links, d.as_slice());
    assert(d@ =~= seq![right]);
    collect_shifts(&mut uf, links, left, right)
}

/// The links at `pin` that follow a move of it, with the classes of `uf`.
fn collect_shifts(uf: &mut UnionFind<u64>, links: &[(u64, u64)], left: u64, pin: u64) -> (r: Vec<(usize, bool)>)
    requires
        old(uf).wf(),
    ensures
        final(uf).wf(),
        roots(*final(uf)) == roots(*old(uf)),
        r@ == length_shifts(links@, roots(*old(uf)), left, pin, links@.len() as int),
{
    let ghost f = roots(*uf);
    let left_root = uf.get_root(left);
    let mut r: Vec<(usize, bool)> = Vec::new();
    let mut i: usize = 0;
    while i < links.len()
        invariant
            i <= links@.len(),
            uf.wf(),
            roots(*uf) == f,
            left_root == f(left),
            r@ == length_shifts(links@, f, left, pin, i as int),
        decreases links@.len() - i,
    {
        let link = links[i];
        if link.1 == pin && uf.get_root(link.0) == left_root {
            r.push((i, true));
        } else if link.0 == pin && uf.get_root(link.1) == left_root {
            r.push((i, false));
        }
        i = i + 1;
    }
    r
}

/// What moving the pin `pin` in time does to the links at it: the pins that
/// stay in place once it moves are those held together by the links that do
/// not touch it and by the locks of every component (but its own); each link
/// between the pin and one held with the root's left pin `left` changes its
/// length with the move, `true` for a link into the pin (it grows by the
/// move) and `false` for one out of it (it shrinks by it). When no link
/// changes, the pin's locked time moves instead.
pub fn plan_move_pin(components: &[Vec<PinModel>], links: &[(u64, u64)], left: u64, pin: u64) -> (r: Vec<(usize, bool)>)
    ensures
        r@ == length_shifts(links@, delete_classes(links@, component_pins(components@), pin), left, pin, links@.len() as int),
{
    let d: Vec<u64> = vec![pin];
    let mut uf = union_links_avoiding(links, d.as_slice());
    assert(d@ =~= seq![pin]);
    join_component_locks(&mut uf, components, Some(pin));
    collect_shifts(&mut uf, links, left, pin)
}

/// `p` is a pin of the component `comp`.
pub open spec fn pin_of(comp: Seq<PinModel>, p: u64) -> bool {
    exists|k: int| 0 <= k < comp.len() && #[trigger] comp[k].id == p
}

/// `p` is a locked pin of the component `comp`.
pub open spec fn locked_pin_of(comp: Seq<PinModel>, p: u64) -> bool {
    exists|k: int| 0 <= k < comp.len() && #[trigger] comp[k].id == p && comp[k].locked
}

/// How link `i` follows a move of the component `comp`, with the classes
/// `f`: a link into a locked pin of the component from a pin outside it that
/// is held with the root's left pin `left` grows by the move (`Some(true)`),
/// one out of such a pin to such a pin shrinks by it (`Some(false)`), and
/// any other link stays.
pub open spec fn move_shift(links: Seq<(u64, u64)>, f: spec_fn(u64) -> u64, left: u64, comp: Seq<PinModel>, i: int) -> Option<bool> {
    let l = links[i];
    if locked_pin_of(comp, l.1) && !pin_of(comp, l.0) && f(l.0) == f(left) {
        Some(true)
    } else if locked_pin_of(comp, l.0) && !pin_of(comp, l.1) && f(l.1) == f(left) {
        Some(false)
    } else {
        None
    }
}

/// The links among the first `n` that follow a move of the component
/// `comp`, in order, each with how it follows it.
pub open spec fn move_shifts(links: Seq<(u64, u64)>, f: spec_fn(u64) -> u64, left: u64, comp: Seq<PinModel>, n: int) -> Seq<
    (usize, bool),
>
    decreases n,
{
    if n <= 0 {
        Seq::empty()
    } else {
        let before = move_shifts(links, f, left, comp, n - 1);
        match move_shift(links, f, left, comp, n - 1) {
            Some(grow) => before.push(((n - 1) as usize, grow)),
            None => before,
        }
    }
}

/// Finds a pin `p` of `comp`: whether it is one, and whether it is locked.
fn find_in_component(comp: &[PinModel], p: u64) -> (r: (bool, bool))
    ensures
        r.0 == pin_of(comp@, p),
        r.1 == locked_pin_of(comp@, p),
{
    let mut found = false;
    let mut locked = false;
    let mut k: usize = 0;
    while k < comp.len()
        invariant
            k <= comp@.len(),
            found == exists|j: int| 0 <= j < k && #[trigger] comp@[j].id == p,
            locked == exists|j: int| 0 <= j < k && #[trigger] comp@[j].id == p && comp@[j].locked,
        decreases comp@.len() - k,
    {
        if comp[k].id == p {
            found = true;
            if comp[k].locked {
                locked = true;
            }
        }
        proof {
            assert(comp@[k as int].id == p ==> (exists|j: int| 0 <= j < k + 1 && #[trigger] comp@[j].id == p));
            assert(comp@[k as int].id == p && comp@[k as int].locked ==> (exists|j: int|
                0 <= j < k + 1 && #[trigger] comp@[j].id == p && comp@[j].locked));
        }
        k = k + 1;
    }
    (found, locked)
}

/// What moving the component `target` in time does to the links: the pins
/// that stay in place are those held together by the links that touch none
/// of its pins and by the locks of every component; each link between a
/// locked pin of the component and a pin outside it held with the root's
/// left pin `left` changes its length with the move, `true` for a link into
/// the component (it grows by the move) and `false` for one out of it.
pub fn plan_move_component(components: &[Vec<PinModel>], links: &[(u64, u64)], left: u64, target: usize) -> (r: Result<
    Vec<(usize, bool)>,
    ProjectEditError,
>)
    ensures
        target >= components@.len() <==> r == Err::<Vec<(usize, bool)>, ProjectEditError>(
            ProjectEditError::ComponentInstanceNotFound,
        ),
        target < components@.len() ==> {
            let comp = components@[target as int]@;
            let d = comp.map_values(|p: PinModel| p.id);
            let f = join_components(join_links_avoiding(separate(), links@, d), component_pins(components@), None);
            r matches Ok(v) && v@ == move_shifts(links@, f, left, comp, links@.len() as int)
        },
{
    broadcast use vstd::std_specs::hash::group_hash_axioms, vstd::laws_eq::group_laws_eq;

    if target >= components.len() {
        return Err(ProjectEditError::ComponentInstanceNotFound);
    }
    let comp: &Vec<PinModel> = &components[target];
    let mut d: Vec<u64> = Vec::new();
    let mut k: usize = 0;
    while k < comp.len()
        invariant
            k <= comp@.len(),
            d@ == comp@.subrange(0, k as int).map_values(|p: PinModel| p.id),
        decreases comp@.len() - k,
    {
        d.push(comp[k].id);
        k = k + 1;
        assert(d@ =~= comp@.subrange(0, k as int).map_values(|p: PinModel| p.id));
    }
    assert(comp@.subrange(0, comp@.len() as int) =~= comp@);
    let mut uf = union_links_avoiding(links, d.as_slice());
    join_component_locks(&mut uf, components, None);
    let ghost f = roots(uf);
    let left_root = uf.get_root(left);
    let mut r: Vec<(usize, bool)> = Vec::new();
    let mut i: usize = 0;
    while i < links.len()
        invariant
            i <= links@.len(),
            uf.wf(),
            roots(uf) == f,
            left_root == f(left),
            r@ == move_shifts(links@, f, left, comp@, i as int),
        decreases links@.len() - i,
    {
        let link = links[i];
        let (in0, locked0) = find_in_component(comp.as_slice(), link.0);
        let (in1, locked1) = find_in_component(comp.as_slice(), link.1);
        if locked1 && !in0 && uf.get_root(link.0) == left_root {
            r.push((i, true));
        } else if locked0 && !in1 && uf.get_root(link.1) == left_root {
            r.push((i, false));
        }
        i = i + 1;
    }
    Ok(r)
}

/// The pins of a component in the order the editor looks for a locked pin
/// near a deleted one: the left pin, the right pin, then the markers.
pub open spec fn pin_order(pins: Seq<PinModel>) -> Seq<PinModel> {
    seq![pins[0], pins[pins.len() - 1]] + pins.subrange(1, pins.len() - 1)
}

/// `j` is the locked pin nearest before place `u` of `o`, or, when there is
/// none before it, the first locked pin after it.
pub open spec fn nearest_locked(o: Seq<PinModel>, u: int, j: int) -> bool {
    if has_locked_below(o, u) {
        last_locked_below(o, u, j)
    } else {
        first_locked_above(o, u, j)
    }
}

/// Some pin of the component other than `pin` is locked.
pub open spec fn has_other_locked(pins: Seq<PinModel>, pin: u64) -> bool {
    exists|k: int| 0 <= k < pins.len() && #[trigger] pins[k].locked && pins[k].id != pin
}

/// `p` is a locked pin of some component, and not `pin`.
pub open spec fn locked_elsewhere(comps: Seq<Seq<PinModel>>, p: u64, pin: u64) -> bool {
    exists|c: int, k: int|
        0 <= c < comps.len() && 0 <= k < comps[c].len() && #[trigger] comps[c][k].id == p && comps[c][k].locked
            && p != pin
}

/// The pins that stay in place together once the marker `pin` is deleted:
/// those joined by a link that does not touch it, and those locked in one
/// component (but `pin`).
pub open spec fn delete_classes(links: Seq<(u64, u64)>, comps: Seq<Seq<PinModel>>, pin: u64) -> spec_fn(u64) -> u64 {
    join_components(join_links_avoiding(separate(), links, seq![pin]), comps, Some(pin))
}

/// What deleting the marker `pin` does to the links, with the classes `f`:
/// the pins linked to it that are held with the root's left pin `left` get
/// linked from `base` instead, each once; `base` is `near`, the locked pin
/// nearest to the deleted one, when that is held with the left pin, and
/// otherwise a locked pin linked to the deleted one.
pub open spec fn marker_relink(
    links: Seq<(u64, u64)>,
    comps: Seq<Seq<PinModel>>,
    f: spec_fn(u64) -> u64,
    left: u64,
    pin: u64,
    near: u64,
    base: u64,
    floating: Seq<u64>,
) -> bool {
    &&& f(near) == f(left) ==> base == near
    &&& f(near) != f(left) ==> adjacent(links, seq![pin], base) && locked_elsewhere(comps, base, pin)
    &&& forall|p: u64| #[trigger] floating.contains(p) <==> (adjacent(links, seq![pin], p) && p != base && f(p) == f(left))
    &&& floating.no_duplicates()
}

/// Deleting the marker `pin` of component `target` can anchor the pins
/// linked to it: when the locked pin nearest to it is not held with the
/// root's left pin `left`, some locked pin is linked to it.
pub open spec fn delete_can_anchor(
    components: Seq<Seq<PinModel>>,
    links: Seq<(u64, u64)>,
    left: u64,
    target: int,
    pin: u64,
) -> bool {
    let comp = components[target];
    let o = pin_order(comp);
    let f = delete_classes(links, components, pin);
    forall|u: int, j: int|
        #![trigger first_with_id(o, 0, o.len() as int, pin, u), nearest_locked(o, u, j)]
        has_id(comp, 1, comp.len() - 1, pin) && has_other_locked(comp, pin) && first_with_id(o, 0, o.len() as int, pin, u)
            && nearest_locked(o, u, j) && f(o[j].id) != f(left) ==> exists|p: u64|
            adjacent(links, seq![pin], p) && #[trigger] locked_elsewhere(components, p, pin)
}

/// One more link is adjacent to the pins `d` exactly where it touches them.
proof fn lemma_adjacent_push(prefix: Seq<(u64, u64)>, link: (u64, u64), d: Seq<u64>)
    ensures
        forall|p: u64|
            #[trigger] adjacent(prefix.push(link), d, p) <==> (adjacent(prefix, d, p) || (d.contains(link.0)
                && link.1 == p) || (d.contains(link.1) && link.0 == p)),
{
    let q = prefix.push(link);
    assert forall|p: u64|
        #[trigger] adjacent(q, d, p) <==> (adjacent(prefix, d, p) || (d.contains(link.0) && link.1 == p) || (
        d.contains(link.1) && link.0 == p)) by {
        if adjacent(q, d, p) {
            let l = choose|l: int|
                0 <= l < q.len() && ((d.contains(#[trigger] q[l].0) && q[l].1 == p) || (d.contains(q[l].1) && q[l].0
                    == p));
            if l < prefix.len() {
                assert(prefix[l] == q[l]);
            }
        }
        if adjacent(prefix, d, p) {
            let l = choose|l: int|
                0 <= l < prefix.len() && ((d.contains(#[trigger] prefix[l].0) && prefix[l].1 == p) || (d.contains(
                    prefix[l].1) && prefix[l].0 == p));
            assert(q[l] == prefix[l]);
        }
        if (d.contains(link.0) && link.1 == p) || (d.contains(link.1) && link.0 == p) {
            assert(q[prefix.len() as int] == link);
        }
    }
}

/// The place of the locked pin nearest to place `u` of `o`.
fn nearest_locked_index(o: &[PinModel], u: usize) -> (j: usize)
    requires
        u < o@.len(),
        exists|k: int| 0 <= k < o@.len() && k != u && #[trigger] o@[k].locked,
    ensures
        nearest_locked(o@, u as int, j as int),
        j < o@.len(),
{
    let mut last: Option<usize> = None;
    let mut i: usize = 0;
    while i < u
        invariant
            i <= u < o@.len(),
            last matches Some(j) ==> last_locked_below(o@, i as int, j as int),
            last is None ==> !has_locked_below(o@, i as int),
        decreases u - i,
    {
        if o[i].locked {
            last = Some(i);
        }
        i = i + 1;
    }
    if let Some(j) = last {
        return j;
    }
    let len = o.len();
    let mut i: usize = u + 1;
    while i < len
        invariant
            u < i <= o@.len(),
            len == o@.len(),
            !has_locked_below(o@, u as int),
            forall|k: int| u < k < i ==> !#[trigger] o@[k].locked,
        decreases o@.len() - i,
    {
        if o[i].locked {
            return i;
        }
        i = i + 1;
    }
    proof {
        let k = choose|k: int| 0 <= k < o@.len() && k != u && #[trigger] o@[k].locked;
        if k < u {
            assert(has_locked_below(o@, u as int));
        }
    }
    u
}

/// Whether `p` is a locked pin of some component, and not `pin`.
fn is_locked_pin(components: &[Vec<PinModel>], p: u64, pin: u64) -> (r: bool)
    ensures
        r == locked_elsewhere(component_pins(components@), p, pin),
{
    let ghost comps = component_pins(components@);
    if p == pin {
        return false;
    }
    let mut c: usize = 0;
    while c < components.len()
        invariant
            c <= components@.len(),
            comps == component_pins(components@),
            p != pin,
            forall|c2: int, k: int|
                0 <= c2 < c && 0 <= k < comps[c2].len() && #[trigger] comps[c2][k].id == p ==> !comps[c2][k].locked,
        decreases components@.len() - c,
    {
        let comp: &Vec<PinModel> = &components[c];
        assert(comps[c as int] == comp@);
        let mut k: usize = 0;
        while k < comp.len()
            invariant
                c < components@.len(),
                comps == component_pins(components@),
                comps[c as int] == comp@,
                p != pin,
                k <= comp@.len(),
                forall|c2: int, k2: int|
                    0 <= c2 < c && 0 <= k2 < comps[c2].len() && #[trigger] comps[c2][k2].id == p ==> !comps[c2][k2].locked,
                forall|k2: int| 0 <= k2 < k && #[trigger] comp@[k2].id == p ==> !comp@[k2].locked,
            decreases comp@.len() - k,
        {
            if comp[k].id == p && comp[k].locked {
                assert(comps[c as int][k as int].id == p);
                return true;
            }
            k = k + 1;
        }
        c = c + 1;
    }
    false
}

/// What deleting the marker `pin` of component `target` does to the links.
/// The pin must be one of the markers (not the left or right pin), and some
/// other pin of the component must be locked. The pins linked to it that are
/// held with the root's left pin `left` are then linked from an anchor
/// instead: the locked pin nearest to the deleted one, taking the left pin,
/// the right pin and then the markers in turn, when that is held with the
/// left pin, or else the first locked pin linked to the deleted one. On
/// success, the anchor and those pins, each once.
pub fn plan_delete_pin(components: &[Vec<PinModel>], links: &[(u64, u64)], left: u64, target: usize, pin: u64) -> (r:
    Result<(u64, Vec<u64>), ProjectEditError>)
    requires
        forall|c: int| 0 <= c < components@.len() ==> #[trigger] components@[c]@.len() >= 2,
        target < components@.len() ==> delete_can_anchor(component_pins(components@), links@, left, target as int, pin),
    ensures
        target >= components@.len() ==> r == Err::<(u64, Vec<u64>), ProjectEditError>(
            ProjectEditError::ComponentInstanceNotFound,
        ),
        target < components@.len() ==> {
            let comp = components@[target as int]@;
            let o = pin_order(comp);
            let comps = component_pins(components@);
            &&& (!has_id(comp, 1, comp.len() - 1, pin) || !has_other_locked(comp, pin)) <==> r
                == Err::<(u64, Vec<u64>), ProjectEditError>(ProjectEditError::MarkerPinNotFound)
            &&& r is Ok || r == Err::<(u64, Vec<u64>), ProjectEditError>(ProjectEditError::MarkerPinNotFound)
            &&& r matches Ok(plan) ==> forall|u: int, j: int|
                #![trigger first_with_id(o, 0, o.len() as int, pin, u), nearest_locked(o, u, j)]
                first_with_id(o, 0, o.len() as int, pin, u) && nearest_locked(o, u, j) ==> marker_relink(
                    links@,
                    comps,
                    delete_classes(links@, comps, pin),
                    left,
                    pin,
                    o[j].id,
                    plan.0,
                    plan.1@,
                )
        },
{
    broadcast use vstd::std_specs::hash::group_hash_axioms, vstd::laws_eq::group_laws_eq, vstd::seq_lib::group_seq_properties;

    if target >= components.len() {
        return Err(ProjectEditError::ComponentInstanceNotFound);
    }
    let ghost comps = component_pins(components@);
    let comp: &Vec<PinModel> = &components[target];
    assert(comps[target as int] == comp@);
    let n = comp.len();
    let t = match find_pin(comp.as_slice(), 1, n - 1, pin) {
        Some(t) => t,
        None => return Err(ProjectEditError::MarkerPinNotFound),
    };
    let mut other: Option<usize> = None;
    let mut k: usize = 0;
    while k < n
        invariant
            n == comp@.len(),
            k <= n,
            other matches Some(k2) ==> k2 < n && comp@[k2 as int].locked && comp@[k2 as int].id != pin,
            other is None ==> forall|k2: int| 0 <= k2 < k ==> !(#[trigger] comp@[k2].locked && comp@[k2].id != pin),
        decreases n - k,
    {
        if comp[k].locked && comp[k].id != pin {
            other = Some(k);
        }
        k = k + 1;
    }
    let kl = match other {
        Some(kl) => kl,
        None => {
            assert(!has_other_locked(comp@, pin));
            return Err(ProjectEditError::MarkerPinNotFound);
        },
    };
    assert(has_other_locked(comp@, pin));
    assert(has_id(comp@, 1, n - 1, pin));
    let mut o: Vec<PinModel> = Vec::new();
    o.push(comp[0]);
    o.push(comp[n - 1]);
    let mut i: usize = 1;
    while i < n - 1
        invariant
            n == comp@.len(),
            n >= 2,
            1 <= i <= n - 1,
            o@ == seq![comp@[0], comp@[n - 1]] + comp@.subrange(1, i as int),
        decreases n - 1 - i,
    {
        o.push(comp[i]);
        i = i + 1;
        assert(o@ =~= seq![comp@[0], comp@[n - 1]] + comp@.subrange(1, i as int));
    }
    let ghost og = pin_order(comp@);
    assert(o@ == og);
    assert(o@[t + 1] == comp@[t as int]);
    let u = match find_pin(o.as_slice(), 0, o.len(), pin) {
        Some(u) => u,
        None => {
            assert(o@[t + 1].id == pin);
            return Err(ProjectEditError::MarkerPinNotFound);
        },
    };
    proof {
        let ko = if kl == 0 {
            0int
        } else if kl == n - 1 {
            1int
        } else {
            kl + 1
        };
        assert(o@[ko] == comp@[kl as int]);
        assert(ko != u);
    }
    let j = nearest_locked_index(o.as_slice(), u);
    let near = o[j].id;
    let d: Vec<u64> = vec![pin];
    assert(d@ =~= seq![pin]);
    let mut uf = union_links_avoiding(links, d.as_slice());
    join_component_locks(&mut uf, components, Some(pin));
    let ghost f = roots(uf);
    assert(f == delete_classes(links@, comps, pin));
    let left_root = uf.get_root(left);
    let near_root = uf.get_root(near);
    let mut base = near;
    if near_root != left_root {
        let mut found = false;
        let mut i: usize = 0;
        while i < links.len() && !found
            invariant
                i <= links@.len(),
                uf.wf(),
                roots(uf) == f,
                comps == component_pins(components@),
                found ==> adjacent(links@, seq![pin], base) && locked_elsewhere(comps, base, pin),
                !found ==> forall|l: int|
                    0 <= l < i ==> !((#[trigger] links@[l].0 == pin && locked_elsewhere(comps, links@[l].1, pin)) || (
                    links@[l].1 == pin && locked_elsewhere(comps, links@[l].0, pin))),
            decreases links@.len() - i,
        {
            let link = links[i];
            let nb = if link.0 == pin {
                Some(link.1)
            } else if link.1 == pin {
                Some(link.0)
            } else {
                None
            };
            if let Some(p) = nb {
                if is_locked_pin(components, p, pin) {
                    proof {
                        assert(seq![pin].contains(pin)) by {
                            assert(seq![pin][0] == pin);
                        }
                        assert(links@[i as int] == link);
                        if link.0 == pin {
                            assert(seq![pin].contains(links@[i as int].0) && links@[i as int].1 == p);
                        } else {
                            assert(seq![pin].contains(links@[i as int].1) && links@[i as int].0 == p);
                        }
                        assert(adjacent(links@, seq![pin], p));
                    }
                    base = p;
                    found = true;
                }
            }
            i = i + 1;
        }
        if !found {
            proof {
                assert(delete_can_anchor(comps, links@, left, target as int, pin));
                assert(first_with_id(og, 0, og.len() as int, pin, u as int));
                assert(nearest_locked(og, u as int, j as int));
                let p = choose|p: u64| adjacent(links@, seq![pin], p) && #[trigger] locked_elsewhere(comps, p, pin);
                let l = choose|l: int|
                    0 <= l < links@.len() && ((seq![pin].contains(#[trigger] links@[l].0) && links@[l].1 == p) || (
                    seq![pin].contains(links@[l].1) && links@[l].0 == p));
                assert(seq![pin].contains(links@[l].0) ==> links@[l].0 == pin);
                assert(seq![pin].contains(links@[l].1) ==> links@[l].1 == pin);
            }
            return Err(ProjectEditError::MarkerPinNotFound);
        }
    }
    let mut floating: Vec<u64> = Vec::new();
    let mut i: usize = 0;
    assert(links@.subrange(0, 0) =~= Seq::<(u64, u64)>::empty());
    while i < links.len()
        invariant
            i <= links@.len(),
            uf.wf(),
            roots(uf) == f,
            left_root == f(left),
            floating@.no_duplicates(),
            forall|p: u64|
                #[trigger] floating@.contains(p) <==> (adjacent(links@.subrange(0, i as int), seq![pin], p) && p != base
                    && f(p) == f(left)),
        decreases links@.len() - i,
    {
        let link = links[i];
        let ghost prefix = links@.subrange(0, i as int);
        proof {
            assert(links@.subrange(0, i + 1) =~= prefix.push(link));
            lemma_adjacent_push(prefix, link, seq![pin]);
            assert(seq![pin].contains(link.0) <==> link.0 == pin) by {
                assert(seq![pin][0] == pin);
            }
            assert(seq![pin].contains(link.1) <==> link.1 == pin) by {
                assert(seq![pin][0] == pin);
            }
        }
        if link.0 == pin {
            let p = link.1;
            if p != base && uf.get_root(p) == left_root && !contains_id(floating.as_slice(), p) {
                proof {
                    lemma_push_contains(floating@, p);
                }
                floating.push(p);
            }
        }
        if link.1 == pin {
            let p = link.0;
            if p != base && uf.get_root(p) == left_root && !contains_id(floating.as_slice(), p) {
                proof {
                    lemma_push_contains(floating@, p);
                }
                floating.push(p);
            }
        }
        i = i + 1;
    }
    assert(links@.subrange(0, links@.len() as int) =~= links@);
    proof {
        assert forall|u2: int, j2: int|
            #![trigger first_with_id(og, 0, og.len() as int, pin, u2), nearest_locked(og, u2, j2)]
            first_with_id(og, 0, og.len() as int, pin, u2) && nearest_locked(og, u2, j2) implies marker_relink(
            links@,
            comps,
            f,
            left,
            pin,
            og[j2].id,
            base,
            floating@,
        ) by {
            if u2 < u {
            } else if u < u2 {
                assert(og[u as int].id == pin);
            }
            assert(u2 == u);
            if has_locked_below(og, u as int) {
                if j2 < j {
                    assert(og[j as int].locked);
                } else if j < j2 {
                    assert(og[j2].locked);
                }
            } else {
                if j2 < j {
                    assert(og[j2].locked);
                } else if j < j2 {
                    assert(og[j as int].locked);
                }
            }
            assert(j2 == j);
        }
    }
    Ok((base, floating))
}

/// Every two pins that `f` puts in one class, `g` puts in one class too.
pub open spec fn coarser(f: spec_fn(u64) -> u64, g: spec_fn(u64) -> u64) -> bool {
    forall|a: u64, b: u64| #![trigger f(a), f(b)] f(a) == f(b) ==> g(a) == g(b)
}

proof fn lemma_merged_joins(f: spec_fn(u64) -> u64, x: u64, y: u64)
    ensures
        coarser(f, merged(f, x, y)),
        merged(f, x, y)(x) == merged(f, x, y)(y),
{
}

proof fn lemma_coarser_trans(f: spec_fn(u64) -> u64, g: spec_fn(u64) -> u64, h: spec_fn(u64) -> u64)
    requires
        coarser(f, g),
        coarser(g, h),
    ensures
        coarser(f, h),
{
    assert forall|a: u64, b: u64| #![trigger f(a), f(b)] f(a) == f(b) implies h(a) == h(b) by {
        assert(g(a) == g(b));
    }
}

/// Joining the ends of links keeps every class and puts the two ends of each
/// link that touches none of the pins `d` in one class.
pub proof fn lemma_join_links_avoiding_closed(f: spec_fn(u64) -> u64, links: Seq<(u64, u64)>, d: Seq<u64>)
    ensures
        coarser(f, join_links_avoiding(f, links, d)),
        forall|l: int|
            0 <= l < links.len() && !d.contains(#[trigger] links[l].0) && !d.contains(links[l].1) ==> join_links_avoiding(
                f,
                links,
                d,
            )(links[l].0) == join_links_avoiding(f, links, d)(links[l].1),
    decreases links.len(),
{
    if links.len() > 0 {
        let rest = links.skip(1);
        if d.contains(links[0].0) || d.contains(links[0].1) {
            lemma_join_links_avoiding_closed(f, rest, d);
            assert forall|l: int| 0 <= l < links.len() && !d.contains(#[trigger] links[l].0) && !d.contains(links[l].1) implies join_links_avoiding(
                f,
                links,
                d,
            )(links[l].0) == join_links_avoiding(f, links, d)(links[l].1) by {
                assert(links[l] == rest[l - 1]);
            }
        } else {
            let m = merged(f, links[0].0, links[0].1);
            lemma_merged_joins(f, links[0].0, links[0].1);
            lemma_join_links_avoiding_closed(m, rest, d);
            lemma_coarser_trans(f, m, join_links_avoiding(m, rest, d));
            let g = join_links_avoiding(m, rest, d);
            assert(g(links[0].0) == g(links[0].1));
            assert forall|l: int| 0 <= l < links.len() && !d.contains(#[trigger] links[l].0) && !d.contains(links[l].1) implies join_links_avoiding(
                f,
                links,
                d,
            )(links[l].0) == join_links_avoiding(f, links, d)(links[l].1) by {
                if l > 0 {
                    assert(links[l] == rest[l - 1]);
                }
            }
        }
    }
}

/// Joining the ends of links keeps every class and puts the two ends of each
/// link in one class.
pub proof fn lemma_join_links_closed(f: spec_fn(u64) -> u64, links: Seq<(u64, u64)>)
    ensures
        coarser(f, join_links(f, links)),
        forall|l: int| 0 <= l < links.len() ==> join_links(f, links)(#[trigger] links[l].0) == join_links(f, links)(links[l].1),
    decreases links.len(),
{
    if links.len() > 0 {
        let rest = links.skip(1);
        let m = merged(f, links[0].0, links[0].1);
        lemma_merged_joins(f, links[0].0, links[0].1);
        lemma_join_links_closed(m, rest);
        lemma_coarser_trans(f, m, join_links(m, rest));
        let g = join_links(m, rest);
        assert(g(links[0].0) == g(links[0].1));
        assert forall|l: int| 0 <= l < links.len() implies join_links(f, links)(#[trigger] links[l].0) == join_links(f, links)(links[l].1) by {
            if l > 0 {
                assert(links[l] == rest[l - 1]);
            }
        }
    }
}

/// A locked pin of `pins` that is not `pin`.
pub open spec fn counted_lock(pins: Seq<PinModel>, pin: Option<u64>, k: int) -> bool {
    0 <= k < pins.len() && pins[k].locked && pin != Some(pins[k].id)
}

proof fn lemma_join_locked_closed(f: spec_fn(u64) -> u64, pins: Seq<PinModel>, pin: Option<u64>, base: Option<u64>)
    ensures
        coarser(f, join_locked(f, pins, pin, base)),
        base matches Some(b) ==> forall|k: int|
            #[trigger] counted_lock(pins, pin, k) ==> join_locked(f, pins, pin, base)(pins[k].id) == join_locked(f, pins, pin, base)(b),
        base is None ==> forall|k1: int, k2: int|
            #[trigger] counted_lock(pins, pin, k1) && #[trigger] counted_lock(pins, pin, k2) ==> join_locked(f, pins, pin, base)(
                pins[k1].id,
            ) == join_locked(f, pins, pin, base)(pins[k2].id),
    decreases pins.len(),
{
    if pins.len() > 0 {
        let rest = pins.skip(1);
        let g = join_locked(f, pins, pin, base);
        assert forall|k: int| 0 < k < pins.len() implies #[trigger] counted_lock(pins, pin, k) == counted_lock(rest, pin, k - 1) by {
            assert(pins[k] == rest[k - 1]);
        }
        if !pins[0].locked || pin == Some(pins[0].id) {
            lemma_join_locked_closed(f, rest, pin, base);
            assert(!counted_lock(pins, pin, 0));
            if base is None {
                assert forall|k1: int, k2: int|
                    #[trigger] counted_lock(pins, pin, k1) && #[trigger] counted_lock(pins, pin, k2) implies g(pins[k1].id) == g(pins[k2].id) by {
                    assert(counted_lock(rest, pin, k1 - 1) && counted_lock(rest, pin, k2 - 1));
                    assert(rest[k1 - 1] == pins[k1] && rest[k2 - 1] == pins[k2]);
                }
            } else {
                assert forall|k: int| #[trigger] counted_lock(pins, pin, k) implies g(pins[k].id) == g(base->0) by {
                    assert(counted_lock(rest, pin, k - 1));
                    assert(rest[k - 1] == pins[k]);
                }
            }
        } else {
            match base {
                None => {
                    let b0 = pins[0].id;
                    lemma_join_locked_closed(f, rest, pin, Some(b0));
                    assert forall|k: int| #[trigger] counted_lock(pins, pin, k) implies g(pins[k].id) == g(b0) by {
                        if k > 0 {
                            assert(counted_lock(rest, pin, k - 1));
                            assert(rest[k - 1] == pins[k]);
                        }
                    }
                    assert forall|k1: int, k2: int|
                        #[trigger] counted_lock(pins, pin, k1) && #[trigger] counted_lock(pins, pin, k2) implies g(pins[k1].id) == g(pins[k2].id) by {
                        assert(g(pins[k1].id) == g(b0));
                        assert(g(pins[k2].id) == g(b0));
                    }
                },
                Some(b) => {
                    let m = merged(f, b, pins[0].id);
                    lemma_merged_joins(f, b, pins[0].id);
                    lemma_join_locked_closed(m, rest, pin, base);
                    lemma_coarser_trans(f, m, join_locked(m, rest, pin, base));
                    assert(m(b) == m(pins[0].id));
                    assert(g(b) == g(pins[0].id));
                    assert forall|k: int| #[trigger] counted_lock(pins, pin, k) implies g(pins[k].id) == g(b) by {
                        if k > 0 {
                            assert(counted_lock(rest, pin, k - 1));
                            assert(rest[k - 1] == pins[k]);
                        }
                    }
                },
            }
        }
    }
}

/// Joining the locks of components keeps every class and puts every two
/// locked pins of one component, but `pin`, in one class.
pub proof fn lemma_join_components_closed(f: spec_fn(u64) -> u64, comps: Seq<Seq<PinModel>>, pin: Option<u64>)
    ensures
        coarser(f, join_components(f, comps, pin)),
        forall|c: int, k1: int, k2: int|
            0 <= c < comps.len() && #[trigger] counted_lock(comps[c], pin, k1) && #[trigger] counted_lock(comps[c], pin, k2)
                ==> join_components(f, comps, pin)(comps[c][k1].id) == join_components(f, comps, pin)(comps[c][k2].id),
    decreases comps.len(),
{
    if comps.len() > 0 {
        let rest = comps.skip(1);
        let jl = join_locked(f, comps[0], pin, None);
        lemma_join_locked_closed(f, comps[0], pin, None);
        lemma_join_components_closed(jl, rest, pin);
        let g = join_components(jl, rest, pin);
        lemma_coarser_trans(f, jl, g);
        assert forall|c: int, k1: int, k2: int|
            0 <= c < comps.len() && #[trigger] counted_lock(comps[c], pin, k1) && #[trigger] counted_lock(comps[c], pin, k2)
                implies g(comps[c][k1].id) == g(comps[c][k2].id) by {
            if c == 0 {
                assert(jl(comps[0][k1].id) == jl(comps[0][k2].id));
            } else {
                assert(comps[c] == rest[c - 1]);
                assert(counted_lock(rest[c - 1], pin, k1) && counted_lock(rest[c - 1], pin, k2));
            }
        }
    }
}

/// What holds a pin in place when another pin gets unlocked: two pins that
/// a link joins are held together, and so are every two locked pins of one
/// component other than the pin being unlocked.
pub proof fn lemma_held_together_closed(links: Seq<(u64, u64)>, comps: Seq<Seq<PinModel>>, pin: u64)
    ensures
        forall|l: int|
            0 <= l < links.len() ==> held_together(links, comps, pin)(#[trigger] links[l].0) == held_together(links, comps, pin)(
                links[l].1,
            ),
        forall|c: int, k1: int, k2: int|
            0 <= c < comps.len() && 0 <= k1 < comps[c].len() && 0 <= k2 < comps[c].len() && #[trigger] comps[c][k1].locked
                && #[trigger] comps[c][k2].locked && comps[c][k1].id != pin && comps[c][k2].id != pin ==> held_together(
                links,
                comps,
                pin,
            )(comps[c][k1].id) == held_together(links, comps, pin)(comps[c][k2].id),
{
    let jl = join_links(separate(), links);
    lemma_join_links_closed(separate(), links);
    lemma_join_components_closed(jl, comps, Some(pin));
    let h = held_together(links, comps, pin);
    assert forall|l: int| 0 <= l < links.len() implies h(#[trigger] links[l].0) == h(links[l].1) by {
        assert(jl(links[l].0) == jl(links[l].1));
    }
    assert forall|c: int, k1: int, k2: int|
        0 <= c < comps.len() && 0 <= k1 < comps[c].len() && 0 <= k2 < comps[c].len() && #[trigger] comps[c][k1].locked
            && #[trigger] comps[c][k2].locked && comps[c][k1].id != pin && comps[c][k2].id != pin implies h(comps[c][k1].id)
        == h(comps[c][k2].id) by {
        assert(counted_lock(comps[c], Some(pin), k1) && counted_lock(comps[c], Some(pin), k2));
    }
}

/// What holds pins in place when the marker `pin` is deleted or moved: two
/// pins that a link not touching it joins are held together, and so are
/// every two locked pins of one component other than `pin`.
pub proof fn lemma_delete_classes_closed(links: Seq<(u64, u64)>, comps: Seq<Seq<PinModel>>, pin: u64)
    ensures
        forall|l: int|
            0 <= l < links.len() && (#[trigger] links[l]).0 != pin && links[l].1 != pin ==> delete_classes(links, comps, pin)(
                links[l].0,
            ) == delete_classes(links, comps, pin)(links[l].1),
        forall|c: int, k1: int, k2: int|
            0 <= c < comps.len() && 0 <= k1 < comps[c].len() && 0 <= k2 < comps[c].len() && #[trigger] comps[c][k1].locked
                && #[trigger] comps[c][k2].locked && comps[c][k1].id != pin && comps[c][k2].id != pin ==> delete_classes(
                links,
                comps,
                pin,
            )(comps[c][k1].id) == delete_classes(links, comps, pin)(comps[c][k2].id),
{
    let d = seq![pin];
    let ja = join_links_avoiding(separate(), links, d);
    lemma_join_links_avoiding_closed(separate(), links, d);
    lemma_join_components_closed(ja, comps, Some(pin));
    let h = delete_classes(links, comps, pin);
    assert forall|l: int| 0 <= l < links.len() && (#[trigger] links[l]).0 != pin && links[l].1 != pin implies h(links[l].0) == h(
        links[l].1,
    ) by {
        assert(!d.contains(links[l].0)) by {
            if d.contains(links[l].0) {
                assert(d[0] == pin);
            }
        }
        assert(!d.contains(links[l].1)) by {
            if d.contains(links[l].1) {
                assert(d[0] == pin);
            }
        }
        assert(ja(links[l].0) == ja(links[l].1));
    }
    assert forall|c: int, k1: int, k2: int|
        0 <= c < comps.len() && 0 <= k1 < comps[c].len() && 0 <= k2 < comps[c].len() && #[trigger] comps[c][k1].locked
            && #[trigger] comps[c][k2].locked && comps[c][k1].id != pin && comps[c][k2].id != pin implies h(comps[c][k1].id)
        == h(comps[c][k2].id) by {
        assert(counted_lock(comps[c], Some(pin), k1) && counted_lock(comps[c], Some(pin), k2));
    }
}

/// A link that a move of the component `comp` changes, with the classes `f`:
/// one end is a locked pin of the component, the other end lies outside the
/// component and is held with the root's left pin `left`; `grow` tells that
/// the link goes into the component.
pub open spec fn moves_with_component(
    links: Seq<(u64, u64)>,
    f: spec_fn(u64) -> u64,
    left: u64,
    comp: Seq<PinModel>,
    i: int,
    grow: bool,
) -> bool {
    let (inner, outer) = if grow {
        (links[i].1, links[i].0)
    } else {
        (links[i].0, links[i].1)
    };
    &&& exists|k: int| 0 <= k < comp.len() && #[trigger] comp[k].id == inner && comp[k].locked
    &&& forall|k: int| 0 <= k < comp.len() ==> #[trigger] comp[k].id != outer
    &&& f(outer) == f(left)
}

/// A move of a component changes exactly the links between one of its
/// locked pins and a pin outside it held with the root's left pin, each
/// once, in order, growing when the link goes into the component and
/// shrinking when it comes out of it; a link at an unlocked pin of the
/// component never changes.
pub proof fn lemma_move_shifts_are_the_locked_links(
    links: Seq<(u64, u64)>,
    f: spec_fn(u64) -> u64,
    left: u64,
    comp: Seq<PinModel>,
    n: int,
)
    requires
        0 <= n <= links.len() <= usize::MAX,
    ensures
        forall|k: int|
            0 <= k < move_shifts(links, f, left, comp, n).len() ==> {
                let e = #[trigger] move_shifts(links, f, left, comp, n)[k];
                &&& 0 <= e.0 < n
                &&& moves_with_component(links, f, left, comp, e.0 as int, e.1)
            },
        forall|i: int, grow: bool|
            0 <= i < n && #[trigger] moves_with_component(links, f, left, comp, i, grow) ==> exists|k: int|
                0 <= k < move_shifts(links, f, left, comp, n).len() && #[trigger] move_shifts(links, f, left, comp, n)[k] == (
                i as usize,
                grow,
            ),
        forall|k1: int, k2: int|
            0 <= k1 < k2 < move_shifts(links, f, left, comp, n).len() ==> (#[trigger] move_shifts(links, f, left, comp, n)[k1]).0
                < (#[trigger] move_shifts(links, f, left, comp, n)[k2]).0,
    decreases n,
{
    if n > 0 {
        lemma_move_shifts_are_the_locked_links(links, f, left, comp, n - 1);
        let before = move_shifts(links, f, left, comp, n - 1);
        let now = move_shifts(links, f, left, comp, n);
        let i = n - 1;
        assert((i as usize) as int == i);
        let l = links[i];
        assert(moves_with_component(links, f, left, comp, i, true) <==> (locked_pin_of(comp, l.1) && !pin_of(comp, l.0) && f(
            l.0,
        ) == f(left)));
        assert(moves_with_component(links, f, left, comp, i, false) <==> (locked_pin_of(comp, l.0) && !pin_of(comp, l.1) && f(
            l.1,
        ) == f(left)));
        assert(locked_pin_of(comp, l.0) ==> pin_of(comp, l.0));
        assert(locked_pin_of(comp, l.1) ==> pin_of(comp, l.1));
        match move_shift(links, f, left, comp, i) {
            Some(g) => {
                assert(now == before.push((i as usize, g)));
                assert forall|k: int| 0 <= k < before.len() implies #[trigger] now[k] == before[k] by {}
                assert(now[before.len() as int] == (i as usize, g));
                assert forall|j: int, grow: bool|
                    0 <= j < n && #[trigger] moves_with_component(links, f, left, comp, j, grow) implies exists|k: int|
                        0 <= k < now.len() && #[trigger] now[k] == (j as usize, grow) by {
                    if j < i {
                        let k = choose|k: int| 0 <= k < before.len() && #[trigger] before[k] == (j as usize, grow);
                        assert(now[k] == before[k]);
                    } else {
                        assert(now[before.len() as int] == (j as usize, grow));
                    }
                }
            },
            None => {
                assert(now == before);
            },
        }
    }
}

/// A move of a pin (or a new length of the root, for its right pin) changes
/// exactly the links between that pin and a pin held with the root's left
/// pin, each once, in order: growing for a link into the pin and shrinking
/// for one out of it.
pub proof fn lemma_length_shifts_are_the_pin_links(
    links: Seq<(u64, u64)>,
    f: spec_fn(u64) -> u64,
    left: u64,
    pin: u64,
    n: int,
)
    requires
        0 <= n <= links.len() <= usize::MAX,
    ensures
        forall|k: int|
            0 <= k < length_shifts(links, f, left, pin, n).len() ==> {
                let e = #[trigger] length_shifts(links, f, left, pin, n)[k];
                &&& 0 <= e.0 < n
                &&& (e.1 ==> links[e.0 as int].1 == pin && f(links[e.0 as int].0) == f(left))
                &&& (!e.1 ==> links[e.0 as int].0 == pin && f(links[e.0 as int].1) == f(left))
            },
        forall|i: int|
            0 <= i < n && ((#[trigger] links[i]).1 == pin && f(links[i].0) == f(left) || links[i].0 == pin && f(links[i].1) == f(
                left,
            )) ==> exists|k: int|
                0 <= k < length_shifts(links, f, left, pin, n).len() && (#[trigger] length_shifts(links, f, left, pin, n)[k]).0
                    == i,
        forall|k1: int, k2: int|
            0 <= k1 < k2 < length_shifts(links, f, left, pin, n).len() ==> (#[trigger] length_shifts(links, f, left, pin, n)[k1]).0
                < (#[trigger] length_shifts(links, f, left, pin, n)[k2]).0,
    decreases n,
{
    if n > 0 {
        lemma_length_shifts_are_the_pin_links(links, f, left, pin, n - 1);
        let before = length_shifts(links, f, left, pin, n - 1);
        let now = length_shifts(links, f, left, pin, n);
        let i = n - 1;
        assert((i as usize) as int == i);
        match length_shift(links, f, left, pin, i) {
            Some(g) => {
                assert(now == before.push((i as usize, g)));
                assert forall|k: int| 0 <= k < before.len() implies #[trigger] now[k] == before[k] by {}
                assert(now[before.len() as int] == (i as usize, g));
                assert forall|j: int|
                    0 <= j < n && ((#[trigger] links[j]).1 == pin && f(links[j].0) == f(left) || links[j].0 == pin && f(links[j].1)
                        == f(left)) implies exists|k: int| 0 <= k < now.len() && (#[trigger] now[k]).0 == j by {
                    if j < i {
                        let k = choose|k: int| 0 <= k < before.len() && (#[trigger] before[k]).0 == j;
                        assert(now[k] == before[k]);
                    } else {
                        assert(now[before.len() as int].0 == j);
                    }
                }
            },
            None => {
                assert(now == before);
            },
        }
    }
}
} // verus!
