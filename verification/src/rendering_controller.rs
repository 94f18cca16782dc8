use std::collections::BTreeSet;
use vstd::std_specs::cmp::OrdSpec;
use vstd::std_specs::iter::IteratorSpec;
use vstd::prelude::*;
use vstd::rwlock::RwLock;

verus! {

broadcast use {vstd::std_specs::btree::group_btree_axioms, vstd::laws_cmp::group_laws_cmp};

/// Every element is smaller than the next one.
pub open spec fn ascending(s: Seq<usize>) -> bool {
    forall|i: int, j: int| 0 <= i < j < s.len() ==> s[i] < s[j]
}

/// The oldest frame that stays cached when `frame` is requested.
pub open spec fn keep_from(frame: usize) -> int {
    if frame >= 20 { frame - 20 } else { 0 }
}

/// The frames that are rendered ahead of a request for `frame`.
pub open spec fn window(frame: usize) -> Set<usize> {
    Set::new(|x: usize| frame <= x < frame + 40)
}

/// The cached frames that a request for `frame` evicts, in ascending order.
fn collect_evicted(in_cache: &BTreeSet<usize>, frame: usize) -> (r: Vec<usize>)
    ensures
        ascending(r@),
        r@.to_set() == in_cache@.filter(|x: usize| x < keep_from(frame)),
{
    let lo = frame.saturating_sub(20);
    let mut removed: Vec<usize> = Vec::new();
    proof {
        let seq = vstd::std_specs::btree::spec_btree_keys_iter(in_cache).remaining();
        assert(vstd::laws_cmp::obeys_cmp::<usize>());
        assert(vstd::laws_cmp::obeys_cmp::<&usize>());
        assert(vstd::std_specs::btree::increasing_seq(seq));
        vstd::std_specs::btree::axiom_increasing_seq_meaning(seq);
        assert forall|i: int, j: int| 0 <= i < j < seq.len() implies *seq[i] < *seq[j] by {
            assert(OrdSpec::cmp_spec(&seq[i], &seq[j]) is Less);
        }
    }
    for x in it: in_cache.iter()
        invariant
            it.seq() == vstd::std_specs::btree::spec_btree_keys_iter(in_cache).remaining(),
            lo == keep_from(frame),
            forall|i: int, j: int| 0 <= i < j < it.seq().len() ==> *it.seq()[i] < *it.seq()[j],
            ascending(removed@),
            forall|j: int| 0 <= j < removed@.len() ==> #[trigger] removed@[j] < lo && in_cache@.contains(removed@[j]),
            forall|k: int| 0 <= k < it.index() && *it.seq()[k] < lo ==> removed@.contains(*it.seq()[k]),
            forall|j: int, k: int| 0 <= j < removed@.len() && it.index() <= k < it.seq().len() ==> removed@[j] < *it.seq()[k],
    {
        let ghost idx = it.index();
        let ghost before = removed@;
        assert(*x == *it.seq()[idx]);
        if *x < lo {
            removed.push(*x);
        }
        proof {
            assert forall|k: int| 0 <= k < idx + 1 && *it.seq()[k] < lo implies removed@.contains(*it.seq()[k]) by {
                if k == idx {
                    assert(removed@[removed@.len() - 1] == *x);
                } else {
                    let j = choose|j: int| 0 <= j < before.len() && before[j] == *it.seq()[k];
                    assert(removed@[j] == *it.seq()[k]);
                }
            }
        }
    }
    removed
}

/// What a request for `frame` does to the set of cached frames: the frames
/// more than 20 before `frame` are evicted, in ascending order; then the frames
/// of the 40 from `frame` on that are not cached yet are requested, in
/// ascending order; the set becomes what is left plus the window.
pub fn plan_request(in_cache: &mut BTreeSet<usize>, frame: usize) -> (r: (Vec<usize>, Vec<usize>))
    requires
        frame <= usize::MAX - 40,
    ensures
        ascending(r.0@),
        r.0@.to_set() == old(in_cache)@.filter(|x: usize| x < keep_from(frame)),
        ascending(r.1@),
        r.1@.to_set() == window(frame).filter(|x: usize| !old(in_cache)@.contains(x)),
        final(in_cache)@ == old(in_cache)@.filter(|x: usize| x >= keep_from(frame)).union(window(frame)),
{
    let ghost s0 = in_cache@;
    let evicted = collect_evicted(in_cache, frame);
    let mut i: usize = 0;
    while i < evicted.len()
        invariant
            0 <= i <= evicted@.len(),
            evicted@.to_set() == s0.filter(|x: usize| x < keep_from(frame)),
            in_cache@ == s0.difference(evicted@.subrange(0, i as int).to_set()),
        decreases evicted@.len() - i,
    {
        in_cache.remove(&evicted[i]);
        proof {
            assert(evicted@.subrange(0, i + 1) =~= evicted@.subrange(0, i as int).push(evicted@[i as int]));
            evicted@.subrange(0, i as int).lemma_push_to_set_commute(evicted@[i as int]);
            assert(evicted@.subrange(0, i + 1).to_set() =~= evicted@.subrange(0, i as int).to_set().insert(evicted@[i as int]));
            assert(in_cache@ =~= s0.difference(evicted@.subrange(0, i + 1).to_set()));
        }
        i = i + 1;
    }
    proof {
        assert(evicted@.subrange(0, evicted@.len() as int) =~= evicted@);
        assert(in_cache@ =~= s0.filter(|x: usize| x >= keep_from(frame)));
    }
    let ghost s1 = in_cache@;
    let mut requested: Vec<usize> = Vec::new();
    let mut f: usize = frame;
    while f < frame + 40
        invariant
            frame <= f <= frame + 40,
            frame <= usize::MAX - 40,
            in_cache@ == s1,
            s1 == s0.filter(|x: usize| x >= keep_from(frame)),
            ascending(requested@),
            forall|j: int| 0 <= j < requested@.len() ==> frame <= #[trigger] requested@[j] < f && !s0.contains(requested@[j]),
            forall|x: usize| frame <= x < f && !s0.contains(x) ==> requested@.contains(x),
        decreases frame + 40 - f,
    {
        let ghost before = requested@;
        if !in_cache.contains(&f) {
            requested.push(f);
        }
        proof {
            assert forall|x: usize| frame <= x < f + 1 && !s0.contains(x) implies requested@.contains(x) by {
                if x == f {
                    assert(requested@[requested@.len() - 1] == f);
                } else {
                    let j = choose|j: int| 0 <= j < before.len() && before[j] == x;
                    assert(requested@[j] == x);
                }
            }
        }
        f = f + 1;
    }
    let mut k: usize = 0;
    while k < requested.len()
        invariant
            0 <= k <= requested@.len(),
            in_cache@ == s1.union(requested@.subrange(0, k as int).to_set()),
        decreases requested@.len() - k,
    {
        in_cache.insert(requested[k]);
        proof {
            assert(requested@.subrange(0, k + 1) =~= requested@.subrange(0, k as int).push(requested@[k as int]));
            requested@.subrange(0, k as int).lemma_push_to_set_commute(requested@[k as int]);
            assert(requested@.subrange(0, k + 1).to_set() =~= requested@.subrange(0, k as int).to_set().insert(requested@[k as int]));
            assert(in_cache@ =~= s1.union(requested@.subrange(0, k + 1).to_set()));
        }
        k = k + 1;
    }
    proof {
        assert(requested@.subrange(0, requested@.len() as int) =~= requested@);
        assert(requested@.to_set() =~= window(frame).filter(|x: usize| !s0.contains(x)));
        assert(in_cache@ =~= s0.filter(|x: usize| x >= keep_from(frame)).union(window(frame)));
    }
    (evicted, requested)
}

/// What the rendering loop is asked to do.
pub enum RenderingControllerItem {
    RequestRender { frame: usize },
    RemoveCache { frame: usize },
}

/// Decides which frames to render ahead and which to forget.
pub trait MPDeltaRenderingController: Send + Sync + 'static {
    /// Called when `frame` is displayed.
    fn on_request_render(&self, frame: usize)
        requires
            frame <= usize::MAX - 40,
    ;
}

/// Builds [`LookaheadRenderingController`]s.
#[derive(Default)]
pub struct LookaheadRenderingControllerBuilder {}

impl LookaheadRenderingControllerBuilder {
    pub fn new() -> LookaheadRenderingControllerBuilder {
        LookaheadRenderingControllerBuilder {}
    }

    /// A controller that reports its decisions to `f`.
    pub fn create<F: Fn(RenderingControllerItem) + Send + Sync + 'static>(&self, f: F) -> (r: LookaheadRenderingController<F>)
        requires
            forall|item: RenderingControllerItem| call_requires(f, (item,)),
        ensures
            r.callback() == f,
    {
        LookaheadRenderingController::new(f)
    }
}

/// The recorded cache `frames` holds the 40 frames from the last request,
/// if there was one, and no frame more than 20 before it.
pub open spec fn follows_last_request(frames: Set<usize>, last: Option<usize>) -> bool {
    last matches Some(frame) ==> {
        &&& frame <= usize::MAX - 40
        &&& forall|x: usize| #[trigger] frames.contains(x) ==> x >= keep_from(frame)
        &&& window(frame).subset_of(frames)
    }
}

/// A request keeps time with the cache: afterwards every frame it evicted
/// is gone from the recorded cache, every frame of its window is in it, and
/// the frames it neither evicted nor requested are as they were.
pub proof fn lemma_request_updates_cache(old_cache: Set<usize>, frame: usize)
    requires
        frame <= usize::MAX - 40,
    ensures
        ({
            let new_cache = old_cache.filter(|x: usize| x >= keep_from(frame)).union(window(frame));
            &&& follows_last_request(new_cache, Some(frame))
            &&& forall|x: usize| #[trigger] old_cache.contains(x) && x < keep_from(frame) ==> !new_cache.contains(x)
            &&& forall|x: usize|
                x >= keep_from(frame) && !(frame <= x < frame + 40) ==> (#[trigger] new_cache.contains(x) <==> old_cache.contains(x))
        }),
{
    let new_cache = old_cache.filter(|x: usize| x >= keep_from(frame)).union(window(frame));
    assert forall|x: usize| #[trigger] new_cache.contains(x) implies x >= keep_from(frame) by {
        if window(frame).contains(x) {
            assert(frame <= x);
        }
    }
}

/// The frames a controller records as cached, and the frame it was last
/// asked for.
struct CacheState {
    frames: BTreeSet<usize>,
    last: Ghost<Option<usize>>,
}

/// Keeps the 40 frames from the requested one rendered, and forgets the
/// frames more than 20 before it.
pub struct LookaheadRenderingController<F: Fn(RenderingControllerItem)> {
    f: F,
    in_cache: RwLock<CacheState, spec_fn(CacheState) -> bool>,
}

impl<F: Fn(RenderingControllerItem)> LookaheadRenderingController<F> {
    #[verifier::type_invariant]
    spec fn callable(self) -> bool {
        &&& forall|item: RenderingControllerItem| call_requires(self.f, (item,))
        &&& forall|s: CacheState| #[trigger] self.in_cache.inv(s) == follows_last_request(s.frames@, s.last@)
    }

    /// The function that receives the decisions.
    pub closed spec fn callback(&self) -> F {
        self.f
    }

    /// A controller with nothing cached.
    pub fn new(f: F) -> (r: LookaheadRenderingController<F>)
        requires
            forall|item: RenderingControllerItem| call_requires(f, (item,)),
        ensures
            r.callback() == f,
    {
        let pred = Ghost(|s: CacheState| follows_last_request(s.frames@, s.last@));
        let start = CacheState { frames: BTreeSet::new(), last: Ghost(None) };
        LookaheadRenderingController { f, in_cache: RwLock::new(start, pred) }
    }
}

impl<F: Fn(RenderingControllerItem) + Send + Sync + 'static> MPDeltaRenderingController for LookaheadRenderingController<F> {
    /// Evicts the cached frames more than 20 before `frame`, then requests the
    /// uncached frames of the 40 from `frame` on, each in ascending order.
    fn on_request_render(&self, frame: usize) {
        proof {
            use_type_invariant(self);
        }
        let (mut in_cache, handle) = self.in_cache.acquire_write();
        let ghost before = in_cache.frames@;
        let (evicted, requested) = plan_request(&mut in_cache.frames, frame);
        in_cache.last = Ghost(Some(frame));
        proof {
            lemma_request_updates_cache(before, frame);
        }
        let mut i: usize = 0;
        while i < evicted.len()
            invariant
                forall|item: RenderingControllerItem| call_requires(self.f, (item,)),
            decreases evicted@.len() - i,
        {
            (self.f)(RenderingControllerItem::RemoveCache { frame: evicted[i] });
            i = i + 1;
        }
        let mut k: usize = 0;
        while k < requested.len()
            invariant
                forall|item: RenderingControllerItem| call_requires(self.f, (item,)),
            decreases requested@.len() - k,
        {
            (self.f)(RenderingControllerItem::RequestRender { frame: requested[k] });
            k = k + 1;
        }
        handle.release_write(in_cache);
    }
}

} // verus!
