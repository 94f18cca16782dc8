use rpds::{RedBlackTreeMap, RedBlackTreeMapSync};
use std::ops::Range;
use vstd::prelude::*;

verus! {

/// The persistent map of intervals, start to end. The map itself is a
/// persistent red-black tree of `rpds`, which Verus cannot declare (its
/// pointer-kind bound names a trait of `archery`), so it is held here out of
/// Verus's sight and read only through the functions below.
#[verifier::external_body]
#[derive(Debug)]
pub struct IntervalTree {
    tree: RedBlackTreeMapSync<usize, usize>,
}

/// The entries of a persistent red-black tree map, key to value.
pub uninterp spec fn tree_entries(m: IntervalTree) -> Map<usize, usize>;

/// `RedBlackTreeMapSync::new_sync`: an empty map.
#[verifier::external_body]
fn new_tree() -> (r: IntervalTree)
    ensures
        tree_entries(r).dom() == Set::<usize>::empty(),
{
    IntervalTree { tree: RedBlackTreeMap::new_sync() }
}

/// `Clone::clone` of the map: the clone shares the tree and has the same entries.
#[verifier::external_body]
fn clone_tree(m: &IntervalTree) -> (r: IntervalTree)
    ensures
        tree_entries(r) == tree_entries(*m),
{
    IntervalTree { tree: m.tree.clone() }
}

/// `RedBlackTreeMap::size`: the number of entries.
#[verifier::external_body]
fn tree_size(m: &IntervalTree) -> (r: usize)
    ensures
        r == tree_entries(*m).len(),
{
    m.tree.size()
}

/// `RedBlackTreeMap::insert_mut`: adds the entry, replacing the value of an existing key.
#[verifier::external_body]
fn insert_entry(m: &mut IntervalTree, k: usize, v: usize)
    ensures
        tree_entries(*final(m)) == tree_entries(*old(m)).insert(k, v),
{
    m.tree.insert_mut(k, v)
}

/// `RedBlackTreeMap::remove_mut`: removes the entry of `k`, if any.
#[verifier::external_body]
fn remove_entry(m: &mut IntervalTree, k: usize)
    ensures
        tree_entries(*final(m)) == tree_entries(*old(m)).remove(k),
{
    m.tree.remove_mut(&k);
}

/// `RedBlackTreeMap::range` over `..=x`, read from the back: the entry with
/// the greatest key at most `x`, if there is one.
#[verifier::external_body]
fn floor_entry(m: &IntervalTree, x: usize) -> (r: Option<(usize, usize)>)
    ensures
        match r {
            Some((k, v)) => is_floor(tree_entries(*m), x, k) && tree_entries(*m)[k] == v,
            None => !has_floor(tree_entries(*m), x),
        },
{
    m.tree.range(..=x).next_back().map(|(k, v)| (*k, *v))
}

/// `RedBlackTreeMap::range` over `lo..=hi`, read from the front: the entry
/// with the least key in that interval, if there is one. The crate panics
/// when `lo > hi`.
#[verifier::external_body]
fn first_entry_between(m: &IntervalTree, lo: usize, hi: usize) -> (r: Option<(usize, usize)>)
    requires
        lo <= hi,
    ensures
        match r {
            Some((k, v)) => {
                &&& tree_entries(*m).contains_key(k)
                &&& lo <= k <= hi
                &&& tree_entries(*m)[k] == v
                &&& forall|k2: usize| #[trigger] tree_entries(*m).contains_key(k2) && lo <= k2 <= hi ==> k <= k2
            },
            None => forall|k: usize| #[trigger] tree_entries(*m).contains_key(k) ==> !(lo <= k <= hi),
        },
{
    m.tree.range(lo..=hi).next().map(|(k, v)| (*k, *v))
}

/// Some interval starts at or before `x`.
pub open spec fn has_floor(m: Map<usize, usize>, x: usize) -> bool {
    exists|k: usize| #[trigger] m.contains_key(k) && k <= x
}

/// `k` is the greatest start at or before `x`.
pub open spec fn is_floor(m: Map<usize, usize>, x: usize, k: usize) -> bool {
    &&& m.contains_key(k)
    &&& k <= x
    &&& forall|k2: usize| #[trigger] m.contains_key(k2) && k2 <= x ==> k2 <= k
}

/// The greatest start at or before `x`; meaningful when [`has_floor`] holds.
pub open spec fn floor_key(m: Map<usize, usize>, x: usize) -> usize {
    choose|k: usize| is_floor(m, x, k)
}

/// `x` lies in one of the half-open intervals `k..m[k]`.
pub open spec fn covered(m: Map<usize, usize>, x: usize) -> bool {
    exists|k: usize| #[trigger] m.contains_key(k) && k <= x < m[k]
}

/// Intervals are stored by start, each ends no earlier than it starts, and an
/// interval ends strictly before the next one starts.
pub open spec fn sorted_disjoint(m: Map<usize, usize>) -> bool {
    &&& m.dom().finite()
    &&& forall|k: usize| #[trigger] m.contains_key(k) ==> k <= m[k]
    &&& forall|k1: usize, k2: usize|
        #[trigger] m.contains_key(k1) && #[trigger] m.contains_key(k2) && k1 < k2 ==> m[k1] < k2
}

/// No stored interval is empty.
pub open spec fn nonempty_intervals(m: Map<usize, usize>) -> bool {
    forall|k: usize| #[trigger] m.contains_key(k) ==> k < m[k]
}

/// How the half-open range `start..end` relates to the invalid intervals.
#[derive(Debug, Clone, Copy, PartialEq, Eq, Structural)]
pub enum ValidityRange {
    Valid,
    Invalid,
    PartiallyInvalid,
}

/// The answer of [`InvalidateRange::validity_range`]: decided by the interval
/// that starts last at or before `start`, then by whether another interval
/// starts inside the range.
pub open spec fn range_validity(m: Map<usize, usize>, start: usize, end: usize) -> ValidityRange {
    if has_floor(m, start) && end <= m[floor_key(m, start)] {
        ValidityRange::Invalid
    } else if has_floor(m, start) && start < m[floor_key(m, start)] {
        ValidityRange::PartiallyInvalid
    } else if exists|k: usize| #[trigger] m.contains_key(k) && start <= k < end {
        ValidityRange::PartiallyInvalid
    } else {
        ValidityRange::Valid
    }
}

/// The classification of `start..end` point by point.
pub open spec fn pointwise_validity(m: Map<usize, usize>, start: usize, end: usize) -> ValidityRange {
    if forall|x: usize| start <= x < end ==> !#[trigger] covered(m, x) {
        ValidityRange::Valid
    } else if forall|x: usize| start <= x < end ==> #[trigger] covered(m, x) {
        ValidityRange::Invalid
    } else {
        ValidityRange::PartiallyInvalid
    }
}

/// The interval that [`InvalidateRange::invalidate`] stores: `start..end`
/// widened to the intervals it overlaps or touches.
pub open spec fn merged_start(m: Map<usize, usize>, start: usize) -> usize {
    if has_floor(m, start) && start <= m[floor_key(m, start)] {
        floor_key(m, start)
    } else {
        start
    }
}

/// See [`merged_start`].
pub open spec fn merged_end(m: Map<usize, usize>, end: usize) -> usize {
    if has_floor(m, end) && end < m[floor_key(m, end)] {
        m[floor_key(m, end)]
    } else {
        end
    }
}

/// `start..end` lies inside an interval that is already stored.
pub open spec fn already_invalid(m: Map<usize, usize>, start: usize, end: usize) -> bool {
    has_floor(m, start) && end <= m[floor_key(m, start)]
}

/// The intervals after invalidating `start..end`: unchanged if the range is
/// already inside one interval; else every interval that starts in the merged
/// interval is replaced by the merged interval.
pub open spec fn invalidated(m: Map<usize, usize>, start: usize, end: usize) -> Map<usize, usize> {
    if already_invalid(m, start, end) {
        m
    } else {
        let s = merged_start(m, start);
        let e = merged_end(m, end);
        m.restrict(m.dom().filter(|k: usize| !(s <= k <= e))).insert(s, e)
    }
}

/// A floor is unique.
proof fn lemma_floor_unique(m: Map<usize, usize>, x: usize, k: usize)
    requires
        is_floor(m, x, k),
    ensures
        has_floor(m, x),
        floor_key(m, x) == k,
{
    assert(m.contains_key(k) && k <= x);
    let f = floor_key(m, x);
    assert(is_floor(m, x, f));
}

/// Points before the floor's end are covered by the floor alone.
proof fn lemma_covered_by_floor(m: Map<usize, usize>, x: usize)
    requires
        sorted_disjoint(m),
    ensures
        covered(m, x) <==> (has_floor(m, x) && x < m[floor_key(m, x)]),
{
    if covered(m, x) {
        let k = choose|k: usize| #[trigger] m.contains_key(k) && k <= x < m[k];
        assert(has_floor(m, x));
        let f = floor_key(m, x);
        assert(is_floor(m, x, f)) by {
            let w = choose|w: usize| #[trigger] m.contains_key(w) && w <= x;
            lemma_floor_exists(m, x, w);
        }
        if k < f {
            assert(m[k] < f);
        }
    }
    if has_floor(m, x) && x < m[floor_key(m, x)] {
        let w = choose|w: usize| #[trigger] m.contains_key(w) && w <= x;
        lemma_floor_exists(m, x, w);
        let f = floor_key(m, x);
        assert(m.contains_key(f) && f <= x < m[f]);
    }
}

/// A finite map with a start at or before `x` has a greatest one.
proof fn lemma_floor_exists(m: Map<usize, usize>, x: usize, w: usize)
    requires
        m.dom().finite(),
        m.contains_key(w),
        w <= x,
    ensures
        is_floor(m, x, floor_key(m, x)),
{
    let s = m.dom().filter(|k: usize| k <= x);
    let leq = |a: usize, b: usize| a <= b;
    assert(s.contains(w));
    assert(s.finite()) by {
        m.dom().lemma_len_filter(|k: usize| k <= x);
    }
    assert(s.len() > 0) by {
        if s.len() == 0 {
            s.lemma_len0_is_empty();
        }
    }
    assert(vstd::relations::total_ordering(leq));
    s.find_unique_maximal_ensures(leq);
    let mx = s.find_unique_maximal(leq);
    assert(is_floor(m, x, mx)) by {
        assert forall|k2: usize| #[trigger] m.contains_key(k2) && k2 <= x implies k2 <= mx by {
            assert(s.contains(k2));
            if !leq(k2, mx) {
                assert(leq(mx, k2));
            }
        }
    }
}


/// Invalidating a range keeps the intervals sorted and disjoint, keeps them
/// nonempty when the range is nonempty, and covers exactly the points that were
/// covered before or lie in the range.
pub proof fn lemma_invalidated(m: Map<usize, usize>, start: usize, end: usize)
    requires
        sorted_disjoint(m),
        start <= end || already_invalid(m, start, end),
    ensures
        sorted_disjoint(invalidated(m, start, end)),
        nonempty_intervals(m) && start < end ==> nonempty_intervals(invalidated(m, start, end)),
        forall|x: usize|
            #[trigger] covered(invalidated(m, start, end), x) <==> (covered(m, x) || start <= x < end),
{
    let r = invalidated(m, start, end);
    if already_invalid(m, start, end) {
        let f = floor_key(m, start);
        assert(is_floor(m, start, f)) by {
            let w = choose|w: usize| #[trigger] m.contains_key(w) && w <= start;
            lemma_floor_exists(m, start, w);
        }
        assert forall|x: usize| #[trigger] covered(r, x) <==> (covered(m, x) || start <= x < end) by {
            if start <= x < end {
                assert(m.contains_key(f) && f <= x < m[f]);
            }
        }
        return;
    }
    let s = merged_start(m, start);
    let e = merged_end(m, end);
    let keep = m.dom().filter(|k: usize| !(s <= k <= e));
    let rest = m.restrict(keep);
    assert(r == rest.insert(s, e));
    let has_fs = has_floor(m, start);
    let fs = floor_key(m, start);
    if has_fs {
        let w = choose|w: usize| #[trigger] m.contains_key(w) && w <= start;
        lemma_floor_exists(m, start, w);
    }
    let has_fe = has_floor(m, end);
    let fe = floor_key(m, end);
    if has_fe {
        let w = choose|w: usize| #[trigger] m.contains_key(w) && w <= end;
        lemma_floor_exists(m, end, w);
    }
    assert(s <= start);
    assert(end <= e);
    assert(forall|k: usize| #[trigger] rest.contains_key(k) <==> (m.contains_key(k) && !(s <= k <= e)));
    assert(forall|k: usize| rest.contains_key(k) ==> #[trigger] rest[k] == m[k]);
    // every stored interval that starts after the merged end starts after `e`
    assert forall|k: usize| #[trigger] m.contains_key(k) && end < k implies e < k by {
        if has_fe && fe < k {
            assert(m[fe] < k);
        }
    }
    // every stored interval that starts before the merged start ends before it
    assert forall|k: usize| #[trigger] m.contains_key(k) && k < s implies m[k] < s by {
        assert(has_fs);
        if k < fs {
            assert(m[k] < fs);
        }
    }
    // sortedness
    assert(r.dom().finite()) by {
        assert(rest.dom() == keep);
        m.dom().lemma_len_filter(|k: usize| !(s <= k <= e));
    }
    assert forall|k1: usize, k2: usize|
        #[trigger] r.contains_key(k1) && #[trigger] r.contains_key(k2) && k1 < k2 implies r[k1] < k2 by {
        if k1 == s {
            assert(m.contains_key(k2) && end < k2);
        } else if k2 == s {
            assert(m.contains_key(k1) && k1 < s);
        } else {
            assert(m.contains_key(k1) && m.contains_key(k2));
        }
    }
    assert forall|k: usize| #[trigger] r.contains_key(k) implies k <= r[k] by {
        if k != s {
            assert(m.contains_key(k));
        }
    }
    // coverage
    assert forall|x: usize| #[trigger] covered(r, x) <==> (covered(m, x) || start <= x < end) by {
        if covered(m, x) {
            let k = choose|k: usize| #[trigger] m.contains_key(k) && k <= x < m[k];
            if s <= k <= e {
                assert(has_fe);
                if k < fe {
                    assert(m[k] < fe);
                }
                assert(r.contains_key(s) && s <= x < r[s]);
            } else {
                assert(r.contains_key(k) && k <= x < r[k]);
            }
        }
        if start <= x < end {
            assert(r.contains_key(s) && s <= x < r[s]);
        }
        if covered(r, x) {
            let k = choose|k: usize| #[trigger] r.contains_key(k) && k <= x < r[k];
            if k == s {
                if x < start {
                    assert(m.contains_key(fs) && fs <= x < m[fs]);
                } else if end <= x {
                    assert(m.contains_key(fe) && fe <= x < m[fe]);
                }
            } else {
                assert(m.contains_key(k) && k <= x < m[k]);
            }
        }
    }
    if nonempty_intervals(m) && start < end {
        assert forall|k: usize| #[trigger] r.contains_key(k) implies k < r[k] by {
            if k != s {
                assert(m.contains_key(k));
            }
        }
    }
}

/// On nonempty, sorted, disjoint intervals, the answer of
/// [`InvalidateRange::validity_range`] for a nonempty range is its point-by-point
/// classification.
pub proof fn lemma_range_validity_pointwise(m: Map<usize, usize>, start: usize, end: usize)
    requires
        sorted_disjoint(m),
        nonempty_intervals(m),
        start < end,
    ensures
        range_validity(m, start, end) == pointwise_validity(m, start, end),
{
    let hf = has_floor(m, start);
    let f = floor_key(m, start);
    if hf {
        let w = choose|w: usize| #[trigger] m.contains_key(w) && w <= start;
        lemma_floor_exists(m, start, w);
    }
    if hf && start < m[f] {
        assert(covered(m, start)) by {
            assert(m.contains_key(f) && f <= start < m[f]);
        }
        if end <= m[f] {
            assert forall|x: usize| start <= x < end implies #[trigger] covered(m, x) by {
                assert(m.contains_key(f) && f <= x < m[f]);
            }
        } else {
            let fe = m[f];
            assert(!covered(m, fe)) by {
                if covered(m, fe) {
                    let k = choose|k: usize| #[trigger] m.contains_key(k) && k <= fe < m[k];
                    if k < f {
                        assert(m[k] < f);
                    } else if f < k {
                        assert(m[f] < k);
                    }
                }
            }
        }
    } else if exists|k: usize| #[trigger] m.contains_key(k) && start <= k < end {
        let k = choose|k: usize| #[trigger] m.contains_key(k) && start <= k < end;
        assert(covered(m, k)) by {
            assert(m.contains_key(k) && k <= k < m[k]);
        }
        assert(!covered(m, start)) by {
            if covered(m, start) {
                let j = choose|j: usize| #[trigger] m.contains_key(j) && j <= start < m[j];
                assert(j <= f);
                if j < f {
                    assert(m[j] < f);
                }
            }
        }
    } else {
        assert forall|x: usize| start <= x < end implies !#[trigger] covered(m, x) by {
            if covered(m, x) {
                let j = choose|j: usize| #[trigger] m.contains_key(j) && j <= x < m[j];
                assert(j < start);
                assert(j <= f);
                if j < f {
                    assert(m[j] < f);
                }
            }
        }
    }
}

/// The set of invalid points of a timeline, kept as sorted, disjoint,
/// half-open intervals.
#[derive(Debug)]
pub struct InvalidateRange {
    invalid_ranges: IntervalTree,
}

impl View for InvalidateRange {
    type V = Map<usize, usize>;

    /// The stored intervals, start to end.
    closed spec fn view(&self) -> Map<usize, usize> {
        tree_entries(self.invalid_ranges)
    }
}

/// The interval that starts last at or before `start` does not decide the
/// answer for `start..end`, so the intervals inside the range are looked up.
pub open spec fn scan_reached(m: Map<usize, usize>, start: usize, end: usize) -> bool {
    !(has_floor(m, start) && (end <= m[floor_key(m, start)] || start < m[floor_key(m, start)]))
}

impl InvalidateRange {
    #[verifier::type_invariant]
    spec fn inv(self) -> bool {
        sorted_disjoint(tree_entries(self.invalid_ranges))
    }

    /// No point is invalid.
    pub fn new() -> (r: InvalidateRange)
        ensures
            r@ == Map::<usize, usize>::empty(),
            sorted_disjoint(r@),
    {
        let tree = new_tree();
        proof {
            assert(tree_entries(tree) == Map::<usize, usize>::empty());
        }
        InvalidateRange { invalid_ranges: tree }
    }

    /// The number of stored intervals.
    pub fn size(&self) -> (r: usize)
        ensures
            r == self@.len(),
    {
        tree_size(&self.invalid_ranges)
    }

    /// Whether `at` lies outside every invalid interval.
    pub fn validity(&self, at: &usize) -> (r: bool)
        ensures
            r == !covered(self@, *at),
    {
        proof {
            use_type_invariant(self);
            lemma_covered_by_floor(self@, *at);
        }
        match floor_entry(&self.invalid_ranges, *at) {
            Some((k, end)) => {
                proof {
                    lemma_floor_unique(self@, *at, k);
                }
                !(*at < end)
            },
            None => true,
        }
    }

    /// Classifies `start..end` against the invalid intervals. When the range
    /// and every stored interval are nonempty, the answer is the point-by-point
    /// one. The tree panics on a reversed range, which is reached only when
    /// the interval at `start` does not decide the answer.
    pub fn validity_range(&self, range: Range<&usize>) -> (r: ValidityRange)
        requires
            scan_reached(self@, *range.start, *range.end) ==> *range.start <= *range.end,
        ensures
            r == range_validity(self@, *range.start, *range.end),
            *range.start < *range.end && nonempty_intervals(self@) ==> r == pointwise_validity(
                self@,
                *range.start,
                *range.end,
            ),
    {
        let start = *range.start;
        let end = *range.end;
        proof {
            use_type_invariant(self);
            if start < end && nonempty_intervals(self@) {
                lemma_range_validity_pointwise(self@, start, end);
            }
        }
        if let Some((k, start_range_end)) = floor_entry(&self.invalid_ranges, start) {
            proof {
                lemma_floor_unique(self@, start, k);
            }
            if end <= start_range_end {
                return ValidityRange::Invalid;
            }
            if start < start_range_end {
                return ValidityRange::PartiallyInvalid;
            }
        }
        if start == end {
            return ValidityRange::Valid;
        }
        if first_entry_between(&self.invalid_ranges, start, end - 1).is_some() {
            ValidityRange::PartiallyInvalid
        } else {
            ValidityRange::Valid
        }
    }

    /// Marks `start..end` invalid: the stored intervals it overlaps or touches
    /// are merged with it into one. The tree panics on a reversed range, which
    /// is reached unless `start..end` already lies inside one interval.
    pub fn invalidate(&mut self, range: Range<usize>)
        requires
            range.start <= range.end || already_invalid(old(self)@, range.start, range.end),
        ensures
            final(self)@ == invalidated(old(self)@, range.start, range.end),
            sorted_disjoint(old(self)@),
            sorted_disjoint(final(self)@),
    {
        let start = range.start;
        let end = range.end;
        proof {
            use_type_invariant(&*self);
        }
        let ghost m = self@;
        let mut new_start = start;
        if let Some((left_range_start, left_range_end)) = floor_entry(&self.invalid_ranges, start) {
            proof {
                lemma_floor_unique(m, start, left_range_start);
            }
            if end <= left_range_end {
                return;
            }
            if start <= left_range_end {
                new_start = left_range_start;
            }
        }
        let mut new_end = end;
        if let Some((k, right_range_end)) = floor_entry(&self.invalid_ranges, end) {
            proof {
                lemma_floor_unique(m, end, k);
            }
            if end < right_range_end {
                new_end = right_range_end;
            }
        }
        assert(new_start == merged_start(m, start));
        assert(new_end == merged_end(m, end));
        assert(new_start <= new_end);
        let mut tree = clone_tree(&self.invalid_ranges);
        loop
            invariant
                new_start <= new_end,
                m.dom().finite(),
                tree_entries(tree).dom().finite(),
                forall|k: usize| #[trigger] tree_entries(tree).contains_key(k) ==> m.contains_key(k)
                    && tree_entries(tree)[k] == m[k],
                forall|k: usize| #[trigger] m.contains_key(k) && !(new_start <= k <= new_end)
                    ==> tree_entries(tree).contains_key(k),
            ensures
                forall|k: usize| #[trigger] tree_entries(tree).contains_key(k) ==> !(new_start <= k <= new_end),
            decreases tree_entries(tree).len(),
        {
            match first_entry_between(&tree, new_start, new_end) {
                Some((k, _)) => {
                    proof {
                        tree_entries(tree).lemma_remove_key_len(k);
                    }
                    remove_entry(&mut tree, k);
                },
                None => {
                    break;
                },
            }
        }
        let ghost keep = m.dom().filter(|k: usize| !(new_start <= k <= new_end));
        assert(tree_entries(tree) == m.restrict(keep));
        insert_entry(&mut tree, new_start, new_end);
        proof {
            lemma_invalidated(m, start, end);
        }
        self.invalid_ranges = tree;
    }
}

impl Clone for InvalidateRange {
    /// A copy with the same intervals; the tree is shared, not copied.
    fn clone(&self) -> (r: InvalidateRange)
        ensures
            r@ == self@,
    {
        proof {
            use_type_invariant(self);
        }
        InvalidateRange { invalid_ranges: clone_tree(&self.invalid_ranges) }
    }
}

impl Default for InvalidateRange {
    fn default() -> (r: InvalidateRange)
        ensures
            r@ == Map::<usize, usize>::empty(),
    {
        InvalidateRange::new()
    }
}

} // verus!
