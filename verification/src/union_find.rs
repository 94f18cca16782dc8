use std::collections::HashMap;
use std::hash::Hash;
use vstd::laws_eq::obeys_concrete_eq;
use vstd::std_specs::hash::obeys_key_model;
use vstd::prelude::*;

verus! {

/// The root reached from `x` by following parent links.
///
/// A link is followed only while it climbs strictly in `level` and stays at or
/// below `top`; in a well-formed structure every link that is not a self loop
/// does, so the walk ends at the representative of `x`.
pub open spec fn find_root<T>(parent: Map<T, T>, level: spec_fn(T) -> nat, top: nat, x: T) -> T
    decreases top - level(x),
{
    if parent.contains_key(x) && parent[x] != x && level(x) < level(parent[x]) && level(parent[x]) <= top {
        find_root(parent, level, top, parent[x])
    } else {
        x
    }
}

/// Every link climbs in level, and no level passes `top`.
pub open spec fn forest<T>(parent: Map<T, T>, level: spec_fn(T) -> nat, top: nat) -> bool {
    &&& forall|x: T| #[trigger] level(x) <= top
    &&& forall|x: T|
        #[trigger] parent.contains_key(x) && parent[x] != x ==> level(x) < level(parent[x])
}

/// `x` is its own representative.
pub open spec fn is_root<T>(parent: Map<T, T>, x: T) -> bool {
    !parent.contains_key(x) || parent[x] == x
}

/// In a forest the walk ends at a root, no lower than where it started.
pub proof fn lemma_find_root_is_root<T>(parent: Map<T, T>, level: spec_fn(T) -> nat, top: nat, x: T)
    requires
        forest(parent, level, top),
    ensures
        is_root(parent, find_root(parent, level, top, x)),
        level(x) <= level(find_root(parent, level, top, x)),
        is_root(parent, x) ==> find_root(parent, level, top, x) == x,
    decreases top - level(x),
{
    assert(level(x) <= top);
    if parent.contains_key(x) && parent[x] != x {
        assert(level(parent[x]) <= top);
        lemma_find_root_is_root(parent, level, top, parent[x]);
    }
}

/// Pointing `x` straight at its representative changes no representative.
proof fn lemma_compress<T>(parent: Map<T, T>, level: spec_fn(T) -> nat, top: nat, x: T, r: T, z: T)
    requires
        forest(parent, level, top),
        r == find_root(parent, level, top, x),
        r != x,
        forest(parent.insert(x, r), level, top),
    ensures
        find_root(parent.insert(x, r), level, top, z) == find_root(parent, level, top, z),
    decreases top - level(z),
{
    let p2 = parent.insert(x, r);
    lemma_find_root_is_root(parent, level, top, x);
    lemma_find_root_is_root(parent, level, top, z);
    assert(level(z) <= top);
    assert(level(r) <= top);
    if z == x {
        assert(p2.contains_key(x));
        assert(p2[x] == r);
        assert(level(x) < level(r));
        assert(is_root(p2, r));
        lemma_find_root_is_root(p2, level, top, r);
        assert(find_root(p2, level, top, x) == find_root(p2, level, top, r));
    } else if is_root(parent, z) {
        assert(is_root(p2, z));
        lemma_find_root_is_root(p2, level, top, z);
    } else {
        assert(p2[z] == parent[z]);
        assert(level(parent[z]) <= top);
        lemma_compress(parent, level, top, x, r, parent[z]);
    }
}

/// Raising the level of a root keeps a forest a forest and changes no representative.
proof fn lemma_raise_root<T>(
    parent: Map<T, T>,
    level: spec_fn(T) -> nat,
    top: nat,
    level2: spec_fn(T) -> nat,
    top2: nat,
    z: T,
)
    requires
        forest(parent, level, top),
        forest(parent, level2, top2),
        forall|y: T| #[trigger] level(y) <= level2(y),
        top <= top2,
    ensures
        find_root(parent, level2, top2, z) == find_root(parent, level, top, z),
    decreases top - level(z),
{
    assert(level(z) <= top);
    lemma_find_root_is_root(parent, level, top, z);
    lemma_find_root_is_root(parent, level2, top2, z);
    if !is_root(parent, z) {
        assert(level(parent[z]) <= top);
        assert(level2(parent[z]) <= top2);
        lemma_raise_root(parent, level, top, level2, top2, parent[z]);
    }
}

/// Linking root `rx` under root `ry` moves exactly the members of `rx` to `ry`.
proof fn lemma_link<T>(
    parent: Map<T, T>,
    level: spec_fn(T) -> nat,
    top: nat,
    rx: T,
    ry: T,
    z: T,
)
    requires
        forest(parent, level, top),
        forest(parent.insert(rx, ry), level, top),
        is_root(parent, rx),
        is_root(parent, ry),
        rx != ry,
    ensures
        find_root(parent.insert(rx, ry), level, top, z) == (if find_root(parent, level, top, z) == rx {
            ry
        } else {
            find_root(parent, level, top, z)
        }),
    decreases top - level(z),
{
    let p2 = parent.insert(rx, ry);
    assert(level(z) <= top);
    lemma_find_root_is_root(parent, level, top, z);
    if z == rx {
        assert(p2.contains_key(rx));
        assert(p2[rx] == ry);
        assert(level(rx) < level(ry));
        assert(level(ry) <= top);
        assert(is_root(p2, ry));
        lemma_find_root_is_root(p2, level, top, ry);
    } else if is_root(parent, z) {
        assert(is_root(p2, z));
        lemma_find_root_is_root(p2, level, top, z);
    } else {
        assert(p2[z] == parent[z]);
        assert(level(parent[z]) <= top);
        lemma_link(parent, level, top, rx, ry, parent[z]);
    }
}

/// Cloning a key of `T` gives the same key back.
pub open spec fn clones_faithfully<T: Clone>() -> bool {
    forall|a: T, b: T| #[trigger] vstd::pervasive::strictly_cloned::<T>(a, b) ==> a == b
}

/// A disjoint-set forest over `T` keys with path compression.
///
/// A key that was never linked is its own class.
#[verifier::reject_recursive_types(T)]
pub struct UnionFind<T> {
    parent: HashMap<T, T>,
    level: Ghost<spec_fn(T) -> nat>,
    top: Ghost<nat>,
}

impl<T: Clone + Eq + Hash> UnionFind<T> {
    /// The structure is a forest: following links always terminates, and
    /// the keys clone faithfully.
    pub closed spec fn wf(&self) -> bool {
        &&& forest(self.parent@, self.level@, self.top@)
        &&& clones_faithfully::<T>()
    }

    /// The representative of the class of `x`.
    pub closed spec fn root(&self, x: T) -> T {
        find_root(self.parent@, self.level@, self.top@, x)
    }

    /// An empty structure: every key is its own class.
    pub fn new() -> (r: Self)
        requires
            clones_faithfully::<T>(),
        ensures
            r.wf(),
            forall|x: T| #[trigger] r.root(x) == x,
    {
        let r = UnionFind { parent: HashMap::new(), level: Ghost(|x: T| 0nat), top: Ghost(0nat) };
        assert forall|x: T| #[trigger] r.root(x) == x by {
            assert(!r.parent@.contains_key(x));
        }
        r
    }

    /// The representative of the class of `x`; compresses the path from `x`.
    pub fn get_root(&mut self, x: T) -> (r: T)
        requires
            old(self).wf(),
            obeys_key_model::<T>(),
            obeys_concrete_eq::<T>(),
        ensures
            final(self).wf(),
            r == old(self).root(x),
            final(self).root(r) == r,
            forall|z: T| #[trigger] final(self).root(z) == old(self).root(z),
    {
        proof {
            lemma_find_root_is_root(self.parent@, self.level@, self.top@, x);
            let r0 = self.root(x);
            lemma_find_root_is_root(self.parent@, self.level@, self.top@, r0);
        }
        self.compress(x)
    }

    fn compress(&mut self, x: T) -> (r: T)
        requires
            old(self).wf(),
            obeys_key_model::<T>(),
            obeys_concrete_eq::<T>(),
        ensures
            final(self).wf(),
            r == old(self).root(x),
            forall|z: T| #[trigger] final(self).root(z) == old(self).root(z),
            final(self).level@ == old(self).level@,
            final(self).top@ == old(self).top@,
        decreases old(self).top@ - (old(self).level@)(x),
    {
        proof {
            lemma_find_root_is_root(self.parent@, self.level@, self.top@, x);
            reveal(obeys_concrete_eq);
        }
        let p = match self.parent.get(&x) {
            Some(q) => {
                let c = q.clone();
                assert(vstd::pervasive::strictly_cloned(*q, c));
                c
            },
            None => {
                let c = x.clone();
                assert(vstd::pervasive::strictly_cloned(x, c));
                c
            },
        };
        if p == x {
            x
        } else {
            let ghost p0 = self.parent@;
            assert(self.level@(x) < self.level@(p));
            assert(self.level@(p) <= self.top@);
            assert(find_root(p0, self.level@, self.top@, x) == find_root(p0, self.level@, self.top@, p));
            let root = self.compress(p);
            let ghost p1 = self.parent@;
            proof {
                lemma_find_root_is_root(p1, self.level@, self.top@, p);
                lemma_find_root_is_root(p0, self.level@, self.top@, p);
                assert(self.root(x) == old(self).root(x));
                assert(self.root(p) == old(self).root(p));
                assert(root == find_root(p1, self.level@, self.top@, x));
                assert(root != x);
                let p2 = p1.insert(x, root);
                assert forall|y: T| #[trigger] p2.contains_key(y) && p2[y] != y implies self.level@(y) < self.level@(p2[y]) by {
                    if y != x {
                        assert(p1.contains_key(y) && p1[y] != y);
                    }
                }
                assert(forest(p2, self.level@, self.top@));
                assert forall|z: T| #[trigger] find_root(p2, self.level@, self.top@, z) == find_root(p0, self.level@, self.top@, z) by {
                    lemma_compress(p1, self.level@, self.top@, x, root, z);
                    assert(self.root(z) == old(self).root(z));
                }
            }
            let kept = root.clone();
            assert(vstd::pervasive::strictly_cloned(root, kept));
            self.parent.insert(x, kept);
            root
        }
    }

    /// Merges the classes of `x` and `y`; the merged class keeps the representative of `y`.
    pub fn union(&mut self, x: T, y: T)
        requires
            old(self).wf(),
            obeys_key_model::<T>(),
            obeys_concrete_eq::<T>(),
        ensures
            final(self).wf(),
            forall|z: T| #[trigger] final(self).root(z) == (if old(self).root(z) == old(self).root(x) {
                old(self).root(y)
            } else {
                old(self).root(z)
            }),
            final(self).root(x) == final(self).root(y),
            forall|a: T, b: T|
                old(self).root(a) == old(self).root(b) ==> #[trigger] final(self).root(a)
                    == #[trigger] final(self).root(b),
    {
        proof {
            reveal(obeys_concrete_eq);
        }
        let ghost x0 = x;
        let ghost y0 = y;
        let ghost s0 = *self;
        let x = self.compress(x);
        let ghost mid = self.parent@;
        let ghost s1 = *self;
        let y = self.compress(y);
        let ghost s2 = *self;
        assert forall|z: T| #[trigger] s2.root(z) == s0.root(z) by {
            assert(s2.root(z) == s1.root(z));
            assert(s1.root(z) == s0.root(z));
        }
        let ghost p1 = self.parent@;
        let ghost lv1 = self.level@;
        let ghost t1 = self.top@;
        proof {
            assert(self.root(x0) == find_root(p1, lv1, t1, x0));
            assert(find_root(p1, lv1, t1, x0) == find_root(mid, lv1, t1, x0));
            lemma_find_root_is_root(p1, lv1, t1, x0);
            lemma_find_root_is_root(p1, lv1, t1, y0);
            assert(s2.root(y0) == s1.root(y0));
            assert(is_root(p1, x));
            assert(is_root(p1, y));
        }
        if x == y {
            proof {
                let p2 = p1.insert(x, y);
                assert(forest(p2, lv1, t1)) by {
                    assert forall|q: T| #[trigger] p2.contains_key(q) && p2[q] != q implies lv1(q) < lv1(p2[q]) by {
                        if q != x {
                            assert(p1.contains_key(q));
                        }
                    }
                }
                assert forall|z: T| #[trigger] find_root(p2, lv1, t1, z) == find_root(p1, lv1, t1, z) by {
                    lemma_self_loop(p1, lv1, t1, x, z);
                }
            }
            self.parent.insert(x, y);
            assert forall|z: T| #[trigger] self.root(z) == s0.root(z) by {
                assert(s2.root(z) == s0.root(z));
            }
        } else {
            let ghost new_level = |q: T| if q == y && lv1(y) <= lv1(x) { (lv1(x) + 1) as nat } else { lv1(q) };
            let ghost new_top = if t1 < lv1(x) + 1 { (lv1(x) + 1) as nat } else { t1 };
            proof {
                assert(forest(p1, new_level, new_top)) by {
                    assert forall|q: T| #[trigger] p1.contains_key(q) && p1[q] != q implies new_level(q) < new_level(p1[q]) by {
                        assert(q != y);
                    }
                }
                assert forall|q: T| #[trigger] lv1(q) <= new_level(q) by {}
                assert forall|z: T| #[trigger] find_root(p1, new_level, new_top, z) == find_root(p1, lv1, t1, z) by {
                    lemma_raise_root(p1, lv1, t1, new_level, new_top, z);
                }
                let p2 = p1.insert(x, y);
                assert(forest(p2, new_level, new_top)) by {
                    assert forall|q: T| #[trigger] p2.contains_key(q) && p2[q] != q implies new_level(q) < new_level(p2[q]) by {
                        if q != x {
                            assert(p1.contains_key(q) && p1[q] != q);
                        }
                    }
                }
                assert forall|z: T| #[trigger] find_root(p2, new_level, new_top, z) == (if find_root(p1, lv1, t1, z) == x {
                    y
                } else {
                    find_root(p1, lv1, t1, z)
                }) by {
                    lemma_find_root_is_root(p1, new_level, new_top, x);
                    lemma_find_root_is_root(p1, new_level, new_top, y);
                    lemma_link(p1, new_level, new_top, x, y, z);
                }
            }
            self.level = Ghost(new_level);
            self.top = Ghost(new_top);
            self.parent.insert(x, y);
            assert forall|z: T| #[trigger] self.root(z) == (if s0.root(z) == s0.root(x0) {
                s0.root(y0)
            } else {
                s0.root(z)
            }) by {
                assert(s2.root(z) == s0.root(z));
                assert(s2.root(x0) == s0.root(x0));
                assert(s2.root(y0) == s0.root(y0));
            }
        }
    }
}

/// A self loop on a root changes nothing.
proof fn lemma_self_loop<T>(parent: Map<T, T>, level: spec_fn(T) -> nat, top: nat, x: T, z: T)
    requires
        forest(parent, level, top),
        is_root(parent, x),
    ensures
        find_root(parent.insert(x, x), level, top, z) == find_root(parent, level, top, z),
    decreases top - level(z),
{
    let p2 = parent.insert(x, x);
    assert(level(z) <= top);
    if z == x {
    } else if is_root(parent, z) {
    } else {
        assert(p2[z] == parent[z]);
        assert(level(parent[z]) <= top);
        lemma_self_loop(parent, level, top, x, parent[z]);
    }
}

} // verus!
