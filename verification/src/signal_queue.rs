use crossbeam_queue::ArrayQueue;
use std::sync::Arc;
use vstd::prelude::*;
use vstd::rwlock::RwLock;

verus! {

/// The forward distance from slot `a` to slot `b` on a ring of `n` slots.
pub open spec fn fwd(a: int, b: int, n: int) -> int {
    if a <= b {
        b - a
    } else {
        n - a + b
    }
}

/// The ring shared by the two halves: its slots, the first slot that each
/// half owns, and what each half last read of the other half's first slot.
/// The left half owns the slots from its first slot up to the right half's
/// first slot, and the right half the rest.
pub struct RingState<T> {
    data: Vec<T>,
    index_left: usize,
    index_right: usize,
    copy_left: usize,
    copy_right: usize,
}

impl<T> RingState<T> {
    /// The slots of the ring.
    pub closed spec fn slots(&self) -> Seq<T> {
        self.data@
    }

    /// The first slot that `side` owns: the right half for `true`.
    pub closed spec fn own(&self, side: bool) -> int {
        if side {
            self.index_right as int
        } else {
            self.index_left as int
        }
    }

    /// The first slot that the other half owns.
    pub closed spec fn other(&self, side: bool) -> int {
        if side {
            self.index_left as int
        } else {
            self.index_right as int
        }
    }

    /// What `side` last read of the other half's first slot.
    pub closed spec fn copy(&self, side: bool) -> int {
        if side {
            self.copy_right as int
        } else {
            self.copy_left as int
        }
    }

    /// Each half's copy of the other's first slot lags behind it: the region
    /// that a half believes it owns lies inside the region it does own.
    pub closed spec fn wf(&self, n: nat) -> bool {
        &&& n >= 2
        &&& self.data@.len() == n
        &&& self.index_left < n
        &&& self.index_right < n
        &&& self.copy_left < n
        &&& self.copy_right < n
        &&& self.index_left != self.index_right
        &&& self.copy_left != self.index_left
        &&& self.copy_right != self.index_right
        &&& fwd(self.index_left as int, self.copy_left as int, n as int) <= fwd(
            self.index_left as int,
            self.index_right as int,
            n as int,
        )
        &&& fwd(self.index_right as int, self.copy_right as int, n as int) <= fwd(
            self.index_right as int,
            self.index_left as int,
            n as int,
        )
    }

    /// A ring of `n` slots made by `initializer`, of which the left half owns
    /// the first and the right half all others; each half knows where the
    /// other starts.
    pub fn new<F: Fn() -> T>(n: usize, initializer: F) -> (r: RingState<T>)
        requires
            n >= 2,
            forall|| #[trigger] call_requires(initializer, ()),
        ensures
            r.wf(n as nat),
            r.own(false) == 0,
            r.own(true) == 1,
            r.other(false) == 1,
            r.other(true) == 0,
            r.copy(false) == 1,
            r.copy(true) == 0,
    {
        let mut data: Vec<T> = Vec::new();
        let mut i: usize = 0;
        while i < n
            invariant
                i <= n,
                data@.len() == i,
                forall|| #[trigger] call_requires(initializer, ()),
            decreases n - i,
        {
            data.push(initializer());
            i = i + 1;
        }
        RingState { data, index_left: 0, index_right: 1, copy_left: 1, copy_right: 0 }
    }
}

/// What a well-formed ring of `n` slots looks like from outside: every index
/// is a slot, the two halves start at different slots, the other half of
/// `side` is the half `!side`, and the region that a half believes it owns
/// starts at its first slot and lies inside the region it owns.
pub proof fn lemma_ring_shape<T>(s: RingState<T>, n: nat)
    requires
        s.wf(n),
    ensures
        n >= 2,
        s.slots().len() == n,
        s.own(false) != s.own(true),
        forall|side: bool|
            {
                &&& 0 <= #[trigger] s.own(side) < n
                &&& 0 <= s.copy(side) < n
                &&& s.other(side) == s.own(!side)
                &&& s.copy(side) != s.own(side)
                &&& fwd(s.own(side), s.copy(side), n as int) <= fwd(s.own(side), s.other(side), n as int)
            },
{
}

/// Where `side` believes the other half starts once it has looked again,
/// which it does when the region it believes it owns is shorter than
/// `request`.
pub open spec fn seen_after<T>(s: RingState<T>, side: bool, request: int, n: int) -> int {
    if fwd(s.own(side), s.copy(side), n) >= request {
        s.copy(side)
    } else {
        s.other(side)
    }
}

/// The length of the region that `side` believes it owns, after refreshing
/// its copy of the other half's first slot when that region is shorter than
/// `request_len`.
pub fn refresh_region<T>(s: &mut RingState<T>, side: bool, request_len: usize, n: usize) -> (len: usize)
    requires
        old(s).wf(n as nat),
    ensures
        final(s).wf(n as nat),
        final(s).slots() == old(s).slots(),
        final(s).own(false) == old(s).own(false),
        final(s).own(true) == old(s).own(true),
        final(s).copy(!side) == old(s).copy(!side),
        final(s).copy(side) == (if fwd(old(s).own(side), old(s).copy(side), n as int) >= request_len {
            old(s).copy(side)
        } else {
            old(s).other(side)
        }),
        len == fwd(final(s).own(side), final(s).copy(side), n as int),
        1 <= len < n,
{
    let p = if side {
        s.index_right
    } else {
        s.index_left
    };
    let c = if side {
        s.copy_right
    } else {
        s.copy_left
    };
    let available = if p <= c {
        c - p
    } else {
        n - p + c
    };
    if available < request_len {
        if side {
            s.copy_right = s.index_left;
        } else {
            s.copy_left = s.index_right;
        }
    }
    let c = if side {
        s.copy_right
    } else {
        s.copy_left
    };
    if p <= c {
        c - p
    } else {
        n - p + c
    }
}

/// The test by which a half decides that it may move its first slot from
/// `cur` to `next`: `next` lies strictly between `cur` and `c`, going forward.
fn fits(cur: usize, next: usize, c: usize) -> (r: bool)
    ensures
        r == ((cur < c && next < c && cur < next) || (c < cur && c < next && cur < next) || (c < cur
            && next < c && next < cur)),
{
    (cur < c && next < c && cur < next) || (c < cur && c < next && cur < next) || (c < cur && next < c
        && next < cur)
}

/// Moving forward by `len` from `cur` stays strictly short of `c` exactly
/// when `len` is less than the distance to `c`.
proof fn lemma_fits(cur: int, len: int, c: int, n: int)
    requires
        n >= 2,
        0 <= cur < n,
        0 <= c < n,
        cur != c,
        1 <= len <= n - 2,
    ensures
        ((cur < c && (cur + len) % n < c && cur < (cur + len) % n) || (c < cur && c < (cur + len) % n
            && cur < (cur + len) % n) || (c < cur && (cur + len) % n < c && (cur + len) % n < cur))
            <==> len < fwd(cur, c, n),
{
    if cur + len < n {
        assert((cur + len) % n == cur + len) by {
            vstd::arithmetic::div_mod::lemma_small_mod((cur + len) as nat, n as nat);
        }
    } else {
        assert((cur + len) % n == cur + len - n) by {
            vstd::arithmetic::div_mod::lemma_mod_sub_multiples_vanish(cur + len, n);
            vstd::arithmetic::div_mod::lemma_small_mod((cur + len - n) as nat, n as nat);
        }
    }
}

/// Gives the first `len` slots of the region of `side` to the other half,
/// refreshing the copy of the other half's first slot once when they do not
/// fit in the region it believes it owns. A half always keeps one slot.
pub fn release_front<T>(s: &mut RingState<T>, side: bool, len: usize, n: usize) -> (r: Result<(), ()>)
    requires
        old(s).wf(n as nat),
    ensures
        final(s).wf(n as nat),
        final(s).slots() == old(s).slots(),
        final(s).other(side) == old(s).other(side),
        final(s).copy(!side) == old(s).copy(!side),
        r is Ok <==> (len == 0 || len < fwd(old(s).own(side), old(s).other(side), n as int)),
        r is Ok ==> final(s).own(side) == (old(s).own(side) + len) % (n as int),
        r is Err ==> final(s).own(side) == old(s).own(side),
        final(s).copy(side) == (if len == 0 || len > n - 2 || len < fwd(
            old(s).own(side),
            old(s).copy(side),
            n as int,
        ) {
            old(s).copy(side)
        } else {
            old(s).other(side)
        }),
{
    if len == 0 {
        proof {
            vstd::arithmetic::div_mod::lemma_small_mod(s.own(side) as nat, n as nat);
        }
        return Ok(());
    }
    if len > n - 2 {
        assert(fwd(s.own(side), s.other(side), n as int) <= n - 1);
        return Err(());
    }
    let cur = if side {
        s.index_right
    } else {
        s.index_left
    };
    let next = if len >= n - cur {
        len - (n - cur)
    } else {
        cur + len
    };
    proof {
        if cur + len < n {
            vstd::arithmetic::div_mod::lemma_small_mod((cur + len) as nat, n as nat);
        } else {
            vstd::arithmetic::div_mod::lemma_mod_sub_multiples_vanish(cur + len, n as int);
            vstd::arithmetic::div_mod::lemma_small_mod((cur + len - n) as nat, n as nat);
        }
        assert(next == (cur + len) % (n as int));
        lemma_fits(cur as int, len as int, s.copy(side), n as int);
        lemma_fits(cur as int, len as int, s.other(side), n as int);
    }
    let c = if side {
        s.copy_right
    } else {
        s.copy_left
    };
    if fits(cur, next, c) {
        if side {
            s.index_right = next;
        } else {
            s.index_left = next;
        }
        return Ok(());
    }
    if side {
        s.copy_right = s.index_left;
    } else {
        s.copy_left = s.index_right;
    }
    let c = if side {
        s.copy_right
    } else {
        s.copy_left
    };
    if fits(cur, next, c) {
        if side {
            s.index_right = next;
        } else {
            s.index_left = next;
        }
        Ok(())
    } else {
        Err(())
    }
}

/// The slot `k` places after slot `p` on a ring of `n` slots, for `k < n`.
pub open spec fn slot(p: int, k: int, n: int) -> int {
    if p + k < n {
        p + k
    } else {
        p + k - n
    }
}

/// Writes `values` into the first slots of the region that `side` believes
/// it owns.
pub fn write_front<T: Copy>(s: &mut RingState<T>, side: bool, values: &[T], n: usize)
    requires
        old(s).wf(n as nat),
        values@.len() <= fwd(old(s).own(side), old(s).copy(side), n as int),
    ensures
        final(s).wf(n as nat),
        final(s).own(false) == old(s).own(false),
        final(s).own(true) == old(s).own(true),
        final(s).copy(false) == old(s).copy(false),
        final(s).copy(true) == old(s).copy(true),
        forall|i: int|
            0 <= i < n ==> #[trigger] final(s).slots()[i] == (if fwd(old(s).own(side), i, n as int)
                < values@.len() {
                values@[fwd(old(s).own(side), i, n as int)]
            } else {
                old(s).slots()[i]
            }),
{
    let ghost s0 = *s;
    let p = if side {
        s.index_right
    } else {
        s.index_left
    };
    let mut i: usize = p;
    let mut k: usize = 0;
    while k < values.len()
        invariant
            s.wf(n as nat),
            s.index_left == s0.index_left,
            s.index_right == s0.index_right,
            s.copy_left == s0.copy_left,
            s.copy_right == s0.copy_right,
            p == s0.own(side),
            values@.len() <= fwd(s0.own(side), s0.copy(side), n as int),
            fwd(s0.own(side), s0.copy(side), n as int) < n,
            k <= values@.len(),
            i < n,
            fwd(p as int, i as int, n as int) == k,
            forall|j: int|
                0 <= j < n ==> #[trigger] s.data@[j] == (if fwd(p as int, j, n as int) < k {
                    values@[fwd(p as int, j, n as int)]
                } else {
                    s0.data@[j]
                }),
        decreases values@.len() - k,
    {
        s.data.set(i, values[k]);
        i = if i + 1 == n {
            0
        } else {
            i + 1
        };
        k = k + 1;
    }
}

/// Copies the first `count` slots of the region that `side` believes it
/// owns into the front of `dst`.
pub fn read_front<T: Copy>(s: &RingState<T>, side: bool, dst: &mut [T], count: usize, n: usize)
    requires
        s.wf(n as nat),
        count <= fwd(s.own(side), s.copy(side), n as int),
        count <= old(dst)@.len(),
    ensures
        final(dst)@.len() == old(dst)@.len(),
        forall|k: int|
            0 <= k < final(dst)@.len() ==> #[trigger] final(dst)@[k] == (if k < count {
                s.slots()[slot(s.own(side), k, n as int)]
            } else {
                old(dst)@[k]
            }),
{
    let ghost d0 = dst@;
    let p = if side {
        s.index_right
    } else {
        s.index_left
    };
    let mut i: usize = p;
    let mut k: usize = 0;
    while k < count
        invariant
            s.wf(n as nat),
            p == s.own(side),
            count <= fwd(s.own(side), s.copy(side), n as int),
            fwd(s.own(side), s.copy(side), n as int) < n,
            count <= d0.len(),
            dst@.len() == d0.len(),
            k <= count,
            i < n,
            i == slot(p as int, k as int, n as int),
            forall|j: int|
                0 <= j < dst@.len() ==> #[trigger] dst@[j] == (if j < k {
                    s.data@[slot(p as int, j, n as int)]
                } else {
                    d0[j]
                }),
        decreases count - k,
    {
        dst[k] = s.data[i];
        i = if i + 1 == n {
            0
        } else {
            i + 1
        };
        k = k + 1;
    }
}

/// What `side` sends: when the region it sees, after looking again at
/// where the other half starts if that region is too short, has room for
/// `values` and one slot more, `values` are written at its front and handed
/// to the other half, where they follow, in order, the slots it already
/// owns; the room left less one slot is returned. Otherwise nothing is sent.
pub fn send_into<T: Copy>(s: &mut RingState<T>, side: bool, values: &[T], n: usize) -> (r: Result<usize, ()>)
    requires
        old(s).wf(n as nat),
    ensures
        final(s).wf(n as nat),
        final(s).other(side) == old(s).other(side),
        ({
            let len = fwd(
                old(s).own(side),
                if fwd(old(s).own(side), old(s).copy(side), n as int) > values@.len() {
                    old(s).copy(side)
                } else {
                    old(s).other(side)
                },
                n as int,
            );
            &&& r is Err <==> len <= values@.len()
            &&& r matches Ok(room) ==> {
                &&& room == len - values@.len() - 1
                &&& final(s).own(side) == slot(old(s).own(side), values@.len() as int, n as int)
                &&& fwd(old(s).other(side), final(s).own(side), n as int) == fwd(
                    old(s).other(side),
                    old(s).own(side),
                    n as int,
                ) + values@.len()
                &&& forall|k: int|
                    0 <= k < values@.len() ==> #[trigger] final(s).slots()[slot(
                        old(s).own(side),
                        k,
                        n as int,
                    )] == values@[k]
            }
            &&& r is Err ==> final(s).own(side) == old(s).own(side) && final(s).slots() == old(s).slots()
        }),
        r is Err <==> fwd(old(s).own(side), old(s).other(side), n as int) <= values@.len(),
{
    let ghost s0 = *s;
    let iter_len = values.len();
    let request = if iter_len < n {
        iter_len + 1
    } else {
        n
    };
    let len = refresh_region(s, side, request, n);
    if len <= iter_len {
        return Err(());
    }
    let ghost s1 = *s;
    write_front(s, side, values, n);
    let ghost s2 = *s;
    let released = release_front(s, side, iter_len, n);
    proof {
        let p = s0.own(side) as int;
        let q = s0.other(side) as int;
        let nn = n as int;
        assert(released is Ok);
        if iter_len + p < nn {
            vstd::arithmetic::div_mod::lemma_small_mod((p + iter_len) as nat, n as nat);
        } else {
            vstd::arithmetic::div_mod::lemma_mod_sub_multiples_vanish(p + iter_len, nn);
            vstd::arithmetic::div_mod::lemma_small_mod((p + iter_len - nn) as nat, n as nat);
        }
        assert(s.own(side) == slot(p, iter_len as int, nn));
        assert forall|k: int| 0 <= k < values@.len() implies #[trigger] s.data@[slot(p, k, nn)] == values@[k] by {
            assert(fwd(p, slot(p, k, nn), nn) == k);
            assert(s2.data@[slot(p, k, nn)] == values@[k]);
        }
    }
    Ok(len - iter_len - 1)
}

/// Going `a` and then `b` slots forward is going `a + b` slots forward.
proof fn lemma_slot(p: int, a: int, b: int, n: int)
    requires
        0 <= p < n,
        0 <= a,
        0 <= b,
        a + b < n,
    ensures
        0 <= slot(p, a, n) < n,
        fwd(p, slot(p, a, n), n) == a,
        slot(slot(p, a, n), b, n) == slot(p, a + b, n),
{
}

/// Receiving `len` samples into `side` with `skip` slots to drop: where the
/// other half starts as `side` sees it at first, having looked again if its
/// region cannot hold the slots to drop, the samples and one kept slot.
pub open spec fn rx_first_copy<T>(s: RingState<T>, side: bool, skip: int, len: int, n: int) -> int {
    seen_after(s, side, len + skip + 1, n)
}

/// The slots dropped: as many of `skip` as the region holds, always keeping
/// one slot.
pub open spec fn rx_dropped<T>(s: RingState<T>, side: bool, skip: int, len: int, n: int) -> int {
    let l1 = fwd(s.own(side), rx_first_copy(s, side, skip, len, n), n);
    if skip == 0 {
        0
    } else if skip < l1 - 1 {
        skip
    } else {
        l1 - 1
    }
}

/// The slot from which samples are played, past the dropped ones.
pub open spec fn rx_start<T>(s: RingState<T>, side: bool, skip: int, len: int, n: int) -> int {
    slot(s.own(side), rx_dropped(s, side, skip, len, n), n)
}

/// Some of `skip` is left after dropping: nothing is played.
pub open spec fn rx_starved<T>(s: RingState<T>, side: bool, skip: int, len: int, n: int) -> bool {
    skip - rx_dropped(s, side, skip, len, n) > 0
}

/// Where the other half starts as `side` sees it when it plays: after the
/// drop it looks again if the rest of its region cannot hold `len` samples
/// and one kept slot.
pub open spec fn rx_copy<T>(s: RingState<T>, side: bool, skip: int, len: int, n: int) -> int {
    let c1 = rx_first_copy(s, side, skip, len, n);
    if skip == 0 || rx_starved(s, side, skip, len, n) {
        c1
    } else if fwd(rx_start(s, side, skip, len, n), c1, n) >= len + 1 {
        c1
    } else {
        s.other(side)
    }
}

/// The region that the samples are played from.
pub open spec fn rx_region<T>(s: RingState<T>, side: bool, skip: int, len: int, n: int) -> int {
    fwd(rx_start(s, side, skip, len, n), rx_copy(s, side, skip, len, n), n)
}

/// How many samples are played: as many as the region holds, up to `len`.
pub open spec fn rx_count<T>(s: RingState<T>, side: bool, skip: int, len: int, n: int) -> int {
    let r = rx_region(s, side, skip, len, n);
    if rx_starved(s, side, skip, len, n) {
        0
    } else if r < len {
        r
    } else {
        len
    }
}

/// How many slots are handed back after playing: those played, but for the
/// last slot of the region, which is kept.
pub open spec fn rx_consumed<T>(s: RingState<T>, side: bool, skip: int, len: int, n: int) -> int {
    let c = rx_count(s, side, skip, len, n);
    let r = rx_region(s, side, skip, len, n);
    if rx_starved(s, side, skip, len, n) {
        0
    } else if c < r - 1 {
        c
    } else {
        r - 1
    }
}

/// The slots to drop next time: what is left of `skip`, the kept slot when
/// it was played, and one for each place that got the equilibrium value.
pub open spec fn rx_new_skip<T>(s: RingState<T>, side: bool, skip: int, len: int, n: int) -> int {
    let c = rx_count(s, side, skip, len, n);
    if rx_starved(s, side, skip, len, n) {
        skip - rx_dropped(s, side, skip, len, n) + len
    } else {
        (if c == rx_region(s, side, skip, len, n) {
            1int
        } else {
            0int
        }) + len - c
    }
}

/// `out` is what `side` plays from the ring `s` with `skip` slots to drop:
/// the samples of the region in order, then `equilibrium`; `new_skip` is
/// what it has to drop next time.
pub open spec fn received<T>(
    s: RingState<T>,
    side: bool,
    skip: int,
    len: int,
    out: Seq<T>,
    equilibrium: T,
    new_skip: int,
    n: int,
) -> bool {
    &&& out.len() == len
    &&& new_skip == rx_new_skip(s, side, skip, len, n)
    &&& forall|k: int|
        0 <= k < len ==> #[trigger] out[k] == (if k < rx_count(s, side, skip, len, n) {
            s.slots()[slot(rx_start(s, side, skip, len, n), k, n)]
        } else {
            equilibrium
        })
}

/// What `side` plays into `dst`: it first drops up to `skip` slots from the
/// front of its region, always keeping one; if some of `skip` is left, `dst`
/// is all `equilibrium`. Otherwise `dst` starts with the slots that follow,
/// as many as the region holds, and the rest is `equilibrium`. The slots read
/// are handed back to the other half but for the last one, which is dropped
/// next time. The skip that is returned counts the slots still to be dropped:
/// what is left of `skip`, one for a kept slot, and one for each place of
/// `dst` that got `equilibrium`.
#[verifier::rlimit(100)]
#[verifier::spinoff_prover]
pub fn receive_into<T: Copy>(s: &mut RingState<T>, side: bool, skip: usize, dst: &mut [T], equilibrium: T, n: usize) -> (new_skip: usize)
    requires
        old(s).wf(n as nat),
        skip + old(dst)@.len() + 1 <= usize::MAX,
    ensures
        final(s).wf(n as nat),
        final(s).slots() == old(s).slots(),
        final(s).other(side) == old(s).other(side),
        final(s).copy(!side) == old(s).copy(!side),
        final(s).copy(side) == rx_copy(*old(s), side, skip as int, old(dst)@.len() as int, n as int),
        final(s).own(side) == slot(
            rx_start(*old(s), side, skip as int, old(dst)@.len() as int, n as int),
            rx_consumed(*old(s), side, skip as int, old(dst)@.len() as int, n as int),
            n as int,
        ),
        received(*old(s), side, skip as int, old(dst)@.len() as int, final(dst)@, equilibrium, new_skip as int, n as int),
{
    let ghost s0 = *s;
    let ghost d0 = dst@;
    let ghost p0 = s0.own(side);
    let ghost q = s0.other(side);
    let ghost nn = n as int;
    let ghost old_skip = skip as int;
    let ghost len = d0.len() as int;
    let mut skip = skip;
    let mut data_len = refresh_region(s, side, dst.len() + skip + 1, n);
    let ghost c1 = s.copy(side);
    assert(c1 == rx_first_copy(s0, side, old_skip, len, nn));
    let mut dropped: usize = 0;
    if skip != 0 {
        dropped = if skip < data_len - 1 {
            skip
        } else {
            data_len - 1
        };
        skip = skip - dropped;
        let released = release_front(s, side, dropped, n);
        proof {
            assert(dropped == rx_dropped(s0, side, old_skip, len, nn));
            assert(released is Ok);
            if p0 + dropped < nn {
                vstd::arithmetic::div_mod::lemma_small_mod((p0 + dropped) as nat, n as nat);
            } else {
                vstd::arithmetic::div_mod::lemma_mod_sub_multiples_vanish(p0 + dropped, nn);
                vstd::arithmetic::div_mod::lemma_small_mod((p0 + dropped - nn) as nat, n as nat);
            }
            lemma_slot(p0, dropped as int, 0, nn);
            assert(s.own(side) == rx_start(s0, side, old_skip, len, nn));
            assert(s.copy(side) == c1);
        }
        if skip != 0 {
            let mut k: usize = 0;
            while k < dst.len()
                invariant
                    k <= dst@.len(),
                    dst@.len() == d0.len(),
                    forall|j: int| 0 <= j < k ==> #[trigger] dst@[j] == equilibrium,
                decreases dst@.len() - k,
            {
                dst[k] = equilibrium;
                k = k + 1;
            }
            proof {
                assert(rx_starved(s0, side, old_skip, len, nn));
                assert(rx_count(s0, side, old_skip, len, nn) == 0);
                assert(rx_consumed(s0, side, old_skip, len, nn) == 0);
                lemma_slot(s.own(side), 0, 0, nn);
            }
            return skip + dst.len();
        }
        data_len = refresh_region(s, side, dst.len() + 1, n);
    }
    let ghost p1 = s.own(side);
    proof {
        assert(p1 == slot(p0, dropped as int, nn)) by {
            if dropped == 0 {
                vstd::arithmetic::div_mod::lemma_small_mod(p0 as nat, n as nat);
            }
        }
        lemma_slot(p0, dropped as int, 0, nn);
        assert(dropped == rx_dropped(s0, side, old_skip, len, nn));
        assert(!rx_starved(s0, side, old_skip, len, nn));
        assert(p1 == rx_start(s0, side, old_skip, len, nn));
        assert(s.copy(side) == rx_copy(s0, side, old_skip, len, nn));
        assert(data_len == rx_region(s0, side, old_skip, len, nn));
    }
    let count = if data_len < dst.len() {
        data_len
    } else {
        dst.len()
    };
    read_front(s, side, dst, count, n);
    let ghost d1 = dst@;
    if count == data_len {
        skip = skip + 1;
    }
    let consumed = if count < data_len - 1 {
        count
    } else {
        data_len - 1
    };
    let ghost c2 = s.copy(side);
    let released = release_front(s, side, consumed, n);
    proof {
        assert(released is Ok);
        if p1 + consumed < nn {
            vstd::arithmetic::div_mod::lemma_small_mod((p1 + consumed) as nat, n as nat);
        } else {
            vstd::arithmetic::div_mod::lemma_mod_sub_multiples_vanish(p1 + consumed, nn);
            vstd::arithmetic::div_mod::lemma_small_mod((p1 + consumed - nn) as nat, n as nat);
        }
        assert(s.copy(side) == c2);
        assert(consumed == rx_consumed(s0, side, old_skip, len, nn));
    }
    let mut k: usize = count;
    while k < dst.len()
        invariant
            count <= k <= dst@.len(),
            dst@.len() == d0.len(),
            forall|j: int| 0 <= j < count ==> #[trigger] dst@[j] == d1[j],
            forall|j: int| count <= j < k ==> #[trigger] dst@[j] == equilibrium,
        decreases dst@.len() - k,
    {
        dst[k] = equilibrium;
        k = k + 1;
    }
    proof {
        assert(count == rx_count(s0, side, old_skip, len, nn));
        assert(skip + (dst.len() - count) == rx_new_skip(s0, side, old_skip, len, nn));
        assert forall|j: int| 0 <= j < len implies #[trigger] dst@[j] == (if j < count {
            s0.slots()[slot(p1, j, nn)]
        } else {
            equilibrium
        }) by {
            if j < count {
                assert(dst@[j] == d1[j]);
            }
        }
    }
    skip + (dst.len() - count)
}

/// An underrun keeps time: when `side` has at least as many slots to drop
/// as it owns, it drops all of them but the last, plays only `equilibrium`,
/// and owes what it could not drop plus one slot for every place it filled,
/// so that the samples that arrive late are dropped and later ones play on
/// time.
pub proof fn lemma_underrun_owes_every_padded_place<T>(
    b: RingState<T>,
    a: RingState<T>,
    side: bool,
    skip: int,
    len: int,
    out: Seq<T>,
    equilibrium: T,
    new_skip: int,
    n: nat,
)
    requires
        b.wf(n),
        0 <= len,
        skip >= fwd(b.own(side), b.other(side), n as int),
        a.own(side) == slot(rx_start(b, side, skip, len, n as int), rx_consumed(b, side, skip, len, n as int), n as int),
        received(b, side, skip, len, out, equilibrium, new_skip, n as int),
    ensures
        forall|k: int| 0 <= k < len ==> #[trigger] out[k] == equilibrium,
        fwd(b.own(side), a.own(side), n as int) == fwd(b.own(side), b.other(side), n as int) - 1,
        new_skip == skip - fwd(b.own(side), a.own(side), n as int) + len,
{
    lemma_ring_shape(b, n);
    let p = b.own(side);
    let owned = fwd(p, b.other(side), n as int);
    assert(owned >= 1);
    assert(rx_first_copy(b, side, skip, len, n as int) == b.other(side));
    assert(rx_dropped(b, side, skip, len, n as int) == owned - 1);
    assert(rx_starved(b, side, skip, len, n as int));
    lemma_slot(p, owned - 1, 0, n as int);
    assert(a.own(side) == slot(p, owned - 1, n as int));
}

/// Playing keeps order: when `side` owns more slots than it has to drop
/// and places to fill together, it drops exactly `skip` slots, plays the
/// `len` samples that follow them in order, hands all of those slots over,
/// and owes nothing.
pub proof fn lemma_drops_then_plays_in_order<T>(
    b: RingState<T>,
    a: RingState<T>,
    side: bool,
    skip: int,
    len: int,
    out: Seq<T>,
    equilibrium: T,
    new_skip: int,
    n: nat,
)
    requires
        b.wf(n),
        0 <= skip,
        0 <= len,
        fwd(b.own(side), b.other(side), n as int) > skip + len,
        a.own(side) == slot(rx_start(b, side, skip, len, n as int), rx_consumed(b, side, skip, len, n as int), n as int),
        received(b, side, skip, len, out, equilibrium, new_skip, n as int),
    ensures
        forall|k: int| 0 <= k < len ==> #[trigger] out[k] == b.slots()[slot(b.own(side), skip + k, n as int)],
        a.own(side) == slot(b.own(side), skip + len, n as int),
        new_skip == 0,
{
    lemma_ring_shape(b, n);
    let p = b.own(side);
    let nn = n as int;
    let l1 = fwd(p, rx_first_copy(b, side, skip, len, nn), nn);
    assert(l1 >= skip + len + 1);
    assert(rx_dropped(b, side, skip, len, nn) == skip);
    lemma_slot(p, skip, len, nn);
    let start = rx_start(b, side, skip, len, nn);
    assert(start == slot(p, skip, nn));
    assert(!rx_starved(b, side, skip, len, nn));
    lemma_slot(p, skip, 0, nn);
    assert(fwd(start, rx_first_copy(b, side, skip, len, nn), nn) == l1 - skip) by {
        assert(fwd(p, start, nn) == skip);
    }
    assert(rx_copy(b, side, skip, len, nn) == rx_first_copy(b, side, skip, len, nn));
    assert(rx_region(b, side, skip, len, nn) == l1 - skip);
    assert(rx_count(b, side, skip, len, nn) == len);
    assert(rx_consumed(b, side, skip, len, nn) == len);
    assert forall|k: int| 0 <= k < len implies #[trigger] out[k] == b.slots()[slot(p, skip + k, nn)] by {
        lemma_slot(p, skip, k, nn);
        assert(out[k] == (if k < rx_count(b, side, skip, len, nn) {
            b.slots()[slot(start, k, nn)]
        } else {
            equilibrium
        }));
    }
}

/// A short region keeps time too: when `side` owns more slots than it has
/// to drop but not more than it has to drop and fill, it drops exactly
/// `skip`, plays every sample after them in order and `equilibrium` in the
/// places left, keeps the last slot it played, and owes that slot plus one
/// for every place it filled with `equilibrium`.
pub proof fn lemma_short_region_owes_padding<T>(
    b: RingState<T>,
    a: RingState<T>,
    side: bool,
    skip: int,
    len: int,
    out: Seq<T>,
    equilibrium: T,
    new_skip: int,
    n: nat,
)
    requires
        b.wf(n),
        0 <= skip,
        skip < fwd(b.own(side), b.other(side), n as int) <= skip + len,
        a.own(side) == slot(rx_start(b, side, skip, len, n as int), rx_consumed(b, side, skip, len, n as int), n as int),
        received(b, side, skip, len, out, equilibrium, new_skip, n as int),
    ensures
        ({
            let played = fwd(b.own(side), b.other(side), n as int) - skip;
            &&& forall|k: int| 0 <= k < played ==> #[trigger] out[k] == b.slots()[slot(b.own(side), skip + k, n as int)]
            &&& forall|k: int| played <= k < len ==> #[trigger] out[k] == equilibrium
            &&& a.own(side) == slot(b.own(side), skip + played - 1, n as int)
            &&& new_skip == len - played + 1
        }),
{
    lemma_ring_shape(b, n);
    let p = b.own(side);
    let nn = n as int;
    let owned = fwd(p, b.other(side), nn);
    let played = owned - skip;
    assert(rx_first_copy(b, side, skip, len, nn) == b.other(side));
    assert(rx_dropped(b, side, skip, len, nn) == skip);
    lemma_slot(p, skip, played - 1, nn);
    lemma_slot(p, skip, 0, nn);
    let start = rx_start(b, side, skip, len, nn);
    assert(start == slot(p, skip, nn));
    assert(!rx_starved(b, side, skip, len, nn));
    assert(fwd(start, b.other(side), nn) == played) by {
        assert(fwd(p, start, nn) == skip);
    }
    assert(rx_copy(b, side, skip, len, nn) == b.other(side));
    assert(rx_region(b, side, skip, len, nn) == played);
    assert(rx_count(b, side, skip, len, nn) == played);
    assert(rx_consumed(b, side, skip, len, nn) == played - 1);
    assert forall|k: int| 0 <= k < played implies #[trigger] out[k] == b.slots()[slot(p, skip + k, nn)] by {
        lemma_slot(p, skip, k, nn);
        assert(out[k] == b.slots()[slot(start, k, nn)]);
    }
    assert forall|k: int| played <= k < len implies #[trigger] out[k] == equilibrium by {
        assert(out[k] == (if k < rx_count(b, side, skip, len, nn) {
            b.slots()[slot(start, k, nn)]
        } else {
            equilibrium
        }));
    }
}

/// The queue hands samples over in order: when the receiving (left) half
/// holds nothing but the slot it played last, a send of `values` followed by
/// a receive of as many samples, with that last slot to drop, plays exactly
/// `values` and then owes only the slot it plays last.
pub proof fn lemma_sent_samples_play_in_order<T>(
    s0: RingState<T>,
    s1: RingState<T>,
    values: Seq<T>,
    room: usize,
    out: Seq<T>,
    equilibrium: T,
    new_skip: int,
    n: nat,
)
    requires
        s0.wf(n),
        s1.wf(n),
        fwd(s0.own(false), s0.own(true), n as int) == 1,
        values.len() >= 1,
        send_step(s0, s1, true, values, Ok(room), n as int),
        received(s1, false, 1, values.len() as int, out, equilibrium, new_skip, n as int),
    ensures
        out == values,
        new_skip == 1,
{
    lemma_ring_shape(s0, n);
    lemma_ring_shape(s1, n);
    let nn = n as int;
    let v = values.len() as int;
    let p = s0.own(false);
    let q = s0.own(true);
    lemma_slot(p, 1, 0, nn);
    assert(q == slot(p, 1, nn));
    assert(fwd(q, p, nn) == nn - 1);
    assert(v < nn - 1);
    lemma_slot(p, 1, v, nn);
    assert(s1.own(false) == p);
    assert(s1.own(true) == slot(p, 1 + v, nn));
    assert(fwd(p, s1.other(false), nn) == 1 + v);
    assert(rx_first_copy(s1, false, 1, v, nn) == s1.other(false));
    assert(rx_dropped(s1, false, 1, v, nn) == 1);
    let start = rx_start(s1, false, 1, v, nn);
    assert(start == q);
    assert(!rx_starved(s1, false, 1, v, nn));
    assert(fwd(start, s1.other(false), nn) == v) by {
        lemma_slot(p, 1, v, nn);
    }
    assert(rx_copy(s1, false, 1, v, nn) == s1.other(false));
    assert(rx_region(s1, false, 1, v, nn) == v);
    assert(rx_count(s1, false, 1, v, nn) == v);
    assert forall|k: int| 0 <= k < v implies #[trigger] out[k] == values[k] by {
        assert(out[k] == s1.slots()[slot(q, k, nn)]);
    }
    assert(out =~= values);
}

/// A send fails exactly when the sending half owns no more slots than it
/// sends, and then changes no slot; otherwise it hands the values over, so
/// that the other half's region grows by their number.
pub proof fn lemma_send_hands_over<T>(b: RingState<T>, a: RingState<T>, side: bool, values: Seq<T>, r: Result<usize, ()>, n: nat)
    requires
        b.wf(n),
        a.wf(n),
        send_step(b, a, side, values, r, n as int),
    ensures
        fwd(b.own(side), b.own(!side), n as int) > values.len() ==> r is Ok,
        fwd(b.own(side), b.own(!side), n as int) <= values.len() ==> r is Err && a.slots() == b.slots() && a.own(side) == b.own(
            side,
        ),
        r is Ok ==> fwd(a.own(!side), a.own(side), n as int) == fwd(b.own(!side), b.own(side), n as int) + values.len(),
{
    lemma_ring_shape(b, n);
    lemma_ring_shape(a, n);
    if r is Ok {
        let p = b.own(side);
        let q = b.own(!side);
        let nn = n as int;
        let v = values.len() as int;
        assert(fwd(p, q, nn) > v);
        lemma_slot(p, v, 0, nn);
        assert(a.own(!side) == q);
        assert(fwd(q, p, nn) + fwd(p, q, nn) == nn);
        assert(fwd(q, slot(p, v, nn), nn) == fwd(q, p, nn) + v);
    }
}

/// Releasing hands slots over: it succeeds exactly when nothing is released
/// or a slot of the releasing half's region remains, and then the other
/// half's region grows by `len`; otherwise no slot changes hands.
pub proof fn lemma_release_hands_over<T>(b: RingState<T>, a: RingState<T>, side: bool, len: int, r: Result<(), ()>, n: nat)
    requires
        b.wf(n),
        a.wf(n),
        0 <= len,
        release_step(b, a, side, len, r, n as int),
    ensures
        r is Ok <==> (len == 0 || len < fwd(b.own(side), b.own(!side), n as int)),
        r is Ok ==> fwd(a.own(!side), a.own(side), n as int) == fwd(b.own(!side), b.own(side), n as int) + len,
        r is Err ==> a.own(side) == b.own(side) && a.own(!side) == b.own(!side),
{
    lemma_ring_shape(b, n);
    lemma_ring_shape(a, n);
    if r is Ok {
        let p = b.own(side);
        let q = b.own(!side);
        let nn = n as int;
        if len > 0 {
            assert(len < fwd(p, q, nn));
            lemma_slot(p, len, 0, nn);
            if p + len < nn {
                vstd::arithmetic::div_mod::lemma_small_mod((p + len) as nat, n);
            } else {
                vstd::arithmetic::div_mod::lemma_mod_sub_multiples_vanish(p + len, nn);
                vstd::arithmetic::div_mod::lemma_small_mod((p + len - nn) as nat, n);
            }
            assert(a.own(side) == slot(p, len, nn));
            assert(fwd(q, p, nn) + fwd(p, q, nn) == nn);
        } else {
            vstd::arithmetic::div_mod::lemma_small_mod(p as nat, n);
        }
    }
}

/// A power of two.
pub open spec fn is_power_of_two(n: nat) -> bool
    decreases n,
{
    if n <= 1 {
        n == 1
    } else {
        n % 2 == 0 && is_power_of_two(n / 2)
    }
}

/// One half of a ring of `N` slots that two threads share: each half owns a
/// region of slots and hands the front of it over to the other half. Both
/// halves work on the ring under one lock.
#[verifier::reject_recursive_types(T)]
pub struct SplitOwnershipArray<T, const N: usize> {
    inner: Arc<RwLock<RingState<T>, spec_fn(RingState<T>) -> bool>>,
    primary_index: bool,
}

/// Copies the region of `len` slots from the first slot of `side`, split
/// where it wraps around the end of the ring: the slots up to the end of the
/// ring, then the slots from its start.
pub fn copy_region<T: Copy>(s: &RingState<T>, side: bool, len: usize, n: usize) -> (r: [Vec<T>; 2])
    requires
        s.wf(n as nat),
        len < n,
    ensures
        r[0]@.len() == (if len <= n - s.own(side) {
            len as int
        } else {
            n - s.own(side)
        }),
        r[0]@.len() + r[1]@.len() == len,
        forall|k: int| 0 <= k < r[0]@.len() ==> #[trigger] r[0]@[k] == s.slots()[slot(s.own(side), k, n as int)],
        forall|k: int|
            0 <= k < r[1]@.len() ==> #[trigger] r[1]@[k] == s.slots()[slot(s.own(side), r[0]@.len() + k, n as int)],
{
    let p = if side {
        s.index_right
    } else {
        s.index_left
    };
    let first = if len <= n - p {
        len
    } else {
        n - p
    };
    let mut a: Vec<T> = Vec::new();
    let mut b: Vec<T> = Vec::new();
    let mut k: usize = 0;
    while k < len
        invariant
            s.wf(n as nat),
            p == s.own(side),
            len < n,
            first == (if len <= n - p {
                len as int
            } else {
                n - p
            }),
            k <= len,
            a@.len() == if k < first {
                k as int
            } else {
                first as int
            },
            b@.len() == if k < first {
                0
            } else {
                k - first
            },
            forall|j: int| 0 <= j < a@.len() ==> #[trigger] a@[j] == s.data@[slot(p as int, j, n as int)],
            forall|j: int| 0 <= j < b@.len() ==> #[trigger] b@[j] == s.data@[slot(p as int, first + j, n as int)],
        decreases len - k,
    {
        let i = if k < n - p {
            p + k
        } else {
            k - (n - p)
        };
        if k < first {
            a.push(s.data[i]);
        } else {
            b.push(s.data[i]);
        }
        k = k + 1;
    }
    [a, b]
}

/// Copying the region of `side` out of the ring: the ring goes from `b` to
/// `a`, which differ only in where `side` believes the other half starts,
/// after looking again when its region is shorter than `request`; `x` and `y`
/// are the slots of the region it then believes it owns, split where the
/// ring wraps.
pub open spec fn copy_step<T>(b: RingState<T>, a: RingState<T>, side: bool, request: int, x: Seq<T>, y: Seq<T>, n: int) -> bool {
    let p = b.own(side);
    let len = fwd(p, a.copy(side), n);
    &&& a.slots() == b.slots()
    &&& a.own(false) == b.own(false)
    &&& a.own(true) == b.own(true)
    &&& a.copy(!side) == b.copy(!side)
    &&& a.copy(side) == seen_after(b, side, request, n)
    &&& x.len() == (if len <= n - p {
        len
    } else {
        n - p
    })
    &&& x.len() + y.len() == len
    &&& forall|k: int| 0 <= k < x.len() ==> #[trigger] x[k] == b.slots()[slot(p, k, n)]
    &&& forall|k: int| 0 <= k < y.len() ==> #[trigger] y[k] == b.slots()[slot(p, x.len() + k, n)]
}

/// Writing `values` at the front of the region of `side`: the ring goes from
/// `b` to `a`; `r` tells whether they fit in the region `side` believes it
/// owns, and only then are they written.
pub open spec fn write_step<T>(b: RingState<T>, a: RingState<T>, side: bool, values: Seq<T>, r: bool, n: int) -> bool {
    let p = b.own(side);
    &&& a.own(false) == b.own(false)
    &&& a.own(true) == b.own(true)
    &&& a.copy(false) == b.copy(false)
    &&& a.copy(true) == b.copy(true)
    &&& r == (values.len() <= fwd(p, b.copy(side), n))
    &&& a.slots().len() == b.slots().len()
    &&& forall|i: int|
        0 <= i < n ==> #[trigger] a.slots()[i] == (if r && fwd(p, i, n) < values.len() {
            values[fwd(p, i, n)]
        } else {
            b.slots()[i]
        })
}

/// Handing the first `len` slots of `side` over: the ring goes from `b` to
/// `a`; it succeeds exactly when nothing is handed over or a slot of the
/// region `side` owns remains, and then the first slot of `side` moves
/// forward by `len`; otherwise nothing moves.
pub open spec fn release_step<T>(b: RingState<T>, a: RingState<T>, side: bool, len: int, r: Result<(), ()>, n: int) -> bool {
    &&& a.slots() == b.slots()
    &&& a.other(side) == b.other(side)
    &&& a.copy(!side) == b.copy(!side)
    &&& r is Ok <==> (len == 0 || len < fwd(b.own(side), b.other(side), n))
    &&& r is Ok ==> a.own(side) == (b.own(side) + len) % n
    &&& r is Err ==> a.own(side) == b.own(side)
}

/// Sending `values` from `side`: the ring goes from `b` to `a`. It fails,
/// changing no slot, exactly when the region `side` owns has no room for
/// `values` and one slot more; otherwise `values` fill the front of that
/// region, in order, and are handed over, and the room left less one slot,
/// as `side` sees it, is returned.
pub open spec fn send_step<T>(b: RingState<T>, a: RingState<T>, side: bool, values: Seq<T>, r: Result<usize, ()>, n: int) -> bool {
    let p = b.own(side);
    &&& a.other(side) == b.other(side)
    &&& r is Err <==> fwd(p, b.other(side), n) <= values.len()
    &&& r is Err ==> a.own(side) == p && a.slots() == b.slots()
    &&& r matches Ok(room) ==> {
        &&& room == fwd(p, seen_after(b, side, values.len() + 1int, n), n) - values.len() - 1
        &&& a.own(side) == slot(p, values.len() as int, n)
        &&& forall|k: int| 0 <= k < values.len() ==> #[trigger] a.slots()[slot(p, k, n)] == values[k]
    }
}

impl<T, const N: usize> SplitOwnershipArray<T, N> {
    #[verifier::type_invariant]
    spec fn shares_ring(self) -> bool {
        forall|s: RingState<T>| #[trigger] self.inner.inv(s) == s.wf(N as nat)
    }

    /// Whether this is the half that owns the first slot of a new ring.
    pub closed spec fn is_left(&self) -> bool {
        !self.primary_index
    }

    /// Whether this is the other half, the one that owns all but the first
    /// slot of a new ring.
    pub closed spec fn is_right(&self) -> bool {
        self.primary_index
    }

    /// Whether both halves work on the same ring.
    pub closed spec fn same_ring(&self, other: &SplitOwnershipArray<T, N>) -> bool {
        self.inner == other.inner
    }

    /// The two halves of a new ring whose slots are made by `initializer`:
    /// the left half owns the first slot, the right half all others.
    pub fn new<F: Fn() -> T>(initializer: F) -> (r: (SplitOwnershipArray<T, N>, SplitOwnershipArray<T, N>))
        requires
            is_power_of_two(N as nat),
            N >= 2,
            forall|| #[trigger] call_requires(initializer, ()),
        ensures
            r.0.is_left(),
            !r.1.is_left(),
            r.0.same_ring(&r.1),
    {
        let shared = RingState::new(N, initializer);
        let pred = Ghost(|s: RingState<T>| s.wf(N as nat));
        let inner = Arc::new(RwLock::new(shared, pred));
        let left = SplitOwnershipArray { inner: Arc::clone(&inner), primary_index: false };
        let right = SplitOwnershipArray { inner, primary_index: true };
        (left, right)
    }

    /// Copies of the region this half owns, split where it wraps around the
    /// end of the ring. When the region this half last saw is shorter than
    /// `request_len`, it first looks again at where the other half starts.
    /// The regions are copied out because the slots stay under the lock; the
    /// other half works on the ring between calls, so the contract speaks of
    /// the ring as this call found it.
    pub fn get_slice_mut(&mut self, request_len: usize) -> (r: [Vec<T>; 2])
        where T: Copy
        ensures
            final(self).is_left() == old(self).is_left(),
            final(self).same_ring(old(self)),
            exists|b: RingState<T>, a: RingState<T>|
                b.wf(N as nat) && a.wf(N as nat) && #[trigger] copy_step(
                    b,
                    a,
                    old(self).is_right(),
                    request_len as int,
                    r[0]@,
                    r[1]@,
                    N as int,
                ),
    {
        proof {
            use_type_invariant(&*self);
        }
        let (mut s, handle) = self.inner.acquire_write();
        let ghost b = s;
        let len = refresh_region(&mut s, self.primary_index, request_len, N);
        let r = copy_region(&s, self.primary_index, len, N);
        assert(b.wf(N as nat) && s.wf(N as nat) && copy_step(b, s, old(self).is_right(), request_len as int, r[0]@, r[1]@, N as int));
        handle.release_write(s);
        r
    }

    /// Writes `values` into the front of the region this half last saw, and
    /// tells whether they fitted; nothing is written when they do not.
    pub fn write_slice(&mut self, values: &[T]) -> (r: bool)
        where T: Copy
        ensures
            final(self).is_left() == old(self).is_left(),
            final(self).same_ring(old(self)),
            values@.len() >= N ==> !r,
            values@.len() <= 1 ==> r,
            exists|b: RingState<T>, a: RingState<T>|
                b.wf(N as nat) && a.wf(N as nat) && #[trigger] write_step(b, a, old(self).is_right(), values@, r, N as int),
    {
        proof {
            use_type_invariant(&*self);
        }
        let (mut s, handle) = self.inner.acquire_write();
        let ghost b = s;
        let p = if self.primary_index {
            s.index_right
        } else {
            s.index_left
        };
        let c = if self.primary_index {
            s.copy_right
        } else {
            s.copy_left
        };
        let len = if p <= c {
            c - p
        } else {
            N - p + c
        };
        let fitted = values.len() <= len;
        if fitted {
            write_front(&mut s, self.primary_index, values, N);
        }
        assert(b.wf(N as nat) && s.wf(N as nat) && write_step(b, s, old(self).is_right(), values@, fitted, N as int));
        handle.release_write(s);
        fitted
    }

    /// Hands the first `len` slots of this half's region to the other half.
    /// Fails, changing nothing, unless a slot would remain: when `len` is
    /// too large for the region this half last saw, it looks again at where
    /// the other half starts before it gives up.
    pub fn release_array(&mut self, len: usize) -> (r: Result<(), ()>)
        ensures
            final(self).is_left() == old(self).is_left(),
            final(self).same_ring(old(self)),
            len == 0 ==> r is Ok,
            len > N - 2 ==> r is Err,
            exists|b: RingState<T>, a: RingState<T>|
                b.wf(N as nat) && a.wf(N as nat) && #[trigger] release_step(b, a, old(self).is_right(), len as int, r, N as int),
    {
        proof {
            use_type_invariant(&*self);
        }
        let (mut s, handle) = self.inner.acquire_write();
        let ghost b = s;
        let r = release_front(&mut s, self.primary_index, len, N);
        assert(b.wf(N as nat) && s.wf(N as nat) && release_step(b, s, old(self).is_right(), len as int, r, N as int));
        handle.release_write(s);
        r
    }
}

#[verifier::external_type_specification]
#[verifier::external_body]
#[verifier::reject_recursive_types(T)]
pub struct ExArrayQueue<T>(ArrayQueue<T>);

/// `ArrayQueue::new(1)`: an empty queue that holds at most one value. The
/// crate panics only for a capacity of zero.
#[verifier::external_body]
fn new_handoff<T>() -> ArrayQueue<T> {
    ArrayQueue::new(1)
}

/// `ArrayQueue::force_push`: puts `value` into the queue, pushing out the
/// oldest value when the queue is full. The queue is shared with another
/// thread, so nothing is promised of what is pushed out.
#[verifier::external_body]
fn force_push<T>(queue: &ArrayQueue<T>, value: T) -> Option<T> {
    queue.force_push(value)
}

/// `ArrayQueue::pop`: takes the oldest value out of the queue, if there is
/// one. The queue is shared with another thread, so nothing is promised of
/// what comes out.
#[verifier::external_body]
fn pop<T>(queue: &ArrayQueue<T>) -> Option<T> {
    queue.pop()
}

/// The number of slots of the ring behind a signal queue.
pub const QUEUE_SIZE: usize = 65536;

/// The end of a signal queue that audio samples are sent into. It always
/// holds the right half of its ring; `generation` counts the rings it has
/// started after the first.
#[verifier::reject_recursive_types(T)]
pub struct SignalQueueSender<T> {
    array: SplitOwnershipArray<T, QUEUE_SIZE>,
    new_array: Arc<ArrayQueue<SplitOwnershipArray<T, QUEUE_SIZE>>>,
    equilibrium: T,
    generation: Ghost<nat>,
}

/// The end of a signal queue that audio samples are played from;
/// `generation` counts the rings it has moved to after the first.
#[verifier::reject_recursive_types(T)]
pub struct SignalQueueReceiver<T> {
    skip: usize,
    array: SplitOwnershipArray<T, QUEUE_SIZE>,
    new_array: Arc<ArrayQueue<SplitOwnershipArray<T, QUEUE_SIZE>>>,
    equilibrium: T,
    generation: Ghost<nat>,
}

/// `QUEUE_SIZE` is a power of two.
proof fn lemma_queue_size_power_of_two()
    ensures
        is_power_of_two(QUEUE_SIZE as nat),
{
    reveal_with_fuel(is_power_of_two, 17);
}

impl<T> SignalQueueSender<T> {
    #[verifier::type_invariant]
    spec fn holds_right_half(self) -> bool {
        self.array.primary_index
    }
}

impl<T: Copy> SignalQueueSender<T> {
    /// The value that the slots of a new ring hold.
    pub closed spec fn equilibrium(&self) -> T {
        self.equilibrium
    }

    /// How many rings this end has started after the first.
    pub closed spec fn generation(&self) -> nat {
        self.generation@
    }

    /// Whether `receiver` plays from the ring this end sends into, and
    /// receives the rings this end starts.
    pub closed spec fn feeds(&self, receiver: &SignalQueueReceiver<T>) -> bool {
        &&& self.array.inner == receiver.array.inner
        &&& self.new_array == receiver.new_array
        &&& !receiver.array.primary_index
    }

    /// Sends `value` from the right half of the ring: it is written after
    /// the samples sent before and handed to the receiver, and the room left
    /// after it, less one slot, is returned. Fails, sending nothing, when the
    /// slots this end owns are not more than `value`'s length. The receiver
    /// works on the ring between calls, so the contract speaks of the ring as
    /// this call found it.
    pub fn send_signal(&mut self, value: &[T]) -> (r: Result<usize, ()>)
        ensures
            final(self).equilibrium() == old(self).equilibrium(),
            final(self).generation() == old(self).generation(),
            value@.len() >= QUEUE_SIZE - 1 ==> r is Err,
            value@.len() == 0 ==> r is Ok,
            r matches Ok(room) ==> room + value@.len() + 1 < QUEUE_SIZE,
            exists|b: RingState<T>, a: RingState<T>|
                b.wf(QUEUE_SIZE as nat) && a.wf(QUEUE_SIZE as nat) && #[trigger] send_step(
                    b,
                    a,
                    true,
                    value@,
                    r,
                    QUEUE_SIZE as int,
                ),
    {
        proof {
            use_type_invariant(&*self);
            use_type_invariant(&self.array);
        }
        let side = self.array.primary_index;
        let (mut s, handle) = self.array.inner.acquire_write();
        let ghost b = s;
        let r = send_into(&mut s, side, value, QUEUE_SIZE);
        proof {
            lemma_ring_shape(b, QUEUE_SIZE as nat);
            assert(send_step(b, s, true, value@, r, QUEUE_SIZE as int));
        }
        handle.release_write(s);
        r
    }

    /// Starts a new ring of the same equilibrium value: the samples not yet
    /// played are dropped, and the receiver moves to the new ring when it
    /// next plays. This end then holds the right half of the new ring.
    pub fn flush(&mut self)
        ensures
            final(self).equilibrium() == old(self).equilibrium(),
            final(self).generation() == old(self).generation() + 1,
    {
        let equilibrium = self.equilibrium;
        proof {
            lemma_queue_size_power_of_two();
        }
        let (new_left, new_right) = SplitOwnershipArray::<T, QUEUE_SIZE>::new(|| equilibrium);
        let _ = force_push(&self.new_array, new_left);
        self.array = new_right;
        self.generation = Ghost(self.generation@ + 1);
    }
}

impl<T: Copy> SignalQueueReceiver<T> {
    /// The value played where no sample arrived in time.
    pub closed spec fn equilibrium(&self) -> T {
        self.equilibrium
    }

    /// How many samples are still to be dropped before the next one played.
    pub closed spec fn pending_skip(&self) -> nat {
        self.skip as nat
    }

    /// How many rings this end has moved to after the first.
    pub closed spec fn generation(&self) -> nat {
        self.generation@
    }

    /// Fills `dst` with the next samples. Samples that did not arrive in time
    /// are played as the equilibrium value, and the same number of samples
    /// that arrive later are dropped, so that each sample keeps its place in
    /// time. When the sender has started a new ring, this end moves to it
    /// first, with one slot to drop. The sender works on the ring between
    /// calls, so the contract speaks of the ring as this call found it.
    pub fn receive_signal(&mut self, dst: &mut [T])
        requires
            old(self).pending_skip() + old(dst)@.len() + 1 <= usize::MAX,
            old(dst)@.len() + 2 <= usize::MAX,
        ensures
            final(dst)@.len() == old(dst)@.len(),
            final(self).equilibrium() == old(self).equilibrium(),
            final(self).generation() == old(self).generation() || final(self).generation() == old(self).generation()
                + 1,
            exists|s: RingState<T>, side: bool, skip: int|
                s.wf(QUEUE_SIZE as nat) && skip == (if final(self).generation() == old(self).generation() {
                    old(self).pending_skip() as int
                } else {
                    1int
                }) && #[trigger] received(
                    s,
                    side,
                    skip,
                    old(dst)@.len() as int,
                    final(dst)@,
                    old(self).equilibrium(),
                    final(self).pending_skip() as int,
                    QUEUE_SIZE as int,
                ),
    {
        // The sender hands over at most one new ring at a time.
        if let Some(array) = pop(&self.new_array) {
            self.skip = 1;
            self.array = array;
            self.generation = Ghost(self.generation@ + 1);
        }
        proof {
            use_type_invariant(&self.array);
        }
        let side = self.array.primary_index;
        let (mut s, handle) = self.array.inner.acquire_write();
        let ghost s0 = s;
        let ghost skip0 = self.skip as int;
        self.skip = receive_into(&mut s, side, self.skip, dst, self.equilibrium, QUEUE_SIZE);
        handle.release_write(s);
        assert(skip0 == (if self.generation@ == old(self).generation@ {
            old(self).skip as int
        } else {
            1int
        }));
        assert(s0.wf(QUEUE_SIZE as nat) && received(s0, side, skip0, old(dst)@.len() as int, dst@, old(self).equilibrium(), self.pending_skip() as int, QUEUE_SIZE as int));
    }
}

/// The two ends of a new signal queue, whose empty slots hold `equilibrium`.
pub fn signal_queue<T: Copy>(equilibrium: T) -> (r: (SignalQueueSender<T>, SignalQueueReceiver<T>))
    ensures
        r.0.feeds(&r.1),
        r.0.equilibrium() == equilibrium,
        r.1.equilibrium() == equilibrium,
        r.1.pending_skip() == 1,
        r.0.generation() == 0,
        r.1.generation() == 0,
{
    proof {
        lemma_queue_size_power_of_two();
    }
    let (left, right) = SplitOwnershipArray::<T, QUEUE_SIZE>::new(|| equilibrium);
    let new_array = Arc::new(new_handoff());
    proof {
        use_type_invariant(&right);
    }
    let sender = SignalQueueSender { array: right, new_array: Arc::clone(&new_array), equilibrium, generation: Ghost(0) };
    let receiver = SignalQueueReceiver { skip: 1, array: left, new_array, equilibrium, generation: Ghost(0) };
    (sender, receiver)
}

} // verus!
