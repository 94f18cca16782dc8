use std::sync::atomic::{AtomicU64, Ordering};
use time::OffsetDateTime;
use uuid::{ContextV1, Timestamp, Uuid};
use vstd::prelude::*;

verus! {

#[verifier::external_type_specification]
#[verifier::external_body]
pub struct ExContextV1(ContextV1);

#[verifier::external_type_specification]
#[verifier::external_body]
pub struct ExTimestamp(Timestamp);

#[verifier::external_type_specification]
#[verifier::external_body]
pub struct ExOffsetDateTime(OffsetDateTime);

/// `ContextV1::new_random`: a version 1 clock sequence that starts at a
/// random value; nothing is promised of that value. The crate panics when
/// the operating system gives no random bytes, which no argument controls.
#[verifier::external_body]
fn new_random_context() -> ContextV1 {
    ContextV1::new_random()
}

/// `OffsetDateTime::now_utc`: the current time; nothing is promised of it.
/// The crate panics only when the system clock lies outside the years it can
/// represent, which no argument controls.
#[verifier::external_body]
fn now_utc() -> OffsetDateTime {
    OffsetDateTime::now_utc()
}

/// `OffsetDateTime::unix_timestamp`: whole seconds since the Unix epoch.
/// Nothing is promised of the value, which depends on the time read.
#[verifier::external_body]
fn unix_timestamp(t: &OffsetDateTime) -> i64 {
    t.unix_timestamp()
}

/// `OffsetDateTime::unix_timestamp_nanos`: nanoseconds since the Unix epoch.
/// Nothing is promised of the value, which depends on the time read.
#[verifier::external_body]
fn unix_timestamp_nanos(t: &OffsetDateTime) -> i128 {
    t.unix_timestamp_nanos()
}

/// `Timestamp::from_unix` with a version 1 context: the context hands out its
/// next clock sequence value, so two calls with equal arguments may differ.
#[verifier::external_body]
fn timestamp_from_unix(context: &ContextV1, seconds: u64, subsec_nanos: u32) -> Timestamp {
    Timestamp::from_unix(context, seconds, subsec_nanos)
}

/// `Uuid::new_v1`, read as its sixteen bytes: the crate writes the version
/// 1 into the high nibble of byte 6, the variant `10` into the two high bits
/// of byte 8, and the node id into bytes 10 to 15.
#[verifier::external_body]
fn v1_bytes(ts: Timestamp, node_id: &[u8; 6]) -> (r: [u8; 16])
    ensures
        r@.subrange(10, 16) == node_id@,
        r@[6] / 16 == 1,
        r@[8] / 64 == 2,
{
    *Uuid::new_v1(ts, node_id).as_bytes()
}

/// A version 1 identifier, as its sixteen bytes.
#[derive(Debug, Clone, Copy, PartialEq, Eq, Hash)]
pub struct V1Id {
    pub bytes: [u8; 16],
}

/// The number that six bytes spell, most significant byte first.
pub open spec fn be48(b: Seq<u8>) -> int {
    b[0] * 0x100_0000_0000 + b[1] * 0x1_0000_0000 + b[2] * 0x100_0000 + b[3] * 0x1_0000 + b[4] * 0x100 + b[5]
}

/// The node id of the identifier made from `counter`: its low 48 bits, most
/// significant byte first.
pub fn node_id(counter: u64) -> (r: [u8; 6])
    ensures
        be48(r@) == counter % 0x1_0000_0000_0000,
{
    let b0 = ((counter >> 40u64) & 0xffu64) as u8;
    let b1 = ((counter >> 32u64) & 0xffu64) as u8;
    let b2 = ((counter >> 24u64) & 0xffu64) as u8;
    let b3 = ((counter >> 16u64) & 0xffu64) as u8;
    let b4 = ((counter >> 8u64) & 0xffu64) as u8;
    let b5 = (counter & 0xffu64) as u8;
    assert(b0 as u64 * 0x100_0000_0000u64 + b1 as u64 * 0x1_0000_0000u64 + b2 as u64 * 0x100_0000u64
        + b3 as u64 * 0x1_0000u64 + b4 as u64 * 0x100u64 + b5 as u64 == counter % 0x1_0000_0000_0000u64)
        by (bit_vector)
        requires
            b0 == ((counter >> 40u64) & 0xffu64) as u8,
            b1 == ((counter >> 32u64) & 0xffu64) as u8,
            b2 == ((counter >> 24u64) & 0xffu64) as u8,
            b3 == ((counter >> 16u64) & 0xffu64) as u8,
            b4 == ((counter >> 8u64) & 0xffu64) as u8,
            b5 == (counter & 0xffu64) as u8,
    ;
    let r = [b0, b1, b2, b3, b4, b5];
    assert(r@ =~= seq![b0, b1, b2, b3, b4, b5]);
    r
}

/// The seconds of a Unix time as the clock sequence takes them: a time
/// before the epoch wraps around.
pub fn unix_seconds(secs: i64) -> (r: u64)
    ensures
        secs >= 0 ==> r == secs,
        secs < 0 ==> r == secs + 0x1_0000_0000_0000_0000,
{
    let r = #[verifier::truncate] (secs as u64);
    assert(secs >= 0 ==> r == secs) by (bit_vector)
        requires
            r == #[verifier::truncate] (secs as u64),
    ;
    assert(secs < 0 ==> r == secs + 0x1_0000_0000_0000_0000) by (bit_vector)
        requires
            r == #[verifier::truncate] (secs as u64),
    ;
    r
}

/// The nanoseconds within the second of a Unix time given in nanoseconds:
/// the remainder by one second, with the sign of `nanos` as `%` gives it,
/// and a negative remainder wrapped around.
pub fn subsec_nanos(nanos: i128) -> (r: u32)
    ensures
        nanos >= 0 ==> r == nanos % 1_000_000_000,
        nanos < 0 && nanos % 1_000_000_000 == 0 ==> r == 0,
        nanos < 0 && nanos % 1_000_000_000 != 0 ==> r == nanos % 1_000_000_000 - 1_000_000_000 + 0x1_0000_0000,
{
    let rem = nanos % 1_000_000_000i128;
    assert(nanos < 0 ==> rem == 0 || rem == nanos % 1_000_000_000 - 1_000_000_000);
    assert(-1_000_000_000 < rem < 1_000_000_000);
    let r = #[verifier::truncate] (rem as u32);
    assert(rem >= 0 ==> r == rem) by (bit_vector)
        requires
            r == #[verifier::truncate] (rem as u32),
            -1_000_000_000 < rem < 1_000_000_000,
    ;
    assert(rem < 0 ==> r == rem + 0x1_0000_0000) by (bit_vector)
        requires
            r == #[verifier::truncate] (rem as u32),
            -1_000_000_000 < rem < 1_000_000_000,
    ;
    r
}

/// Hands out version 1 identifiers whose node id counts the identifiers
/// handed out before.
pub struct UniqueIdGenerator {
    context: ContextV1,
    counter: AtomicU64,
}

impl UniqueIdGenerator {
    /// A generator with a random clock sequence and a counter at zero.
    pub fn new() -> UniqueIdGenerator {
        UniqueIdGenerator { context: new_random_context(), counter: AtomicU64::new(0) }
    }

    /// A new identifier, made from the current time, the clock sequence and
    /// the counter, which advances by one: a version 1 identifier of the
    /// standard variant whose node id is the low 48 bits of the counter.
    /// Which value the counter held is another thread's business, so the
    /// contract names it only as some `u64`.
    pub fn generate_new(&self) -> (r: V1Id)
        ensures
            r.bytes@[6] / 16 == 1,
            r.bytes@[8] / 64 == 2,
            exists|c: u64| be48(r.bytes@.subrange(10, 16)) == #[trigger] (c % 0x1_0000_0000_0000),
    {
        let now = now_utc();
        let secs = unix_timestamp(&now);
        let nanos = unix_timestamp_nanos(&now);
        let counter = self.counter.fetch_add(1, Ordering::AcqRel);
        let ts = timestamp_from_unix(&self.context, unix_seconds(secs), subsec_nanos(nanos));
        let node = node_id(counter);
        let r = V1Id { bytes: v1_bytes(ts, &node) };
        assert(be48(r.bytes@.subrange(10, 16)) == counter % 0x1_0000_0000_0000);
        r
    }
}

impl Default for UniqueIdGenerator {
    fn default() -> UniqueIdGenerator {
        UniqueIdGenerator::new()
    }
}

} // verus!
