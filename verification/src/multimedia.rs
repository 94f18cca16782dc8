use std::borrow::Cow;
use std::ops::{Bound, Range, RangeBounds, RangeFrom, RangeFull, RangeInclusive, RangeTo, RangeToInclusive};
use std::sync::Arc;
use vstd::prelude::*;

verus! {

/// Container formats that the encoder understands.
#[derive(Debug, Clone, Copy, PartialEq, Eq, PartialOrd, Ord, Hash, Structural)]
pub enum FileFormat {
    Mp4,
    Webm,
    Mp3,
    Wav,
    Flac,
    Png,
    Jpeg,
    Webp,
}

/// The file extension of each format, without the leading dot.
pub open spec fn extension_of(format: FileFormat) -> Seq<char> {
    match format {
        FileFormat::Mp4 => "mp4"@,
        FileFormat::Webm => "webm"@,
        FileFormat::Mp3 => "mp3"@,
        FileFormat::Wav => "wav"@,
        FileFormat::Flac => "flac"@,
        FileFormat::Png => "png"@,
        FileFormat::Jpeg => "jpeg"@,
        FileFormat::Webp => "webp"@,
    }
}

impl FileFormat {
    /// Whether the format is one of the video formats.
    pub fn is_video(self) -> (r: bool)
        ensures
            r == (self == FileFormat::Mp4 || self == FileFormat::Webm),
    {
        match self {
            FileFormat::Mp4 | FileFormat::Webm => true,
            _ => false,
        }
    }

    /// Whether the format is one of the audio formats.
    pub fn is_audio(self) -> (r: bool)
        ensures
            r == (self == FileFormat::Mp3 || self == FileFormat::Wav || self == FileFormat::Flac),
    {
        match self {
            FileFormat::Mp3 | FileFormat::Wav | FileFormat::Flac => true,
            _ => false,
        }
    }

    /// Whether the format is one of the still image formats.
    pub fn is_image(self) -> (r: bool)
        ensures
            r == (self == FileFormat::Png || self == FileFormat::Jpeg || self == FileFormat::Webp),
    {
        match self {
            FileFormat::Png | FileFormat::Jpeg | FileFormat::Webp => true,
            _ => false,
        }
    }

    /// The file extension of the format.
    pub fn extension(self) -> (r: &'static str)
        ensures
            r@ == extension_of(self),
    {
        match self {
            FileFormat::Mp4 => "mp4",
            FileFormat::Webm => "webm",
            FileFormat::Mp3 => "mp3",
            FileFormat::Wav => "wav",
            FileFormat::Flac => "flac",
            FileFormat::Png => "png",
            FileFormat::Jpeg => "jpeg",
            FileFormat::Webp => "webp",
        }
    }
}

/// Video codecs.
#[derive(Debug, Clone, Copy, PartialEq, Eq, PartialOrd, Ord, Hash, Structural)]
pub enum VideoCodec {
    H264,
    H265,
    Av1,
    Png,
}

/// Audio codecs.
#[derive(Debug, Clone, Copy, PartialEq, Eq, PartialOrd, Ord, Hash, Structural)]
pub enum AudioCodec {
    Mp3,
    Aac,
    Flac,
    Opus,
}

/// The options that every audio codec has.
#[derive(Debug, PartialEq, Eq, Structural)]
pub struct AudioOption {
    sample_rate: u32,
    bit_rate: usize,
    max_bit_rate: usize,
}

impl AudioOption {
    pub closed spec fn spec_sample_rate(&self) -> u32 {
        self.sample_rate
    }

    pub closed spec fn spec_bit_rate(&self) -> usize {
        self.bit_rate
    }

    pub closed spec fn spec_max_bit_rate(&self) -> usize {
        self.max_bit_rate
    }
}

impl Default for AudioOption {
    /// 44.1 kHz at 192 kbps.
    fn default() -> (r: AudioOption)
        ensures
            r.spec_sample_rate() == 44100,
            r.spec_bit_rate() == 192_000,
            r.spec_max_bit_rate() == 192_000,
    {
        AudioOption { sample_rate: 44100, bit_rate: 192_000, max_bit_rate: 192_000 }
    }
}

/// A codec kind together with the type of the options that depend on it.
pub trait HasOption {
    type Option;
}

impl HasOption for AudioCodec {
    type Option = AudioOption;
}

/// Either the encoder's default or an explicit value.
#[derive(Debug, Clone, PartialEq, Eq)]
pub enum ValueWithDefault<T> {
    Default,
    Value(T),
}

#[verifier::external_type_specification]
#[verifier::reject_recursive_types(T)]
pub struct ExBound<T>(Bound<T>);

/// `Clone::clone` of `std::ops::Bound`, which `derive(Clone)` of the types
/// below calls; nothing is claimed of the copy.
pub assume_specification<T: Clone>[ <Bound<T> as Clone>::clone ](b: &Bound<T>) -> Bound<T>;

#[verifier::external_type_specification]
#[verifier::reject_recursive_types(Idx)]
pub struct ExRangeFrom<Idx>(RangeFrom<Idx>);

#[verifier::external_type_specification]
#[verifier::reject_recursive_types(Idx)]
pub struct ExRangeTo<Idx>(RangeTo<Idx>);

#[verifier::external_type_specification]
pub struct ExRangeFull(RangeFull);

#[verifier::external_type_specification]
#[verifier::reject_recursive_types(Idx)]
pub struct ExRangeToInclusive<Idx>(RangeToInclusive<Idx>);

/// `RangeBounds::start_bound` of `start..=end`: the start, included.
pub assume_specification<T>[ <RangeInclusive<T> as RangeBounds<T>>::start_bound ](
    range: &RangeInclusive<T>,
) -> (r: Bound<&T>)
    ensures
        r == Bound::Included(&range@.start),
;

/// `RangeBounds::end_bound` of `start..=end`: the end, included, for a range
/// that was not iterated to its end. What an exhausted range gives is not
/// claimed.
pub assume_specification<T>[ <RangeInclusive<T> as RangeBounds<T>>::end_bound ](
    range: &RangeInclusive<T>,
) -> (r: Bound<&T>)
    ensures
        !range@.exhausted ==> r == Bound::Included(&range@.end),
;

/// Whether `v` lies on the right side of the lower end `b`.
pub open spec fn above_lower(b: Bound<i64>, v: i64) -> bool {
    match b {
        Bound::Included(x) => x <= v,
        Bound::Excluded(x) => x < v,
        Bound::Unbounded => true,
    }
}

/// Whether `v` lies on the left side of the upper end `b`.
pub open spec fn below_upper(b: Bound<i64>, v: i64) -> bool {
    match b {
        Bound::Included(x) => v <= x,
        Bound::Excluded(x) => v < x,
        Bound::Unbounded => true,
    }
}

/// The integers an option accepts.
#[derive(Debug, Clone, PartialEq, Eq)]
pub enum ValueTypeI64 {
    Any,
    Range(Bound<i64>, Bound<i64>),
    Candidates(Arc<[i64]>),
}

/// Whether `ty` accepts `value`.
pub open spec fn accepts_i64(ty: ValueTypeI64, value: i64) -> bool {
    match ty {
        ValueTypeI64::Any => true,
        ValueTypeI64::Range(lo, hi) => above_lower(lo, value) && below_upper(hi, value),
        ValueTypeI64::Candidates(c) => c@.contains(value),
    }
}

/// Linear search for `value` in `c`.
fn contains_i64(c: &[i64], value: i64) -> (r: bool)
    ensures
        r == c@.contains(value),
{
    let mut i: usize = 0;
    while i < c.len()
        invariant
            0 <= i <= c@.len(),
            forall|j: int| 0 <= j < i ==> c@[j] != value,
        decreases c@.len() - i,
    {
        if c[i] == value {
            assert(c@[i as int] == value);
            return true;
        }
        i = i + 1;
    }
    false
}

impl ValueTypeI64 {
    /// Whether the option accepts `value`.
    pub fn validate(&self, value: i64) -> (r: bool)
        ensures
            r == accepts_i64(*self, value),
    {
        match self {
            ValueTypeI64::Any => true,
            ValueTypeI64::Range(min, max) => {
                let lower = match min {
                    Bound::Included(x) => *x <= value,
                    Bound::Excluded(x) => *x < value,
                    Bound::Unbounded => true,
                };
                let upper = match max {
                    Bound::Included(x) => value <= *x,
                    Bound::Excluded(x) => value < *x,
                    Bound::Unbounded => true,
                };
                lower && upper
            },
            ValueTypeI64::Candidates(candidates) => contains_i64(&**candidates, value),
        }
    }
}

impl From<Range<i64>> for ValueTypeI64 {
    /// The half-open interval `start..end`.
    fn from(value: Range<i64>) -> (r: ValueTypeI64)
        ensures
            r == ValueTypeI64::Range(Bound::Included(value.start), Bound::Excluded(value.end)),
    {
        ValueTypeI64::Range(Bound::Included(value.start), Bound::Excluded(value.end))
    }
}

impl vstd::std_specs::convert::FromSpecImpl<Range<i64>> for ValueTypeI64 {
    open spec fn obeys_from_spec() -> bool {
        true
    }

    open spec fn from_spec(v: Range<i64>) -> ValueTypeI64 {
        ValueTypeI64::Range(Bound::Included(v.start), Bound::Excluded(v.end))
    }
}

impl From<RangeFrom<i64>> for ValueTypeI64 {
    /// The integers from `start` on.
    fn from(value: RangeFrom<i64>) -> (r: ValueTypeI64)
        ensures
            r == ValueTypeI64::Range(Bound::Included(value.start), Bound::Unbounded),
    {
        ValueTypeI64::Range(Bound::Included(value.start), Bound::Unbounded)
    }
}

impl vstd::std_specs::convert::FromSpecImpl<RangeFrom<i64>> for ValueTypeI64 {
    open spec fn obeys_from_spec() -> bool {
        true
    }

    open spec fn from_spec(v: RangeFrom<i64>) -> ValueTypeI64 {
        ValueTypeI64::Range(Bound::Included(v.start), Bound::Unbounded)
    }
}

impl From<RangeTo<i64>> for ValueTypeI64 {
    /// The integers below `end`.
    fn from(value: RangeTo<i64>) -> (r: ValueTypeI64)
        ensures
            r == ValueTypeI64::Range(Bound::Unbounded, Bound::Excluded(value.end)),
    {
        ValueTypeI64::Range(Bound::Unbounded, Bound::Excluded(value.end))
    }
}

impl vstd::std_specs::convert::FromSpecImpl<RangeTo<i64>> for ValueTypeI64 {
    open spec fn obeys_from_spec() -> bool {
        true
    }

    open spec fn from_spec(v: RangeTo<i64>) -> ValueTypeI64 {
        ValueTypeI64::Range(Bound::Unbounded, Bound::Excluded(v.end))
    }
}

/// The owned copy of a bound on an integer.
fn owned_bound(b: Bound<&i64>) -> (r: Bound<i64>)
    ensures
        r == match b {
            Bound::Included(x) => Bound::Included(*x),
            Bound::Excluded(x) => Bound::Excluded(*x),
            Bound::Unbounded => Bound::Unbounded,
        },
{
    match b {
        Bound::Included(x) => Bound::Included(*x),
        Bound::Excluded(x) => Bound::Excluded(*x),
        Bound::Unbounded => Bound::Unbounded,
    }
}

impl From<RangeInclusive<i64>> for ValueTypeI64 {
    /// The closed interval `start..=end`.
    fn from(value: RangeInclusive<i64>) -> (r: ValueTypeI64)
        ensures
            !value@.exhausted ==> r == ValueTypeI64::Range(Bound::Included(value@.start), Bound::Included(value@.end)),
    {
        ValueTypeI64::Range(owned_bound(value.start_bound()), owned_bound(value.end_bound()))
    }
}

impl vstd::std_specs::convert::FromSpecImpl<RangeInclusive<i64>> for ValueTypeI64 {
    /// An exhausted range has no bound stated, so no single value is claimed
    /// for every range.
    open spec fn obeys_from_spec() -> bool {
        false
    }

    open spec fn from_spec(v: RangeInclusive<i64>) -> ValueTypeI64 {
        ValueTypeI64::Range(Bound::Included(v@.start), Bound::Included(v@.end))
    }
}

impl From<RangeToInclusive<i64>> for ValueTypeI64 {
    /// The integers up to `end`.
    fn from(value: RangeToInclusive<i64>) -> (r: ValueTypeI64)
        ensures
            r == ValueTypeI64::Range(Bound::Unbounded, Bound::Included(value.end)),
    {
        ValueTypeI64::Range(Bound::Unbounded, Bound::Included(value.end))
    }
}

impl vstd::std_specs::convert::FromSpecImpl<RangeToInclusive<i64>> for ValueTypeI64 {
    open spec fn obeys_from_spec() -> bool {
        true
    }

    open spec fn from_spec(v: RangeToInclusive<i64>) -> ValueTypeI64 {
        ValueTypeI64::Range(Bound::Unbounded, Bound::Included(v.end))
    }
}

impl From<(Bound<i64>, Bound<i64>)> for ValueTypeI64 {
    /// The interval between the two bounds.
    fn from(value: (Bound<i64>, Bound<i64>)) -> (r: ValueTypeI64)
        ensures
            r == ValueTypeI64::Range(value.0, value.1),
    {
        ValueTypeI64::Range(value.0, value.1)
    }
}

impl vstd::std_specs::convert::FromSpecImpl<(Bound<i64>, Bound<i64>)> for ValueTypeI64 {
    open spec fn obeys_from_spec() -> bool {
        true
    }

    open spec fn from_spec(v: (Bound<i64>, Bound<i64>)) -> ValueTypeI64 {
        ValueTypeI64::Range(v.0, v.1)
    }
}

impl From<RangeFull> for ValueTypeI64 {
    /// Every integer.
    fn from(value: RangeFull) -> (r: ValueTypeI64)
        ensures
            r == ValueTypeI64::Range(Bound::Unbounded, Bound::Unbounded),
    {
        ValueTypeI64::Range(Bound::Unbounded, Bound::Unbounded)
    }
}

impl vstd::std_specs::convert::FromSpecImpl<RangeFull> for ValueTypeI64 {
    open spec fn obeys_from_spec() -> bool {
        true
    }

    open spec fn from_spec(v: RangeFull) -> ValueTypeI64 {
        ValueTypeI64::Range(Bound::Unbounded, Bound::Unbounded)
    }
}

} // verus!

verus! {

/// Byte-wise comparison of two strings.
fn str_eq(a: &str, b: &str) -> (r: bool)
    ensures
        r == (a@ == b@),
{
    broadcast use vstd::utf8::encode_utf8_decode_utf8;

    let x = a.as_bytes();
    let y = b.as_bytes();
    if x.len() != y.len() {
        proof {
            if a@ == b@ {
                assert(x@ == y@);
            }
        }
        return false;
    }
    let mut i: usize = 0;
    while i < x.len()
        invariant
            x@ == vstd::utf8::encode_utf8(a@),
            y@ == vstd::utf8::encode_utf8(b@),
            x@.len() == y@.len(),
            0 <= i <= x@.len(),
            forall|j: int| 0 <= j < i ==> x@[j] == y@[j],
        decreases x@.len() - i,
    {
        if x[i] != y[i] {
            proof {
                if a@ == b@ {
                    assert(x@ == y@);
                }
            }
            return false;
        }
        i = i + 1;
    }
    assert(x@ =~= y@);
    assert(vstd::utf8::decode_utf8(vstd::utf8::encode_utf8(a@)) == a@);
    assert(vstd::utf8::decode_utf8(vstd::utf8::encode_utf8(b@)) == b@);
    true
}

/// The view of a string that is either borrowed or owned.
fn cow_as_str<'a>(c: &'a Cow<'static, str>) -> (r: &'a str)
    ensures
        r@ == c@,
{
    match c {
        Cow::Borrowed(s) => *s,
        Cow::Owned(s) => s.as_str(),
    }
}

/// The strings an option accepts.
#[derive(Debug, Clone, PartialEq, Eq)]
pub enum ValueTypeString {
    Any,
    Candidates(Arc<[Cow<'static, str>]>),
}

/// Whether `ty` accepts `value`.
pub open spec fn accepts_str(ty: ValueTypeString, value: Seq<char>) -> bool {
    match ty {
        ValueTypeString::Any => true,
        ValueTypeString::Candidates(c) => exists|i: int| 0 <= i < c@.len() && (#[trigger] c@[i])@ == value,
    }
}

/// Whether one of `c` equals `value`.
fn contains_str(c: &[Cow<'static, str>], value: &str) -> (r: bool)
    ensures
        r == exists|i: int| 0 <= i < c@.len() && (#[trigger] c@[i])@ == value@,
{
    let mut i: usize = 0;
    while i < c.len()
        invariant
            0 <= i <= c@.len(),
            forall|j: int| 0 <= j < i ==> (#[trigger] c@[j])@ != value@,
        decreases c@.len() - i,
    {
        if str_eq(cow_as_str(&c[i]), value) {
            return true;
        }
        i = i + 1;
    }
    false
}

impl ValueTypeString {
    /// Whether the option accepts `value`.
    pub fn validate(&self, value: &str) -> (r: bool)
        ensures
            r == accepts_str(*self, value@),
    {
        match self {
            ValueTypeString::Any => true,
            ValueTypeString::Candidates(candidates) => contains_str(&**candidates, value),
        }
    }
}

} // verus!
