use vstd::prelude::*;

verus! {

/// The version of the project file format that is written and read.
pub const FORMAT_VERSION: u32 = 0;

/// The number of bytes before the project body.
pub const HEADER_LEN: usize = 32;

/// The four bytes that open a project file: `mpdl`.
pub open spec fn magic() -> Seq<u8> {
    seq![0x6du8, 0x70u8, 0x64u8, 0x6cu8]
}

/// The four bytes of `v`, most significant first.
pub open spec fn be32(v: u32) -> Seq<u8> {
    seq![(v / 0x100_0000) as u8, (v / 0x1_0000 % 0x100) as u8, (v / 0x100 % 0x100) as u8, (v % 0x100) as u8]
}

/// The number that four bytes spell, most significant first.
pub open spec fn be32_value(b: Seq<u8>) -> int {
    b[0] * 0x100_0000 + b[1] * 0x1_0000 + b[2] * 0x100 + b[3]
}

/// The header of a project file: the magic bytes, the format version and 24
/// reserved zero bytes.
pub open spec fn header() -> Seq<u8> {
    magic() + be32(FORMAT_VERSION) + Seq::new(24, |i: int| 0u8)
}

/// Why the header of a project file is refused.
#[derive(Debug, Clone, Copy, PartialEq, Eq)]
pub enum HeaderError {
    /// The file ends before its header does.
    TooShort,
    /// The file does not open with `mpdl`; these are the bytes it opens with.
    MismatchMagicNumber([u8; 4]),
    /// The file is of a format version this library does not read.
    UnknownFormatVersion(u32),
}

/// The header that opens every project file this library writes.
pub fn project_header() -> (r: Vec<u8>)
    ensures
        r@ == header(),
{
    let mut r: Vec<u8> = vec![0x6du8, 0x70u8, 0x64u8, 0x6cu8, 0u8, 0u8, 0u8, 0u8];
    let mut i: usize = 0;
    while i < 24
        invariant
            i <= 24,
            r@ == magic() + be32(FORMAT_VERSION) + Seq::new(i as nat, |j: int| 0u8),
        decreases 24 - i,
    {
        r.push(0u8);
        i = i + 1;
        assert(r@ =~= magic() + be32(FORMAT_VERSION) + Seq::new(i as nat, |j: int| 0u8));
    }
    r
}

/// Checks the header of a project file and tells where its body starts:
/// refused when the file is shorter than the header, when it does not open
/// with `mpdl`, or when its version, read most significant byte first, is
/// not the one this library reads. The reserved bytes are not looked at.
pub fn check_header(bytes: &[u8]) -> (r: Result<usize, HeaderError>)
    ensures
        bytes@.len() < HEADER_LEN ==> (r matches Err(e) && e == HeaderError::TooShort),
        bytes@.len() >= HEADER_LEN && bytes@.subrange(0, 4) != magic() ==> (r matches Err(
            HeaderError::MismatchMagicNumber(m),
        ) && m@ == bytes@.subrange(0, 4)),
        bytes@.len() >= HEADER_LEN && bytes@.subrange(0, 4) == magic() && be32_value(
            bytes@.subrange(4, 8),
        ) != FORMAT_VERSION ==> (r matches Err(HeaderError::UnknownFormatVersion(v)) && v
            == be32_value(bytes@.subrange(4, 8))),
        bytes@.len() >= HEADER_LEN && bytes@.subrange(0, 4) == magic() && be32_value(
            bytes@.subrange(4, 8),
        ) == FORMAT_VERSION ==> (r matches Ok(n) && n == HEADER_LEN),
{
    if bytes.len() < HEADER_LEN {
        return Err(HeaderError::TooShort);
    }
    let m = [bytes[0], bytes[1], bytes[2], bytes[3]];
    assert(m@ =~= bytes@.subrange(0, 4));
    if !(m[0] == 0x6d && m[1] == 0x70 && m[2] == 0x64 && m[3] == 0x6c) {
        assert(m@ != magic());
        return Err(HeaderError::MismatchMagicNumber(m));
    }
    assert(bytes@.subrange(0, 4) =~= magic());
    let version: u32 = (bytes[4] as u32) * 0x100_0000 + (bytes[5] as u32) * 0x1_0000 + (bytes[6] as u32) * 0x100
        + (bytes[7] as u32);
    assert(version == be32_value(bytes@.subrange(4, 8)));
    if version != FORMAT_VERSION {
        return Err(HeaderError::UnknownFormatVersion(version));
    }
    Ok(HEADER_LEN)
}

/// A file that starts with the header this library writes is accepted, and
/// its body starts right after the header.
pub proof fn lemma_written_header_is_read(body: Seq<u8>)
    ensures
        (header() + body).len() >= HEADER_LEN,
        (header() + body).subrange(0, 4) == magic(),
        be32_value((header() + body).subrange(4, 8)) == FORMAT_VERSION,
{
    let f = header() + body;
    assert(f.subrange(0, 4) =~= magic());
    assert(f.subrange(4, 8) =~= seq![0u8, 0u8, 0u8, 0u8]);
}

} // verus!
