use vstd::prelude::*;

verus! {

/// Pixel size of the boot template image.
#[derive(Clone, Copy, Debug, PartialEq, Eq)]
pub struct BootSize {
    pub w: i32,
    pub h: i32,
}

/// Why a file header is not read as a PNG image size.
#[derive(Clone, Copy, Debug, PartialEq, Eq)]
pub enum PngError {
    /// Fewer than 24 bytes: the header cannot hold the image size.
    TooShort,
    /// The signature or the `IHDR` chunk type is wrong.
    NotPng,
}

/// Number of header bytes that hold the signature and the image size.
pub const PNG_HEADER_LEN: usize = 24;

/// The eight-byte PNG signature.
pub open spec fn png_signature() -> Seq<u8> {
    seq![137u8, 80u8, 78u8, 71u8, 13u8, 10u8, 26u8, 10u8]
}

/// The chunk type `IHDR` in ASCII.
pub open spec fn ihdr_tag() -> Seq<u8> {
    seq![73u8, 72u8, 68u8, 82u8]
}

/// Whether the first 24 bytes start with the PNG signature and name the
/// `IHDR` chunk at offset 12.
pub open spec fn is_png_header(h: Seq<u8>) -> bool {
    h.len() >= 24 && h.subrange(0, 8) == png_signature() && h.subrange(12, 16) == ihdr_tag()
}

/// The big-endian two's-complement 32-bit integer in the four bytes at `at`.
pub open spec fn be_i32_at(h: Seq<u8>, at: int) -> int {
    let u = h[at] * 16777216 + h[at + 1] * 65536 + h[at + 2] * 256 + h[at + 3];
    if u < 2147483648 { u } else { u - 4294967296 }
}

/// The image size that a PNG file starting with `header` declares: width
/// and height from the `IHDR` chunk, read big-endian.
pub open spec fn spec_png_size(header: Seq<u8>) -> Result<BootSize, PngError> {
    if header.len() < 24 {
        Err(PngError::TooShort)
    } else if !is_png_header(header) {
        Err(PngError::NotPng)
    } else {
        Ok(BootSize { w: be_i32_at(header, 16) as i32, h: be_i32_at(header, 20) as i32 })
    }
}

/// Read a big-endian `i32` from four bytes.
fn be_i32(b0: u8, b1: u8, b2: u8, b3: u8) -> (v: i32)
    ensures
        v == be_i32_at(seq![b0, b1, b2, b3], 0),
{
    let u: u32 = (b0 as u32) * 16777216 + (b1 as u32) * 65536 + (b2 as u32) * 256 + (b3 as u32);
    if u < 2147483648 {
        u as i32
    } else {
        ((u - 2147483648) as i32) + i32::MIN
    }
}

/// The width and height declared by the first 24 bytes of a PNG file.
pub fn parse_png_size(header: &[u8]) -> (r: Result<BootSize, PngError>)
    ensures
        r == spec_png_size(header@),
{
    if header.len() < PNG_HEADER_LEN {
        return Err(PngError::TooShort);
    }
    let sig_ok = header[0] == 137 && header[1] == 80 && header[2] == 78 && header[3] == 71
        && header[4] == 13 && header[5] == 10 && header[6] == 26 && header[7] == 10;
    let tag_ok = header[12] == 73 && header[13] == 72 && header[14] == 68 && header[15] == 82;
    if !sig_ok || !tag_ok {
        proof {
            if is_png_header(header@) {
                assert(header@.subrange(0, 8)[0] == png_signature()[0]);
                assert(header@.subrange(0, 8)[1] == png_signature()[1]);
                assert(header@.subrange(0, 8)[2] == png_signature()[2]);
                assert(header@.subrange(0, 8)[3] == png_signature()[3]);
                assert(header@.subrange(0, 8)[4] == png_signature()[4]);
                assert(header@.subrange(0, 8)[5] == png_signature()[5]);
                assert(header@.subrange(0, 8)[6] == png_signature()[6]);
                assert(header@.subrange(0, 8)[7] == png_signature()[7]);
                assert(header@.subrange(12, 16)[0] == ihdr_tag()[0]);
                assert(header@.subrange(12, 16)[1] == ihdr_tag()[1]);
                assert(header@.subrange(12, 16)[2] == ihdr_tag()[2]);
                assert(header@.subrange(12, 16)[3] == ihdr_tag()[3]);
            }
        }
        return Err(PngError::NotPng);
    }
    assert(header@.subrange(0, 8) == png_signature());
    assert(header@.subrange(12, 16) == ihdr_tag());
    let w = be_i32(header[16], header[17], header[18], header[19]);
    let h = be_i32(header[20], header[21], header[22], header[23]);
    Ok(BootSize { w, h })
}


/// Only the first 24 bytes matter: whatever follows a full header does
/// not change the size read.
pub proof fn lemma_png_size_prefix(header: Seq<u8>, rest: Seq<u8>)
    requires
        header.len() >= 24,
    ensures
        spec_png_size(header + rest) == spec_png_size(header),
{
    let h2 = header + rest;
    assert(h2.subrange(0, 8) =~= header.subrange(0, 8));
    assert(h2.subrange(12, 16) =~= header.subrange(12, 16));
    assert(h2[16] == header[16] && h2[17] == header[17] && h2[18] == header[18] && h2[19] == header[19]);
    assert(h2[20] == header[20] && h2[21] == header[21] && h2[22] == header[22] && h2[23] == header[23]);
}


/// A header is read exactly when it has at least 24 bytes, starts with
/// bytes 137 80 78 71 13 10 26 10 and has `IHDR` (73 72 68 82) at offset
/// 12; the width is then the 32-bit two's-complement number whose bytes,
/// most significant first, are bytes 16..20 (the height: 20..24): it is
/// in the `i32` range and equals their big-endian value modulo 2^32.
pub proof fn lemma_png_size_explicit(h: Seq<u8>)
    ensures
        spec_png_size(h) is Ok <==> (h.len() >= 24
            && h[0] == 137 && h[1] == 80 && h[2] == 78 && h[3] == 71
            && h[4] == 13 && h[5] == 10 && h[6] == 26 && h[7] == 10
            && h[12] == 73 && h[13] == 72 && h[14] == 68 && h[15] == 82),
        h.len() < 24 ==> spec_png_size(h) == Err::<BootSize, PngError>(PngError::TooShort),
        spec_png_size(h) matches Ok(s) ==> {
            &&& (s.w as int - (h[16] * 16777216 + h[17] * 65536 + h[18] * 256 + h[19])) % 4294967296 == 0
            &&& (s.h as int - (h[20] * 16777216 + h[21] * 65536 + h[22] * 256 + h[23])) % 4294967296 == 0
            &&& (h[16] < 128 ==> s.w >= 0)
            &&& (h[16] >= 128 ==> s.w < 0)
            &&& (h[20] < 128 ==> s.h >= 0)
            &&& (h[20] >= 128 ==> s.h < 0)
        },
{
    if h.len() >= 24 {
        let sig_ok = h[0] == 137 && h[1] == 80 && h[2] == 78 && h[3] == 71
            && h[4] == 13 && h[5] == 10 && h[6] == 26 && h[7] == 10;
        let tag_ok = h[12] == 73 && h[13] == 72 && h[14] == 68 && h[15] == 82;
        if sig_ok && tag_ok {
            assert(h.subrange(0, 8) =~= png_signature());
            assert(h.subrange(12, 16) =~= ihdr_tag());
        } else if is_png_header(h) {
            assert(h.subrange(0, 8)[0] == png_signature()[0]);
            assert(h.subrange(0, 8)[1] == png_signature()[1]);
            assert(h.subrange(0, 8)[2] == png_signature()[2]);
            assert(h.subrange(0, 8)[3] == png_signature()[3]);
            assert(h.subrange(0, 8)[4] == png_signature()[4]);
            assert(h.subrange(0, 8)[5] == png_signature()[5]);
            assert(h.subrange(0, 8)[6] == png_signature()[6]);
            assert(h.subrange(0, 8)[7] == png_signature()[7]);
            assert(h.subrange(12, 16)[0] == ihdr_tag()[0]);
            assert(h.subrange(12, 16)[1] == ihdr_tag()[1]);
            assert(h.subrange(12, 16)[2] == ihdr_tag()[2]);
            assert(h.subrange(12, 16)[3] == ihdr_tag()[3]);
        }
    }
}

} // verus!
