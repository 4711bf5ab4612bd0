//! The asar header frame (little-endian, Chromium Pickle-in-Pickle):
//!
//! ```text
//! [u32] 4                          outer pickle payload size
//! [u32] header_buf_len             byte length of the inner pickle
//! [u32] header_buf_len - 4         inner pickle payload size
//! [u32] json_len                   byte length of the JSON text
//! [json_len bytes] JSON            the directory tree
//! [pad bytes] 0x00 * ((4 - json_len % 4) & 3)
//! [file data ...]
//! ```
//!
//! File data offsets in the JSON are relative to the start of the file data
//! region, which begins at `8 + header_buf_len`.

use vstd::prelude::*;

use super::bytes::{le_bytes, le_value, lemma_le_roundtrip, push_u32_le};

verus! {

/// The sizes recorded in a well-formed header frame.
#[derive(Debug, Clone, Copy, PartialEq, Eq, Structural)]
pub struct HeaderLayout {
    pub header_buf_len: u32,
    pub inner_size: u32,
    pub json_len: u32,
    pub pad_len: u32,
}

impl HeaderLayout {
    /// Where the file data region begins.
    pub open spec fn data_offset(self) -> int {
        8 + self.header_buf_len
    }

    /// Number of bytes that the frame occupies in front of the JSON text.
    pub open spec fn json_start(self) -> int {
        16
    }
}

/// Why a header frame is refused.
#[derive(Debug, Clone, Copy, PartialEq, Eq, Structural)]
pub enum HeaderFault {
    /// The input ended inside the fixed-size part of the frame.
    Truncated,
    /// The outer pickle size is not 4.
    OuterSize(u32),
    /// The inner payload size plus 4 is not the inner pickle length.
    InnerSizeMismatch { header_buf_len: u32, inner_size: u32 },
    /// The JSON length plus padding does not fill the inner payload.
    JsonLenMismatch { json_len: u32, pad_len: u32, inner_size: u32 },
}

/// Number of zero bytes that align a JSON text of `len` bytes to 4.
pub open spec fn pad_for(len: int) -> int {
    (4 - len % 4) % 4
}

/// The `u32` at byte `at` of `b`.
pub open spec fn field(b: Seq<u8>, at: int) -> u32 {
    le_value(b.subrange(at, at + 4)) as u32
}

/// The outcome of reading a header frame from the bytes `b` (at most the
/// first 16 are looked at), checking each field as soon as it is read.
pub open spec fn parse_frame(b: Seq<u8>) -> Result<HeaderLayout, HeaderFault> {
    if b.len() < 4 {
        Err(HeaderFault::Truncated)
    } else if field(b, 0) != 4 {
        Err(HeaderFault::OuterSize(field(b, 0)))
    } else if b.len() < 12 {
        Err(HeaderFault::Truncated)
    } else if field(b, 8) + 4 != field(b, 4) {
        Err(HeaderFault::InnerSizeMismatch { header_buf_len: field(b, 4), inner_size: field(b, 8) })
    } else if b.len() < 16 {
        Err(HeaderFault::Truncated)
    } else if 4 + field(b, 12) + pad_for(field(b, 12) as int) != field(b, 8) {
        Err(
            HeaderFault::JsonLenMismatch {
                json_len: field(b, 12),
                pad_len: pad_for(field(b, 12) as int) as u32,
                inner_size: field(b, 8),
            },
        )
    } else {
        Ok(
            HeaderLayout {
                header_buf_len: field(b, 4),
                inner_size: field(b, 8),
                json_len: field(b, 12),
                pad_len: pad_for(field(b, 12) as int) as u32,
            },
        )
    }
}

/// The `u32` stored little-endian at byte `at` of `b`.
pub fn u32_le_at(b: &[u8], at: usize) -> (r: u32)
    requires
        at + 4 <= b@.len(),
    ensures
        r == field(b@, at as int),
{
    let r = b[at] as u32 + b[at + 1] as u32 * 0x100 + b[at + 2] as u32 * 0x10000 + b[at + 3] as u32
        * 0x1000000;
    let ghost s = b@.subrange(at as int, at + 4);
    assert(s[0] == b@[at as int] && s[1] == b@[at + 1] && s[2] == b@[at + 2] && s[3] == b@[at + 3]);
    r
}

/// Reads and checks the fixed-size part of a header frame from `b`, the
/// bytes available at the start of an archive.
pub fn read_frame(b: &[u8]) -> (r: Result<HeaderLayout, HeaderFault>)
    ensures
        r == parse_frame(b@),
{
    if b.len() < 4 {
        return Err(HeaderFault::Truncated);
    }
    let outer_size = u32_le_at(b, 0);
    if outer_size != 4 {
        return Err(HeaderFault::OuterSize(outer_size));
    }
    if b.len() < 12 {
        return Err(HeaderFault::Truncated);
    }
    let header_buf_len = u32_le_at(b, 4);
    let inner_size = u32_le_at(b, 8);
    if inner_size as u64 + 4 != header_buf_len as u64 {
        return Err(HeaderFault::InnerSizeMismatch { header_buf_len, inner_size });
    }
    if b.len() < 16 {
        return Err(HeaderFault::Truncated);
    }
    let json_len = u32_le_at(b, 12);
    let pad_len = (4 - json_len % 4) % 4;
    if 4 + json_len as u64 + pad_len as u64 != inner_size as u64 {
        return Err(HeaderFault::JsonLenMismatch { json_len, pad_len, inner_size });
    }
    Ok(HeaderLayout { header_buf_len, inner_size, json_len, pad_len })
}

/// Where the file data region begins for a frame with this layout.
pub fn data_offset(layout: &HeaderLayout) -> (r: u64)
    ensures
        r == layout.data_offset(),
{
    8 + layout.header_buf_len as u64
}

/// The frame that `frame_header` writes in front of a JSON text `json`,
/// followed by the text and its padding.
pub open spec fn frame_spec(json: Seq<u8>) -> Seq<u8> {
    let pad = pad_for(json.len() as int);
    let inner = 4 + json.len() + pad;
    le_bytes(4) + le_bytes((inner + 4) as u32) + le_bytes(inner as u32) + le_bytes(
        json.len() as u32,
    ) + json + Seq::new(pad as nat, |i: int| 0u8)
}

/// The layout recorded by `frame_spec(json)` for a JSON text of `len` bytes.
pub open spec fn layout_for(len: int) -> HeaderLayout {
    HeaderLayout {
        header_buf_len: (8 + len + pad_for(len)) as u32,
        inner_size: (4 + len + pad_for(len)) as u32,
        json_len: len as u32,
        pad_len: pad_for(len) as u32,
    }
}

/// Frames the serialized JSON directory tree `json`; returns the header bytes
/// and the offset at which file data begins.
pub fn frame_header(json: &[u8]) -> (r: (Vec<u8>, u64))
    requires
        8 + json@.len() + pad_for(json@.len() as int) <= u32::MAX,
    ensures
        r.0@ == frame_spec(json@),
        r.1 == layout_for(json@.len() as int).data_offset(),
        r.1 == r.0@.len(),
{
    let json_len = json.len();
    let pad_len = (4 - json_len % 4) % 4;
    let inner_size = (4 + json_len + pad_len) as u32;
    let header_buf_len = inner_size + 4;
    let mut out: Vec<u8> = Vec::new();
    push_u32_le(&mut out, 4);
    push_u32_le(&mut out, header_buf_len);
    push_u32_le(&mut out, inner_size);
    push_u32_le(&mut out, json_len as u32);
    let ghost prefix = out@;
    let mut i: usize = 0;
    while i < json_len
        invariant
            i <= json_len,
            json_len == json@.len(),
            out@ == prefix + json@.take(i as int),
        decreases json_len - i,
    {
        out.push(json[i]);
        i += 1;
        assert(out@ =~= prefix + json@.take(i as int));
    }
    assert(json@.take(json_len as int) =~= json@);
    let ghost with_json = out@;
    let mut k: usize = 0;
    while k < pad_len
        invariant
            k <= pad_len,
            pad_len < 4,
            out@ == with_json + Seq::new(k as nat, |i: int| 0u8),
        decreases pad_len - k,
    {
        out.push(0u8);
        k += 1;
        assert(out@ =~= with_json + Seq::new(k as nat, |i: int| 0u8));
    }
    assert(out@ =~= frame_spec(json@));
    (out, 8 + header_buf_len as u64)
}

/// Reading back a frame written by `frame_header` gives the layout it
/// recorded; the JSON text follows the 16 fixed bytes, and the file data
/// region begins right after the padding.
pub proof fn lemma_frame_roundtrip(json: Seq<u8>)
    requires
        8 + json.len() + pad_for(json.len() as int) <= u32::MAX,
    ensures
        parse_frame(frame_spec(json)) == Ok::<HeaderLayout, HeaderFault>(
            layout_for(json.len() as int),
        ),
        frame_spec(json).subrange(16, 16 + json.len() as int) == json,
        frame_spec(json).len() == layout_for(json.len() as int).data_offset(),
{
    let len = json.len() as int;
    let pad = pad_for(len);
    let inner = 4 + len + pad;
    let f = frame_spec(json);
    lemma_le_roundtrip(4);
    lemma_le_roundtrip((inner + 4) as u32);
    lemma_le_roundtrip(inner as u32);
    lemma_le_roundtrip(len as u32);
    assert(f.subrange(0, 4) =~= le_bytes(4));
    assert(f.subrange(4, 8) =~= le_bytes((inner + 4) as u32));
    assert(f.subrange(8, 12) =~= le_bytes(inner as u32));
    assert(f.subrange(12, 16) =~= le_bytes(len as u32));
    assert(f.subrange(16, 16 + len) =~= json);
}

} // verus!
