//! Frame codec: the fixed 7-byte wire frame (big-endian x, big-endian y,
//! three opaque payload bytes), plus the coordinate remap from section-local
//! to global screen coordinates.

use vstd::prelude::*;

verus! {

/// One pixel update: a coordinate pair and three opaque payload bytes,
/// carried through unmodified.
#[derive(PartialEq, Eq, Structural, Clone, Copy, Debug)]
pub struct Frame {
    pub x: u16,
    pub y: u16,
    pub p0: u8,
    pub p1: u8,
    pub p2: u8,
}

/// What a 7-byte wire frame decodes to: bytes 0-1 are big-endian x, bytes
/// 2-3 big-endian y, bytes 4-6 the payload.
pub open spec fn decode_spec(b: Seq<u8>) -> Frame
    recommends
        b.len() == 7,
{
    Frame {
        x: (b[0] * 256 + b[1]) as u16,
        y: (b[2] * 256 + b[3]) as u16,
        p0: b[4],
        p1: b[5],
        p2: b[6],
    }
}

/// The 7 bytes a frame encodes to: big-endian x, big-endian y, payload.
pub open spec fn encode_spec(f: Frame) -> Seq<u8> {
    seq![
        (f.x / 256) as u8,
        (f.x % 256) as u8,
        (f.y / 256) as u8,
        (f.y % 256) as u8,
        f.p0,
        f.p1,
        f.p2,
    ]
}

/// Decode a 7-byte wire frame into its coordinates and payload.
pub fn decode(buf: &[u8; 7]) -> (r: Frame)
    ensures
        r == decode_spec(buf@),
{
    Frame {
        x: (buf[0] as u16) * 256 + (buf[1] as u16),
        y: (buf[2] as u16) * 256 + (buf[3] as u16),
        p0: buf[4],
        p1: buf[5],
        p2: buf[6],
    }
}

/// Encode a frame into its 7-byte wire form.
pub fn encode(f: Frame) -> (r: [u8; 7])
    ensures
        r@ == encode_spec(f),
{
    let r: [u8; 7] = [
        (f.x / 256) as u8,
        (f.x % 256) as u8,
        (f.y / 256) as u8,
        (f.y % 256) as u8,
        f.p0,
        f.p1,
        f.p2,
    ];
    proof {
        assert(r@ =~= encode_spec(f));
    }
    r
}

/// Round trip: decoding an encoded frame gives back exactly the coordinates
/// and payload that were encoded.
pub proof fn lemma_codec_round_trip(f: Frame)
    ensures
        decode_spec(encode_spec(f)) == f,
{
    let b = encode_spec(f);
    assert(b[0] == f.x / 256 && b[1] == f.x % 256);
    assert(f.x / 256 * 256 + f.x % 256 == f.x) by (nonlinear_arith);
    assert(f.y / 256 * 256 + f.y % 256 == f.y) by (nonlinear_arith);
}

/// Where a section-local coordinate lands on the real screen: rejected when
/// outside the section's bounds; otherwise offset by the section's origin
/// and, per axis, optionally flipped by subtracting from the real dimension.
/// The flip is applied after offsetting, exactly in this order; a cell
/// touching the far edge can therefore map to exactly `real_width` or
/// `real_height`.
pub open spec fn remap_spec(
    local_x: u16,
    local_y: u16,
    origin: (u16, u16),
    bounds: (u16, u16),
    flip_x: bool,
    flip_y: bool,
    real_width: u16,
    real_height: u16,
) -> Option<(u16, u16)> {
    if local_x >= bounds.0 || local_y >= bounds.1 {
        None
    } else {
        let gx = if flip_x {
            real_width - (local_x + origin.0)
        } else {
            local_x + origin.0
        };
        let gy = if flip_y {
            real_height - (local_y + origin.1)
        } else {
            local_y + origin.1
        };
        Some(((gx as u16), (gy as u16)))
    }
}

/// Remap a section-local coordinate to a global one, or report it out of
/// bounds so the frame can be dropped.
pub fn remap(
    local_x: u16,
    local_y: u16,
    origin: (u16, u16),
    bounds: (u16, u16),
    flip_x: bool,
    flip_y: bool,
    real_width: u16,
    real_height: u16,
) -> (r: Option<(u16, u16)>)
    requires
        origin.0 + bounds.0 <= 0x10000,
        origin.1 + bounds.1 <= 0x10000,
        flip_x ==> origin.0 + bounds.0 <= real_width + 1,
        flip_y ==> origin.1 + bounds.1 <= real_height + 1,
    ensures
        r == remap_spec(local_x, local_y, origin, bounds, flip_x, flip_y, real_width, real_height),
        r is Some <==> (local_x < bounds.0 && local_y < bounds.1),
{
    if local_x >= bounds.0 || local_y >= bounds.1 {
        return None;
    }
    let mut gx = local_x + origin.0;
    if flip_x {
        gx = real_width - gx;
    }
    let mut gy = local_y + origin.1;
    if flip_y {
        gy = real_height - gy;
    }
    Some((gx, gy))
}

/// Remap under the identity configuration (zero origin, no flips) returns
/// any in-bounds coordinate unchanged.
pub proof fn lemma_remap_identity(
    x: u16,
    y: u16,
    bounds: (u16, u16),
    real_width: u16,
    real_height: u16,
)
    requires
        x < bounds.0,
        y < bounds.1,
    ensures
        remap_spec(x, y, (0, 0), bounds, false, false, real_width, real_height) == Some((x, y)),
{
}

/// Parse the 4-byte dimension handshake: big-endian width then big-endian
/// height.
pub fn parse_dimensions(buf: &[u8; 4]) -> (r: (u16, u16))
    ensures
        r.0 == buf@[0] * 256 + buf@[1],
        r.1 == buf@[2] * 256 + buf@[3],
{
    let w = (buf[0] as u16) * 256 + (buf[1] as u16);
    let h = (buf[2] as u16) * 256 + (buf[3] as u16);
    (w, h)
}

/// Encode the 4-byte dimension advertisement: big-endian width then
/// big-endian height.
pub fn encode_dimensions(width: u16, height: u16) -> (r: [u8; 4])
    ensures
        r@[0] == width / 256,
        r@[1] == width % 256,
        r@[2] == height / 256,
        r@[3] == height % 256,
{
    [(width / 256) as u8, (width % 256) as u8, (height / 256) as u8, (height % 256) as u8]
}

/// The whole per-frame pipeline on one 7-byte input: decode, bounds-check,
/// remap, re-encode. `None` exactly when the local coordinates fall outside
/// the section's bounds; otherwise the encoded frame carries the remapped
/// coordinates and the payload unchanged.
pub open spec fn process_spec(
    b: Seq<u8>,
    origin: (u16, u16),
    bounds: (u16, u16),
    flip_x: bool,
    flip_y: bool,
    real_width: u16,
    real_height: u16,
) -> Option<Seq<u8>> {
    let f = decode_spec(b);
    match remap_spec(f.x, f.y, origin, bounds, flip_x, flip_y, real_width, real_height) {
        Option::None => Option::None,
        Option::Some(g) => Option::Some(
            encode_spec(Frame { x: g.0, y: g.1, p0: f.p0, p1: f.p1, p2: f.p2 }),
        ),
    }
}

/// Process one incoming wire frame: decode it, drop it if its coordinates
/// lie outside the section, otherwise remap to global coordinates and
/// re-encode.
pub fn process_frame(
    buf: &[u8; 7],
    origin: (u16, u16),
    bounds: (u16, u16),
    flip_x: bool,
    flip_y: bool,
    real_width: u16,
    real_height: u16,
) -> (r: Option<[u8; 7]>)
    requires
        origin.0 + bounds.0 <= 0x10000,
        origin.1 + bounds.1 <= 0x10000,
        flip_x ==> origin.0 + bounds.0 <= real_width + 1,
        flip_y ==> origin.1 + bounds.1 <= real_height + 1,
    ensures
        match process_spec(buf@, origin, bounds, flip_x, flip_y, real_width, real_height) {
            Option::None => r is None,
            Option::Some(out) => r is Some && r->0@ == out,
        },
        r is Some <==> (decode_spec(buf@).x < bounds.0 && decode_spec(buf@).y < bounds.1),
{
    let f = decode(buf);
    match remap(f.x, f.y, origin, bounds, flip_x, flip_y, real_width, real_height) {
        Option::None => Option::None,
        Option::Some(g) => {
            let out = encode(Frame { x: g.0, y: g.1, p0: f.p0, p1: f.p1, p2: f.p2 });
            Option::Some(out)
        },
    }
}

} // verus!
