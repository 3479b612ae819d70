use screensplit::codec::{
    decode, encode, encode_dimensions, parse_dimensions, process_frame, remap, Frame,
};

#[test]
fn decode_example_frame() {
    let f = decode(&[0x00, 0x0A, 0x00, 0x05, 0xFF, 0x00, 0x00]);
    assert_eq!((f.x, f.y, f.p0, f.p1, f.p2), (10, 5, 0xFF, 0x00, 0x00));
}

#[test]
fn decode_big_endian_high_bytes() {
    let f = decode(&[0x12, 0x34, 0xAB, 0xCD, 1, 2, 3]);
    assert_eq!((f.x, f.y), (0x1234, 0xABCD));
}

#[test]
fn encode_then_decode_round_trips() {
    let cases = [
        (0u16, 0u16, [0u8, 0, 0]),
        (10, 5, [0xFF, 0x00, 0x00]),
        (65535, 65535, [1, 2, 3]),
        (256, 255, [9, 9, 9]),
        (1920, 1080, [0x7F, 0x80, 0x01]),
    ];
    for (x, y, p) in cases {
        let f = Frame { x, y, p0: p[0], p1: p[1], p2: p[2] };
        let bytes = encode(f);
        let back = decode(&bytes);
        assert_eq!(back, f);
    }
}

#[test]
fn remap_identity_configuration() {
    for (x, y) in [(0u16, 0u16), (10, 5), (99, 99)] {
        let r = remap(x, y, (0, 0), (100, 100), false, false, 1920, 1080);
        assert_eq!(r, Some((x, y)));
    }
}

#[test]
fn remap_offsets_by_origin() {
    let r = remap(10, 5, (960, 540), (100, 100), false, false, 1920, 1080);
    assert_eq!(r, Some((970, 545)));
}

#[test]
fn remap_rejects_out_of_bounds() {
    assert_eq!(remap(100, 5, (960, 540), (100, 100), false, false, 1920, 1080), None);
    assert_eq!(remap(5, 100, (960, 540), (100, 100), false, false, 1920, 1080), None);
    assert_eq!(remap(0, 0, (0, 0), (0, 5), false, false, 1920, 1080), None);
}

#[test]
fn remap_applies_flips_after_offset() {
    let r = remap(10, 5, (960, 540), (100, 100), true, false, 1920, 1080);
    assert_eq!(r, Some((950, 545)));
    let r = remap(10, 5, (960, 540), (100, 100), false, true, 1920, 1080);
    assert_eq!(r, Some((970, 535)));
}

#[test]
fn remap_flip_boundary_reaches_real_dimension() {
    let r = remap(0, 0, (0, 0), (1920, 1080), true, true, 1920, 1080);
    assert_eq!(r, Some((1920, 1080)));
}

#[test]
fn process_frame_example() {
    let out = process_frame(
        &[0x00, 0x0A, 0x00, 0x05, 0xFF, 0x00, 0x00],
        (960, 540),
        (100, 100),
        false,
        false,
        1920,
        1080,
    );
    // 970 = 0x03CA, 545 = 0x0221; payload unchanged.
    assert_eq!(out, Some([0x03, 0xCA, 0x02, 0x21, 0xFF, 0x00, 0x00]));
}

#[test]
fn process_frame_drops_out_of_bounds() {
    let out = process_frame(
        &[0x00, 0x64, 0x00, 0x05, 0xFF, 0x00, 0x00],
        (960, 540),
        (100, 100),
        false,
        false,
        1920,
        1080,
    );
    assert_eq!(out, None);
}

#[test]
fn dimension_handshake_round_trips() {
    let bytes = encode_dimensions(1920, 1080);
    assert_eq!(bytes, [0x07, 0x80, 0x04, 0x38]);
    assert_eq!(parse_dimensions(&bytes), (1920, 1080));
    assert_eq!(parse_dimensions(&[0x00, 0x0A, 0xFF, 0xFF]), (10, 65535));
}
