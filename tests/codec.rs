use aseprite::chunk::{CelChunk, CelContent, Chunk, PaletteChunk, PaletteEntry};
use aseprite::color::{decode_pixel, encode_pixel, ColorDepth, Pixel};
use aseprite::frame::Frame;
use aseprite::header::Header;
use aseprite::{Aseprite, DecodeError};

fn put16(v: &mut Vec<u8>, x: u16) {
    v.extend_from_slice(&x.to_le_bytes());
}

fn put32(v: &mut Vec<u8>, x: u32) {
    v.extend_from_slice(&x.to_le_bytes());
}

fn header_bytes(file_size: u32, frames: u16, width: u16, height: u16, depth: u16) -> Vec<u8> {
    let mut v = Vec::new();
    put32(&mut v, file_size);
    put16(&mut v, 0xA5E0);
    put16(&mut v, frames);
    put16(&mut v, width);
    put16(&mut v, height);
    put16(&mut v, depth);
    put32(&mut v, 1); // flags
    put16(&mut v, 100); // speed
    put32(&mut v, 0);
    put32(&mut v, 0);
    v.push(0); // transparent index
    v.extend_from_slice(&[0, 0, 0]);
    put16(&mut v, 1); // colour count
    v.push(1);
    v.push(1);
    put16(&mut v, 0);
    put16(&mut v, 0);
    put16(&mut v, 16);
    put16(&mut v, 16);
    v.resize(128, 0);
    v
}

fn chunk_bytes(ty: u16, payload: &[u8]) -> Vec<u8> {
    let mut v = Vec::new();
    put32(&mut v, 6 + payload.len() as u32);
    put16(&mut v, ty);
    v.extend_from_slice(payload);
    v
}

fn frame_bytes(duration: u16, chunks: &[Vec<u8>]) -> Vec<u8> {
    let body: Vec<u8> = chunks.concat();
    let mut v = Vec::new();
    put32(&mut v, 16 + body.len() as u32);
    put16(&mut v, 0xF1FA);
    put16(&mut v, chunks.len() as u16);
    put16(&mut v, duration);
    put16(&mut v, 0);
    put32(&mut v, 0);
    v.extend_from_slice(&body);
    v
}

fn doc_bytes(frames: &[Vec<u8>], width: u16, height: u16, depth: u16) -> Vec<u8> {
    let body: Vec<u8> = frames.concat();
    let mut v = header_bytes(128 + body.len() as u32, frames.len() as u16, width, height, depth);
    v.extend_from_slice(&body);
    v
}

/// A palette payload of one colour at index 0.
fn palette_payload(r: u8, g: u8, b: u8, a: u8) -> Vec<u8> {
    let mut v = Vec::new();
    put32(&mut v, 1);
    put32(&mut v, 0);
    put32(&mut v, 0);
    v.extend_from_slice(&[0; 8]);
    put16(&mut v, 0);
    v.extend_from_slice(&[r, g, b, a]);
    v
}

/// A raw-image cel payload.
fn cel_payload(width: u16, height: u16, pixels: &[u8]) -> Vec<u8> {
    let mut v = Vec::new();
    put16(&mut v, 0); // layer
    put16(&mut v, 0); // x
    put16(&mut v, 0); // y
    v.push(255); // opacity
    put16(&mut v, 0); // raw image
    put16(&mut v, 0); // z index
    v.extend_from_slice(&[0; 5]);
    put16(&mut v, width);
    put16(&mut v, height);
    v.extend_from_slice(pixels);
    v
}

fn single_pixel_indexed() -> Vec<u8> {
    let frame = frame_bytes(
        100,
        &[chunk_bytes(0x2019, &palette_payload(0, 0, 0, 255)), chunk_bytes(0x2005, &cel_payload(1, 1, &[0]))],
    );
    doc_bytes(&[frame], 1, 1, 8)
}

fn encode(doc: &Aseprite) -> Vec<u8> {
    let mut out = Vec::new();
    doc.write(&mut out);
    out
}

#[test]
fn single_pixel_indexed_document() {
    let bytes = single_pixel_indexed();
    let doc = Aseprite::from_read(&bytes).unwrap();
    assert_eq!(doc.header.frames, 1);
    assert_eq!(doc.header.width, 1);
    assert_eq!(doc.header.height, 1);
    assert_eq!(doc.header.color_depth, ColorDepth::Indexed);
    assert_eq!(doc.frames.len(), 1);
    assert_eq!(doc.frames[0].duration, 100);
    assert_eq!(doc.frames[0].chunks.len(), 2);
    match &doc.frames[0].chunks[0] {
        Chunk::Palette(p) => {
            assert_eq!(p.entries.len(), 1);
            let e = &p.entries[0];
            assert_eq!((e.red, e.green, e.blue, e.alpha), (0, 0, 0, 255));
            assert!(e.name.is_none());
        },
        other => panic!("expected a palette, got {:?}", other),
    }
    match &doc.frames[0].chunks[1] {
        Chunk::Cel(c) => match &c.content {
            CelContent::Image { width, height, pixels } => {
                assert_eq!((*width, *height), (1, 1));
                assert_eq!(pixels, &vec![0u8]);
            },
            other => panic!("expected an image, got {:?}", other),
        },
        other => panic!("expected a cel, got {:?}", other),
    }
    assert_eq!(encode(&doc), bytes);
}

#[test]
fn round_trip_is_byte_exact() {
    let frame_a = frame_bytes(
        50,
        &[chunk_bytes(0x2005, &cel_payload(2, 1, &[1, 2, 3, 4, 5, 6, 7, 8])), chunk_bytes(0x7000, b"extra")],
    );
    let frame_b = frame_bytes(75, &[]);
    let bytes = doc_bytes(&[frame_a, frame_b], 2, 1, 32);
    let doc = Aseprite::from_read(&bytes).unwrap();
    assert_eq!(doc.frames.len(), 2);
    assert_eq!(encode(&doc), bytes);
}

#[test]
fn decoding_an_encoding_is_idempotent() {
    let bytes = single_pixel_indexed();
    let first = Aseprite::from_read(&bytes).unwrap();
    let again = Aseprite::from_read(&encode(&first)).unwrap();
    assert_eq!(encode(&again), encode(&first));
    assert_eq!(again.frames[0].chunks.len(), first.frames[0].chunks.len());
    assert_eq!(again.header.frames, first.header.frames);
}

#[test]
fn every_truncation_is_detected() {
    let bytes = single_pixel_indexed();
    for k in 0..bytes.len() {
        assert_eq!(Aseprite::from_read(&bytes[..k]).unwrap_err(), DecodeError::Truncated, "cut at {}", k);
    }
}

#[test]
fn trailing_bytes_after_the_declared_end_are_left_alone() {
    let bytes = single_pixel_indexed();
    let mut longer = bytes.clone();
    longer.extend_from_slice(&[9, 9, 9]);
    let doc = Aseprite::from_read(&longer).unwrap();
    assert_eq!(encode(&doc), bytes);
}

#[test]
fn flipped_header_magic_is_bad_magic() {
    let bytes = single_pixel_indexed();
    for i in 4..6 {
        for bit in 0..8 {
            let mut b = bytes.clone();
            b[i] ^= 1 << bit;
            assert_eq!(Aseprite::from_read(&b).unwrap_err(), DecodeError::BadMagic);
        }
    }
}

#[test]
fn flipped_frame_magic_is_bad_magic() {
    let bytes = single_pixel_indexed();
    for i in 132..134 {
        for bit in 0..8 {
            let mut b = bytes.clone();
            b[i] ^= 1 << bit;
            assert_eq!(Aseprite::from_read(&b).unwrap_err(), DecodeError::BadMagic);
        }
    }
}

#[test]
fn unknown_chunk_is_preserved() {
    let payload = vec![7u8, 1, 2, 3, 250];
    let frame = frame_bytes(10, &[chunk_bytes(0x7777, &payload)]);
    let bytes = doc_bytes(&[frame], 4, 4, 16);
    let doc = Aseprite::from_read(&bytes).unwrap();
    match &doc.frames[0].chunks[0] {
        Chunk::Unknown { type_code, data } => {
            assert_eq!(*type_code, 0x7777);
            assert_eq!(data, &payload);
        },
        other => panic!("expected an unknown chunk, got {:?}", other),
    }
    assert_eq!(encode(&doc), bytes);
}

#[test]
fn rgba_pixels_in_an_indexed_sprite_are_refused() {
    let frame = frame_bytes(10, &[chunk_bytes(0x2005, &cel_payload(1, 1, &[1, 2, 3, 4]))]);
    let bytes = doc_bytes(&[frame], 1, 1, 8);
    assert_eq!(Aseprite::from_read(&bytes).unwrap_err(), DecodeError::LengthMismatch);
    let frame = frame_bytes(10, &[chunk_bytes(0x2005, &cel_payload(1, 1, &[1, 2, 3, 4]))]);
    assert!(Aseprite::from_read(&doc_bytes(&[frame], 1, 1, 32)).is_ok());
}

#[test]
fn invalid_color_depth_is_refused() {
    let bytes = doc_bytes(&[], 1, 1, 24);
    assert_eq!(Aseprite::from_read(&bytes).unwrap_err(), DecodeError::InvalidColorDepth);
}

#[test]
fn chunk_longer_than_its_frame_is_a_length_mismatch() {
    let mut frame = frame_bytes(10, &[chunk_bytes(0x7777, &[1, 2, 3])]);
    // the chunk claims one byte more than the frame holds
    frame[16] += 1;
    let bytes = doc_bytes(&[frame], 1, 1, 8);
    assert_eq!(Aseprite::from_read(&bytes).unwrap_err(), DecodeError::LengthMismatch);
}

#[test]
fn palette_with_short_payload_is_a_length_mismatch() {
    let mut payload = palette_payload(1, 2, 3, 4);
    payload.pop();
    let frame = frame_bytes(10, &[chunk_bytes(0x2019, &payload)]);
    let bytes = doc_bytes(&[frame], 1, 1, 8);
    assert_eq!(Aseprite::from_read(&bytes).unwrap_err(), DecodeError::LengthMismatch);
}

#[test]
fn file_size_below_the_header_is_a_length_mismatch() {
    let mut bytes = doc_bytes(&[], 1, 1, 8);
    bytes[0] = 100;
    assert_eq!(Aseprite::from_read(&bytes).unwrap_err(), DecodeError::LengthMismatch);
}

#[test]
fn frames_that_do_not_fill_the_file_are_a_length_mismatch() {
    let mut bytes = doc_bytes(&[frame_bytes(10, &[])], 1, 1, 8);
    // declare no frames: the frame bytes are left over
    bytes[6] = 0;
    assert_eq!(Aseprite::from_read(&bytes).unwrap_err(), DecodeError::LengthMismatch);
}

#[test]
fn new_chunk_count_supersedes_old() {
    let chunks = [chunk_bytes(0x7777, &[1]), chunk_bytes(0x7778, &[2])];
    let mut frame = frame_bytes(10, &chunks);
    frame[6] = 5; // old count: wrong
    frame[12] = 2; // new count: right
    let bytes = doc_bytes(&[frame], 1, 1, 8);
    let doc = Aseprite::from_read(&bytes).unwrap();
    assert_eq!(doc.frames[0].chunks.len(), 2);
    assert_eq!(doc.frames[0].old_chunk_count, 5);
    assert_eq!(doc.frames[0].new_chunk_count, 2);
    assert_eq!(encode(&doc), bytes);
}

#[test]
fn named_palette_entry_round_trips() {
    let mut payload = Vec::new();
    put32(&mut payload, 2);
    put32(&mut payload, 0);
    put32(&mut payload, 1);
    payload.extend_from_slice(&[0; 8]);
    put16(&mut payload, 1);
    payload.extend_from_slice(&[10, 20, 30, 40]);
    put16(&mut payload, 3);
    payload.extend_from_slice(b"red");
    put16(&mut payload, 0);
    payload.extend_from_slice(&[50, 60, 70, 80]);
    let frame = frame_bytes(10, &[chunk_bytes(0x2019, &payload)]);
    let bytes = doc_bytes(&[frame], 1, 1, 8);
    let doc = Aseprite::from_read(&bytes).unwrap();
    match &doc.frames[0].chunks[0] {
        Chunk::Palette(p) => {
            assert_eq!(p.entries.len(), 2);
            assert_eq!(p.entries[0].name, Some(b"red".to_vec()));
            assert_eq!(p.entries[1].name, None);
            assert_eq!(p.entries[1].blue, 70);
        },
        other => panic!("expected a palette, got {:?}", other),
    }
    assert_eq!(encode(&doc), bytes);
}

#[test]
fn grayscale_cel_decodes() {
    let frame = frame_bytes(10, &[chunk_bytes(0x2005, &cel_payload(2, 1, &[9, 255, 8, 128]))]);
    let bytes = doc_bytes(&[frame], 2, 1, 16);
    let doc = Aseprite::from_read(&bytes).unwrap();
    match &doc.frames[0].chunks[0] {
        Chunk::Cel(c) => match &c.content {
            CelContent::Image { pixels, .. } => {
                assert_eq!(decode_pixel(pixels, 2, ColorDepth::Grayscale), Pixel::Grayscale { v: 8, a: 128 });
            },
            other => panic!("expected an image, got {:?}", other),
        },
        other => panic!("expected a cel, got {:?}", other),
    }
}

#[test]
fn built_document_encodes_with_derived_sizes() {
    let bytes = single_pixel_indexed();
    let decoded = Aseprite::from_read(&bytes).unwrap();
    let mut header: Header = decoded.header.clone();
    header.frames = 7; // stale: the encoder counts the frames itself
    let palette = PaletteChunk {
        size: 1,
        first: 0,
        last: 0,
        reserved: vec![0; 8],
        entries: vec![PaletteEntry { flags: 0, red: 0, green: 0, blue: 0, alpha: 255, name: None }],
    };
    let cel = CelChunk {
        layer_index: 0,
        x: 0,
        y: 0,
        opacity: 255,
        cel_type: 0,
        z_index: 0,
        reserved: vec![0; 5],
        content: CelContent::Image { width: 1, height: 1, pixels: vec![0] },
    };
    let mut frame = Frame::new(100, vec![Chunk::Palette(palette), Chunk::Cel(cel)]);
    frame.old_chunk_count = 2;
    frame.new_chunk_count = 0;
    let doc = Aseprite::new(header, vec![frame]);
    assert_eq!(encode(&doc), bytes);
}

#[test]
fn frame_new_sets_both_counts() {
    let f = Frame::new(5, vec![Chunk::Unknown { type_code: 1, data: vec![] }]);
    assert_eq!((f.old_chunk_count, f.new_chunk_count, f.reserved), (1, 1, 0));
    assert_eq!(f.duration, 5);
}

#[test]
fn chunk_write_reports_its_length() {
    let c = Chunk::Unknown { type_code: 0x1234, data: vec![1, 2, 3] };
    let mut out = vec![0xEE];
    let n = c.write(&mut out);
    assert_eq!(n, 9);
    assert_eq!(out, vec![0xEE, 9, 0, 0, 0, 0x34, 0x12, 1, 2, 3]);
}

#[test]
fn pixels_take_their_depth_width() {
    let mut out = Vec::new();
    encode_pixel(Pixel::Rgba { r: 1, g: 2, b: 3, a: 4 }, &mut out);
    encode_pixel(Pixel::Indexed(9), &mut out);
    assert_eq!(out, vec![1, 2, 3, 4, 9]);
    assert_eq!(decode_pixel(&out, 0, ColorDepth::Rgba), Pixel::Rgba { r: 1, g: 2, b: 3, a: 4 });
    assert_eq!(ColorDepth::from_code(32), Some(ColorDepth::Rgba));
    assert_eq!(ColorDepth::from_code(12), None);
    assert_eq!(ColorDepth::Grayscale.bytes_per_pixel(), 2);
    assert_eq!(ColorDepth::Indexed.code(), 8);
}

#[test]
fn try_write_matches_write_on_a_valid_document() {
    let bytes = single_pixel_indexed();
    let doc = Aseprite::from_read(&bytes).unwrap();
    let mut out = vec![1, 2];
    assert!(doc.try_write(&mut out));
    assert_eq!(&out[2..], &bytes[..]);
}

#[test]
fn try_write_refuses_a_malformed_header() {
    let bytes = single_pixel_indexed();
    let mut doc = Aseprite::from_read(&bytes).unwrap();
    doc.header.padding.push(0);
    let mut out = vec![1, 2];
    assert!(!doc.try_write(&mut out));
    assert_eq!(out, vec![1, 2]);
}

fn layer_payload(layer_type: u16, name: &[u8], tileset: Option<u32>) -> Vec<u8> {
    let mut v = Vec::new();
    put16(&mut v, 3); // flags
    put16(&mut v, layer_type);
    put16(&mut v, 1); // child level
    put16(&mut v, 0);
    put16(&mut v, 0);
    put16(&mut v, 0); // blend mode
    v.push(200); // opacity
    v.extend_from_slice(&[0, 0, 0]);
    put16(&mut v, name.len() as u16);
    v.extend_from_slice(name);
    if let Some(t) = tileset {
        put32(&mut v, t);
    }
    v
}

#[test]
fn layer_chunks_decode_and_round_trip() {
    let frame = frame_bytes(
        10,
        &[
            chunk_bytes(0x2004, &layer_payload(0, b"background", None)),
            chunk_bytes(0x2004, &layer_payload(2, b"tiles", Some(0x01020304))),
        ],
    );
    let bytes = doc_bytes(&[frame], 1, 1, 8);
    let doc = Aseprite::from_read(&bytes).unwrap();
    match (&doc.frames[0].chunks[0], &doc.frames[0].chunks[1]) {
        (Chunk::Layer(a), Chunk::Layer(b)) => {
            assert_eq!(a.name, b"background".to_vec());
            assert_eq!((a.layer_type, a.child_level, a.opacity, a.tileset_index), (0, 1, 200, None));
            assert_eq!(b.name, b"tiles".to_vec());
            assert_eq!(b.tileset_index, Some(0x01020304));
        },
        other => panic!("expected two layers, got {:?}", other),
    }
    assert_eq!(encode(&doc), bytes);
}

#[test]
fn layer_with_trailing_bytes_is_a_length_mismatch() {
    let mut payload = layer_payload(0, b"x", None);
    payload.push(0);
    let frame = frame_bytes(10, &[chunk_bytes(0x2004, &payload)]);
    let bytes = doc_bytes(&[frame], 1, 1, 8);
    assert_eq!(Aseprite::from_read(&bytes).unwrap_err(), DecodeError::LengthMismatch);
}

#[test]
fn tilemap_layer_without_tileset_is_a_length_mismatch() {
    let frame = frame_bytes(10, &[chunk_bytes(0x2004, &layer_payload(2, b"t", None))]);
    let bytes = doc_bytes(&[frame], 1, 1, 8);
    assert_eq!(Aseprite::from_read(&bytes).unwrap_err(), DecodeError::LengthMismatch);
}

fn color_profile_payload(profile_type: u16, gamma: u32, icc: Option<&[u8]>) -> Vec<u8> {
    let mut v = Vec::new();
    put16(&mut v, profile_type);
    put16(&mut v, 1); // flags: fixed gamma
    put32(&mut v, gamma);
    v.extend_from_slice(&[0; 8]);
    if let Some(d) = icc {
        put32(&mut v, d.len() as u32);
        v.extend_from_slice(d);
    }
    v
}

#[test]
fn color_profiles_decode_and_round_trip() {
    let frame = frame_bytes(
        10,
        &[
            chunk_bytes(0x2007, &color_profile_payload(1, 0x0001_8000, None)),
            chunk_bytes(0x2007, &color_profile_payload(2, 0x0002_0000, Some(b"icc!"))),
        ],
    );
    let bytes = doc_bytes(&[frame], 1, 1, 32);
    let doc = Aseprite::from_read(&bytes).unwrap();
    match (&doc.frames[0].chunks[0], &doc.frames[0].chunks[1]) {
        (Chunk::ColorProfile(a), Chunk::ColorProfile(b)) => {
            assert_eq!((a.profile_type, a.gamma, a.icc.clone()), (1, 0x0001_8000, None));
            assert_eq!(b.icc, Some(b"icc!".to_vec()));
        },
        other => panic!("expected two colour profiles, got {:?}", other),
    }
    assert_eq!(encode(&doc), bytes);
}

#[test]
fn icc_profile_longer_than_its_chunk_is_a_length_mismatch() {
    let mut payload = color_profile_payload(2, 0, Some(b"abc"));
    payload[16] = 9; // claims nine bytes of profile data
    let frame = frame_bytes(10, &[chunk_bytes(0x2007, &payload)]);
    let bytes = doc_bytes(&[frame], 1, 1, 32);
    assert_eq!(Aseprite::from_read(&bytes).unwrap_err(), DecodeError::LengthMismatch);
}

fn one_chunk_document(chunk: Chunk) -> Aseprite {
    let decoded = Aseprite::from_read(&single_pixel_indexed()).unwrap();
    Aseprite::new(decoded.header.clone(), vec![Frame::new(10, vec![chunk])])
}

#[test]
fn try_write_refuses_stale_chunk_counts() {
    let mut doc = one_chunk_document(Chunk::Unknown { type_code: 0x7777, data: vec![1] });
    doc.frames[0].old_chunk_count = 0;
    doc.frames[0].new_chunk_count = 0;
    let mut out = vec![5];
    assert!(!doc.try_write(&mut out));
    assert_eq!(out, vec![5]);
}

#[test]
fn try_write_refuses_a_name_flag_that_disagrees() {
    let palette = PaletteChunk {
        size: 1,
        first: 0,
        last: 0,
        reserved: vec![0; 8],
        entries: vec![PaletteEntry { flags: 1, red: 0, green: 0, blue: 0, alpha: 255, name: None }],
    };
    let doc = one_chunk_document(Chunk::Palette(palette));
    let mut out = Vec::new();
    assert!(!doc.try_write(&mut out));
    assert!(out.is_empty());
}

#[test]
fn try_write_refuses_a_cel_of_the_wrong_pixel_count() {
    let cel = CelChunk {
        layer_index: 0,
        x: 0,
        y: 0,
        opacity: 255,
        cel_type: 0,
        z_index: 0,
        reserved: vec![0; 5],
        content: CelContent::Image { width: 1, height: 1, pixels: vec![1, 2, 3, 4] },
    };
    let doc = one_chunk_document(Chunk::Cel(cel));
    let mut out = Vec::new();
    assert!(!doc.try_write(&mut out));
    assert!(out.is_empty());
}

#[test]
fn try_write_refuses_a_tilemap_layer_without_tileset() {
    let layer = aseprite::chunk::LayerChunk {
        flags: 0,
        layer_type: 2,
        child_level: 0,
        default_width: 0,
        default_height: 0,
        blend_mode: 0,
        opacity: 255,
        reserved: vec![0; 3],
        name: b"t".to_vec(),
        tileset_index: None,
    };
    let doc = one_chunk_document(Chunk::Layer(layer));
    let mut out = Vec::new();
    assert!(!doc.try_write(&mut out));
}

#[test]
fn application_built_document_reads_back() {
    let mut doc = one_chunk_document(Chunk::Unknown { type_code: 0x7777, data: vec![1, 2] });
    doc.header.frames = 40; // stale: recomputed on write
    let mut out = Vec::new();
    assert!(doc.try_write(&mut out));
    let back = Aseprite::from_read(&out).unwrap();
    assert_eq!(back.header.frames, 1);
    assert_eq!(back.frames.len(), 1);
    assert_eq!(back.frames[0].duration, 10);
    assert_eq!((back.frames[0].old_chunk_count, back.frames[0].new_chunk_count, back.frames[0].reserved), (1, 1, 0));
    match &back.frames[0].chunks[0] {
        Chunk::Unknown { type_code, data } => assert_eq!((*type_code, data.clone()), (0x7777, vec![1, 2])),
        other => panic!("expected an unknown chunk, got {:?}", other),
    }
}
