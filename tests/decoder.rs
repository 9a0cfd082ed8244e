use ppm_decoder::{read_n_to_vec, strip_null, vec_u8_to_string, PPMParser, PpmError};

const BLACK: (u8, u8, u8) = (0x0E, 0x0E, 0x0E);
const WHITE: (u8, u8, u8) = (0xFF, 0xFF, 0xFF);
const RED: (u8, u8, u8) = (0xFF, 0x2A, 0x2A);
const BLUE: (u8, u8, u8) = (0x0A, 0x39, 0xFF);

fn put16(b: &mut Vec<u8>, at: usize, v: u16) {
    b[at..at + 2].copy_from_slice(&v.to_le_bytes());
}

fn put32(b: &mut Vec<u8>, at: usize, v: u32) {
    b[at..at + 4].copy_from_slice(&v.to_le_bytes());
}

/// A container holding `frames`, each the encoded bytes of one frame, with
/// the given stored frame-speed byte.
fn container_with_speed(frames: &[Vec<u8>], speed_byte: u8) -> Vec<u8> {
    let n = frames.len();
    let table_size = 4 * n;
    let mut b = vec![0u8; 0x6A8 + table_size];
    b[0..4].copy_from_slice(b"PARA");
    put16(&mut b, 12, (n - 1) as u16);
    put16(&mut b, 0x6A0, table_size as u16);
    let mut rel = 0u32;
    for (k, f) in frames.iter().enumerate() {
        put32(&mut b, 0x6A8 + 4 * k, rel);
        rel += f.len() as u32;
    }
    for f in frames {
        b.extend_from_slice(f);
    }
    let animation_data_size = (b.len() - 0x6A0) as u32;
    put32(&mut b, 4, animation_data_size);
    let mut sound_at = 0x6A0 + animation_data_size as usize + n;
    if sound_at % 2 != 0 {
        sound_at += 4 - sound_at % 4;
    }
    b.resize(sound_at + 16, 0);
    b.push(speed_byte);
    b.push(0);
    b
}

fn container(frames: &[Vec<u8>]) -> Vec<u8> {
    container_with_speed(frames, 0)
}

/// A frame whose header byte is `header`, with translation bytes where given,
/// line-type tables `types0` and `types1`, and then the row data `data`.
fn frame(header: u8, translation: Option<(i8, i8)>, types0: [u8; 48], types1: [u8; 48], data: &[u8]) -> Vec<u8> {
    let mut f = vec![header];
    if let Some((tx, ty)) = translation {
        f.push(tx as u8);
        f.push(ty as u8);
    }
    f.extend_from_slice(&types0);
    f.extend_from_slice(&types1);
    f.extend_from_slice(data);
    f
}

fn loaded(bytes: Vec<u8>) -> PPMParser {
    let mut p = PPMParser::new(bytes);
    p.load().unwrap();
    p
}

/// Line types with row `line` of raw type and all others empty.
fn one_raw_line(line: usize) -> [u8; 48] {
    let mut t = [0u8; 48];
    t[line / 4] |= 3 << ((line % 4) * 2);
    t
}

#[test]
fn blank_new_frame_and_missing_pen() {
    let bytes = container(&[frame(0x80, None, [0; 48], [0; 48], &[])]);
    let mut p = loaded(bytes);
    assert_eq!(p.get_frame_count(), 1);
    let pixels = p.get_frame_pixels(0).unwrap();
    assert_eq!(pixels.len(), 192);
    assert!(pixels.iter().all(|r| r.len() == 256 && r.iter().all(|&v| v == 0)));
    assert_eq!(p.get_frame_palette(0), Err(PpmError::InvalidPenIndex));
}

#[test]
fn white_paper_palette() {
    // new, white paper, layer one pen 2, layer two pen 3
    let bytes = container(&[frame(0x81 | (2 << 1) | (3 << 3), None, [0; 48], [0; 48], &[])]);
    let p = loaded(bytes);
    assert_eq!(p.get_frame_palette(0).unwrap(), vec![WHITE, RED, BLUE]);
}

#[test]
fn pen_one_is_opposite_of_paper() {
    let bytes = container(&[
        frame(0x81 | (1 << 1) | (1 << 3), None, [0; 48], [0; 48], &[]),
        frame(0x80 | (1 << 1) | (2 << 3), None, [0; 48], [0; 48], &[]),
    ]);
    let p = loaded(bytes);
    assert_eq!(p.get_frame_palette(0).unwrap(), vec![WHITE, BLACK, BLACK]);
    assert_eq!(p.get_frame_palette(1).unwrap(), vec![BLACK, WHITE, RED]);
    assert_eq!(p.get_frame_palette(2), Err(PpmError::InvalidFrameIndex));
}

#[test]
fn xor_with_empty_frame_keeps_previous() {
    let mut raw = vec![0u8; 32];
    raw[0] = 0x01;
    let bytes = container(&[
        frame(0x80, None, one_raw_line(0), [0; 48], &raw),
        frame(0x00, None, [0; 48], [0; 48], &[]),
    ]);
    let mut p = loaded(bytes);
    let f0 = p.get_frame_pixels(0).unwrap();
    assert_eq!(f0[0][0], 1);
    assert_eq!(f0[0].iter().filter(|&&v| v != 0).count(), 1);
    assert!(f0[1..].iter().all(|r| r.iter().all(|&v| v == 0)));
    let f1 = p.get_frame_pixels(1).unwrap();
    assert_eq!(f1, f0);
}

#[test]
fn translation_shifts_previous_frame_down() {
    // frame 0: row 0 has pixel 0 set, row 5 is all set, row 191 has pixel 7 set
    let mut types = one_raw_line(0);
    types[5 / 4] |= 3 << ((5 % 4) * 2);
    types[191 / 4] |= 3 << ((191 % 4) * 2);
    let mut data = vec![0u8; 96];
    data[0] = 0x01;
    for b in &mut data[32..64] {
        *b = 0xFF;
    }
    data[64] = 0x80;
    let bytes = container(&[
        frame(0x80, None, types, [0; 48], &data),
        frame(0x20, Some((0, 1)), [0; 48], [0; 48], &[]),
    ]);
    let mut p = loaded(bytes);
    let f0 = p.get_frame_pixels(0).unwrap();
    let f1 = p.get_frame_pixels(1).unwrap();
    assert!(f1[0].iter().all(|&v| v == 0));
    for y in 1..192 {
        assert_eq!(f1[y], f0[y - 1], "row {}", y);
    }
    assert_eq!(f1[1][0], 1);
    assert!(f1[6].iter().all(|&v| v == 1));
}

#[test]
fn translation_to_the_left_and_up() {
    let mut data = vec![0u8; 32];
    data[0] = 0x03; // pixels 0 and 1 of row 1
    let mut types = [0u8; 48];
    types[0] |= 3 << 2; // row 1 raw
    let bytes = container(&[
        frame(0x80, None, types, [0; 48], &data),
        frame(0x40, Some((-1, -1)), [0; 48], [0; 48], &[]),
    ]);
    let mut p = loaded(bytes);
    let f1 = p.get_frame_pixels(1).unwrap();
    // cell (y, x) takes the previous cell (y + 1, x + 1)
    assert_eq!(f1[0][0], 1);
    assert_eq!(f1[0][1], 0);
    assert_eq!(f1.iter().flatten().filter(|&&v| v != 0).count(), 1);
}

#[test]
fn translation_bytes_are_consumed() {
    let mut data = vec![0u8; 32];
    data[1] = 0x02; // pixel 9 of row 0
    for &h in &[0x80u8 | 0x20, 0x80 | 0x40] {
        let bytes = container(&[frame(h, Some((5, 7)), one_raw_line(0), [0; 48], &data)]);
        let mut p = loaded(bytes);
        let f = p.get_frame_pixels(0).unwrap();
        assert_eq!(f[0][9], 1);
        assert_eq!(f.iter().flatten().filter(|&&v| v != 0).count(), 1);
    }
}

#[test]
fn speed_byte_three_gives_six_frames_per_second() {
    let bytes = container_with_speed(&[frame(0x80, None, [0; 48], [0; 48], &[])], 3);
    let p = loaded(bytes);
    assert_eq!(p.metadata().frame_speed, 5);
    assert_eq!(p.get_framerate_milli(), 6000);
    assert_eq!(p.get_framerate_milli() as f64 / 1000.0, 6.0);
}

#[test]
fn framerate_table() {
    let expected = [30000u32, 20000, 12000, 6000, 4000, 2000, 1000, 500];
    for (raw, want) in expected.iter().enumerate() {
        let bytes = container_with_speed(&[frame(0x80, None, [0; 48], [0; 48], &[])], raw as u8);
        let p = loaded(bytes);
        assert_eq!(p.metadata().frame_speed, 8 - raw as u8);
        assert_eq!(p.get_framerate_milli(), *want);
    }
}

#[test]
fn invalid_speed_is_an_error() {
    for raw in [8u8, 9, 200] {
        let bytes = container_with_speed(&[frame(0x80, None, [0; 48], [0; 48], &[])], raw);
        let mut p = PPMParser::new(bytes);
        assert_eq!(p.load(), Err(PpmError::InvalidSpeed));
    }
}

#[test]
fn chunked_lines() {
    // row 0 type 1: groups 0 and 31 stored; row 1 type 2: group 1 stored as zero
    let mut types = [0u8; 48];
    types[0] = 1 | (2 << 2);
    let mut data = vec![];
    data.extend_from_slice(&0x8000_0001u32.to_be_bytes());
    data.push(0x81);
    data.push(0xF0);
    data.extend_from_slice(&0x4000_0000u32.to_be_bytes());
    data.push(0x00);
    let bytes = container(&[frame(0x80, None, types, [0; 48], &data)]);
    let mut p = loaded(bytes);
    let f = p.get_frame_pixels(0).unwrap();
    let mut row0 = vec![0u8; 256];
    row0[0] = 1;
    row0[7] = 1;
    for x in 252..256 {
        row0[x] = 1;
    }
    assert_eq!(f[0], row0);
    let mut row1 = vec![1u8; 256];
    for x in 8..16 {
        row1[x] = 0;
    }
    assert_eq!(f[1], row1);
}

#[test]
fn layer_one_wins_over_layer_two() {
    let mut d0 = vec![0u8; 32];
    d0[0] = 0x01;
    let mut d1 = vec![0u8; 32];
    d1[0] = 0x03;
    let mut data = d0.clone();
    data.extend_from_slice(&d1);
    let bytes = container(&[frame(0x80, None, one_raw_line(0), one_raw_line(0), &data)]);
    let mut p = loaded(bytes);
    let f = p.get_frame_pixels(0).unwrap();
    assert_eq!(f[0][0], 1);
    assert_eq!(f[0][1], 2);
    assert_eq!(f[0][2], 0);
}

fn three_frame_chain() -> Vec<u8> {
    let mut a = vec![0u8; 32];
    a[0] = 0x0F;
    let mut b = vec![0u8; 32];
    b[0] = 0x3C;
    let mut c = vec![0u8; 32];
    c[31] = 0x80;
    container(&[
        frame(0x80, None, one_raw_line(3), [0; 48], &a),
        frame(0x00, None, one_raw_line(3), [0; 48], &b),
        frame(0x00, None, [0; 48], one_raw_line(4), &c),
    ])
}

#[test]
fn chain_is_resolved_whatever_was_decoded_before() {
    let bytes = three_frame_chain();
    let mut cold = loaded(bytes.clone());
    let f2_cold = cold.get_frame_pixels(2).unwrap();
    let mut warm = loaded(bytes.clone());
    warm.get_frame_pixels(1).unwrap();
    let f2_warm = warm.get_frame_pixels(2).unwrap();
    assert_eq!(f2_cold, f2_warm);
    // row 3: 0x0F xor 0x3C = 0x33
    let expect: Vec<u8> = (0..256).map(|x| if x < 8 && (0x33 >> x) & 1 == 1 { 1 } else { 0 }).collect();
    assert_eq!(f2_cold[3], expect);
    assert_eq!(f2_cold[4][255], 2);
}

#[test]
fn repeated_and_interleaved_decodes_agree() {
    let bytes = three_frame_chain();
    let mut p = loaded(bytes.clone());
    let first = p.get_frame_pixels(1).unwrap();
    let second = p.get_frame_pixels(1).unwrap();
    assert_eq!(first, second);
    for j in [2usize, 0, 1, 2] {
        p.get_frame_pixels(j).unwrap();
        let again = p.get_frame_pixels(1).unwrap();
        assert_eq!(again, first);
        let mut fresh = loaded(bytes.clone());
        assert_eq!(fresh.get_frame_pixels(1).unwrap(), again);
    }
}

#[test]
fn new_frame_ignores_earlier_bytes() {
    let mut a = vec![0u8; 32];
    a[0] = 0xFF;
    let mut b = vec![0u8; 32];
    b[2] = 0x10;
    let one = container(&[
        frame(0x80, None, one_raw_line(0), [0; 48], &a),
        frame(0x80, None, one_raw_line(9), [0; 48], &b),
    ]);
    let two = container(&[
        frame(0x80, None, [0; 48], [0; 48], &[]),
        frame(0x80, None, one_raw_line(9), [0; 48], &b),
    ]);
    let mut p = loaded(one);
    let mut q = loaded(two);
    assert_eq!(p.get_frame_pixels(1).unwrap(), q.get_frame_pixels(1).unwrap());
}

#[test]
fn first_frame_not_new_composes_with_blank() {
    let mut a = vec![0u8; 32];
    a[0] = 0x01;
    let bytes = container(&[frame(0x00, None, one_raw_line(0), [0; 48], &a)]);
    let mut p = loaded(bytes);
    let f = p.get_frame_pixels(0).unwrap();
    assert_eq!(f[0][0], 1);
    assert_eq!(f.iter().flatten().filter(|&&v| v != 0).count(), 1);
}

#[test]
fn frame_count_is_stored_count_plus_one() {
    let frames: Vec<Vec<u8>> = (0..4).map(|_| frame(0x80, None, [0; 48], [0; 48], &[])).collect();
    let bytes = container(&frames);
    assert_eq!(u16::from_le_bytes([bytes[12], bytes[13]]), 3);
    let p = loaded(bytes);
    assert_eq!(p.get_frame_count(), 4);
    assert_eq!(p.metadata().frame_count, 4);
}

#[test]
fn invalid_frame_index() {
    let mut p = loaded(container(&[frame(0x80, None, [0; 48], [0; 48], &[])]));
    assert_eq!(p.get_frame_pixels(1), Err(PpmError::InvalidFrameIndex));
    let mut unloaded = PPMParser::new(vec![]);
    assert_eq!(unloaded.get_frame_pixels(0), Err(PpmError::InvalidFrameIndex));
}

#[test]
fn stream_cut_inside_frame_data() {
    let mut data = vec![0u8; 32];
    data[0] = 1;
    let bytes = container(&[frame(0x80, None, one_raw_line(191), [0; 48], &data)]);
    let mut p = loaded(bytes.clone());
    assert!(p.get_frame_pixels(0).is_ok());
    let cut = bytes[..0x6AC + 97 + 10].to_vec();
    let mut r = PPMParser::new(cut);
    assert_eq!(r.load(), Err(PpmError::Truncated));
}

#[test]
fn frame_data_past_the_end_is_truncated() {
    // the frame's offset points into the sound header, whose data runs out
    let mut bytes = container(&[frame(0x80, None, [0; 48], [0; 48], &[])]);
    let n = bytes.len();
    // offset table entry: point the frame at the last bytes of the stream
    let at = (n - 5 - 0x6AC) as u32;
    put32(&mut bytes, 0x6A8, at);
    put32(&mut bytes, 4, (n + 64 - 0x6A0) as u32);
    let extra = {
        let mut s = 0x6A0 + (n + 64 - 0x6A0) + 1;
        if s % 2 != 0 {
            s += 4 - s % 4;
        }
        s + 18
    };
    bytes.resize(extra, 0);
    let mut p = PPMParser::new(bytes);
    p.load().unwrap();
    assert_eq!(p.get_frame_pixels(0), Err(PpmError::Truncated));
}

#[test]
fn short_input_is_truncated() {
    let mut p = PPMParser::new(b"PARA".to_vec());
    assert_eq!(p.load(), Err(PpmError::Truncated));
    let mut bytes = container(&[frame(0x80, None, [0; 48], [0; 48], &[])]);
    bytes.truncate(0x200);
    let mut q = PPMParser::new(bytes);
    assert_eq!(q.load(), Err(PpmError::Truncated));
}

#[test]
fn bad_magic() {
    let mut bytes = container(&[frame(0x80, None, [0; 48], [0; 48], &[])]);
    bytes[0] = b'X';
    let mut p = PPMParser::new(bytes);
    assert_eq!(p.load(), Err(PpmError::BadMagic));
    assert_eq!(p.get_frame_count(), 0);
}

#[test]
fn invalid_author_name() {
    let mut bytes = container(&[frame(0x80, None, [0; 48], [0; 48], &[])]);
    bytes[0x2A] = 0xFF;
    let mut p = PPMParser::new(bytes);
    assert_eq!(p.load(), Err(PpmError::InvalidText));
}

#[test]
fn offset_outside_animation_region() {
    let mut bytes = container(&[frame(0x80, None, [0; 48], [0; 48], &[])]);
    put32(&mut bytes, 0x6A8, 0x1000);
    let mut p = PPMParser::new(bytes);
    assert_eq!(p.load(), Err(PpmError::InvalidOffsetTable));
}

#[test]
fn table_size_must_match_frame_count() {
    let mut bytes = container(&[frame(0x80, None, [0; 48], [0; 48], &[])]);
    put16(&mut bytes, 12, 1);
    let mut p = PPMParser::new(bytes);
    assert_eq!(p.load(), Err(PpmError::InvalidOffsetTable));
}

#[test]
fn metadata_fields() {
    let mut bytes = container(&[frame(0x80, None, [0; 48], [0; 48], &[])]);
    put16(&mut bytes, 0x10, 1);
    put16(&mut bytes, 0x12, 0);
    // root author name "Ab" in UTF-16LE: NUL bytes are dropped
    bytes[0x14] = b'A';
    bytes[0x16] = b'b';
    bytes[0x56..0x5E].copy_from_slice(&[0x01, 0x23, 0x45, 0x67, 0x89, 0xAB, 0xCD, 0xEF]);
    bytes[0x66..0x69].copy_from_slice(&[0xF7, 0x8D, 0xA8]);
    bytes[0x69..0x76].copy_from_slice(b"14768882B56B8");
    put16(&mut bytes, 0x76, 30);
    bytes[0x78..0x7B].copy_from_slice(&[0x00, 0x0A, 0xFF]);
    bytes[0x7B..0x88].copy_from_slice(b"ABCDEFGHIJKLM");
    put16(&mut bytes, 0x88, 1234);
    put32(&mut bytes, 0x9A, 100);
    put32(&mut bytes, 0x6A4, (1 << 11) | (1 << 1));
    let p = loaded(bytes);
    let m = p.metadata();
    assert_eq!(m.lock, 1);
    assert_eq!(m.root_author_name, "Ab");
    assert_eq!(m.parent_author_name, "");
    assert_eq!(m.parent_author_id, "EFCDAB8967452301");
    assert_eq!(m.current_author_id, "0000000000000000");
    assert_eq!(m.parent_filename, "F78DA8_14768882B56B8_030");
    assert_eq!(m.current_filename, "000AFF_ABCDEFGHIJKLM_1234");
    assert_eq!(m.timestamp, 946_684_800 + 100);
    assert!(m.layer_1_visible);
    assert!(!m.layer_2_visible);
    assert!(m.loop_);
    assert_eq!(p.get_thumb_index(), 0);
}

#[test]
fn timestamp_counts_from_2000() {
    let mut bytes = container(&[frame(0x80, None, [0; 48], [0; 48], &[])]);
    put32(&mut bytes, 0x9A, u32::MAX);
    let p = loaded(bytes);
    assert_eq!(p.metadata().timestamp, 946_684_800 + u32::MAX as i64);
}

#[test]
fn sound_header_alignment_for_odd_offset() {
    // one frame of 97 bytes: 0x6A0 + (8 + 4 + 97) + 1 is even, so no padding;
    // two frames make it odd, and the header moves up to a multiple of four
    let f = frame(0x80, None, [0; 48], [0; 48], &[]);
    for frames in [vec![f.clone()], vec![f.clone(), f.clone()]] {
        let bytes = container_with_speed(&frames, 2);
        let p = loaded(bytes);
        assert_eq!(p.metadata().frame_speed, 6);
    }
}

#[test]
fn thumbnail_tiles() {
    let mut bytes = container(&[frame(0x80, None, [0; 48], [0; 48], &[])]);
    bytes[0xA0] = 0x21; // tile 0, line 0: pixels 0 and 1
    bytes[0xA0 + 32 + 4] = 0x0F; // tile 1, line 1: pixel 0
    let p = loaded(bytes);
    let t = p.read_thumbnail().unwrap();
    assert_eq!(t.len(), 48);
    assert_eq!(t[0].len(), 64);
    assert_eq!(t[0][0], 1);
    assert_eq!(t[0][1], 2);
    assert_eq!(t[1][8], 15);
    assert_eq!(t.iter().flatten().filter(|&&v| v != 0).count(), 3);
}

#[test]
fn strip_null_removes_zero_bytes() {
    assert_eq!(strip_null(&vec![0, b'a', 0, 0, b'b', 0]), b"ab".to_vec());
    assert_eq!(strip_null(&vec![]), Vec::<u8>::new());
}

#[test]
fn hex_is_reversed_and_uppercase() {
    assert_eq!(vec_u8_to_string(&vec![0x0a, 0xbc, 0x01]), "01BC0A");
    assert_eq!(vec_u8_to_string(&vec![]), "");
}

#[test]
fn read_n_bytes() {
    let v = vec![1u8, 2, 3, 4, 5];
    assert_eq!(read_n_to_vec(&v, 1, 3), Ok(vec![2, 3, 4]));
    assert_eq!(read_n_to_vec(&v, 3, 3), Err(PpmError::Truncated));
    assert_eq!(read_n_to_vec(&v, 5, 0), Ok(vec![]));
}

#[test]
fn author_name_decodes_utf8() {
    let mut bytes = container(&[frame(0x80, None, [0; 48], [0; 48], &[])]);
    bytes[0x40..0x44].copy_from_slice(&[0xC3, 0xA9, 0x00, b'z']);
    let p = loaded(bytes);
    assert_eq!(p.metadata().current_author_name, "\u{e9}z");
}

#[test]
fn default_parser_has_no_frames() {
    let mut p = PPMParser::default();
    assert_eq!(p.get_frame_count(), 0);
    assert_eq!(p.load(), Err(PpmError::Truncated));
    assert_eq!(p.get_frame_palette(0), Err(PpmError::InvalidFrameIndex));
    assert_eq!(p.read_thumbnail(), Err(PpmError::Truncated));
}
