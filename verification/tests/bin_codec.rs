//! The `.bin` polyline dump, with coordinates rounded by `half`.
use gpx_tile_generator::{decode_bin, encode_bin};
use half::f16;

fn narrow(lines: &[Vec<(f32, f32)>]) -> Vec<Vec<(u16, u16)>> {
    lines
        .iter()
        .map(|line| {
            line.iter()
                .map(|&(x, y)| (f16::from_f32(x).to_bits(), f16::from_f32(y).to_bits()))
                .collect()
        })
        .collect()
}

fn widen(lines: &[Vec<(u16, u16)>]) -> Vec<Vec<(f32, f32)>> {
    lines
        .iter()
        .map(|line| {
            line.iter()
                .map(|&(x, y)| (f16::from_bits(x).to_f32(), f16::from_bits(y).to_f32()))
                .collect()
        })
        .collect()
}

#[test]
fn roundtrip_basic() {
    let lines: Vec<Vec<(f32, f32)>> = vec![
        vec![(0.0, 0.0), (100.5, 200.25), (511.0, 256.0)],
        vec![(1.0, 2.0), (3.0, 4.0)],
    ];
    let bytes = encode_bin(&narrow(&lines));
    let back = widen(&decode_bin(&bytes).unwrap());
    assert_eq!(back.len(), lines.len());
    for (a, b) in lines.iter().zip(back.iter()) {
        assert_eq!(a.len(), b.len());
        for (&(ax, ay), &(bx, by)) in a.iter().zip(b.iter()) {
            // Half-precision ULP at 256..512 = 0.25 px.
            assert!((ax - bx).abs() <= 0.25, "x mismatch {ax} vs {bx}");
            assert!((ay - by).abs() <= 0.25, "y mismatch {ay} vs {by}");
        }
    }
}

#[test]
fn roundtrip_tail() {
    let pts: Vec<(f32, f32)> = (0..7).map(|i| (i as f32 * 10.0, i as f32 * 7.5)).collect();
    let lines = vec![pts.clone()];
    let bytes = encode_bin(&narrow(&lines));
    let back = decode_bin(&bytes).unwrap();
    assert_eq!(back[0].len(), pts.len());
}

#[test]
fn roundtrip_empty_and_single_point_lines() {
    let lines: Vec<Vec<(f32, f32)>> = vec![vec![], vec![(7.0, 9.0)]];
    let bytes = encode_bin(&narrow(&lines));
    let back = decode_bin(&bytes).unwrap();
    assert_eq!(back.len(), 2);
    assert!(back[0].is_empty());
    assert_eq!(back[1].len(), 1);
}

#[test]
fn decode_rejects_truncated() {
    let mut bytes = (3u32).to_le_bytes().to_vec();
    bytes.extend_from_slice(&[0u8; 5]); // 5 < 3 * 4
    assert!(decode_bin(&bytes).is_none());
}

#[test]
fn decode_rejects_a_hostile_length_prefix() {
    // Claims u32::MAX points with no payload: must not allocate or wrap.
    let bytes = u32::MAX.to_le_bytes().to_vec();
    assert!(decode_bin(&bytes).is_none());
}

#[test]
fn decode_rejects_a_truncated_header() {
    assert!(decode_bin(&[1, 2, 3]).is_none());
}

#[test]
fn layout_is_count_then_little_endian_halves() {
    // 1.0 is 0x3C00 and -2.0 is 0xC000.
    let bytes = encode_bin(&narrow(&[vec![(1.0, -2.0)], vec![]]));
    assert_eq!(bytes, vec![1, 0, 0, 0, 0x00, 0x3C, 0x00, 0xC0, 0, 0, 0, 0]);
}

#[test]
fn empty_dump_decodes_to_no_polylines() {
    assert!(encode_bin(&[]).is_empty());
    assert_eq!(decode_bin(&[]).unwrap().len(), 0);
}

#[test]
fn a_truncated_second_polyline_is_rejected() {
    let mut bytes = encode_bin(&[vec![(1, 2)], vec![(3, 4), (5, 6)]]);
    assert_eq!(decode_bin(&bytes).unwrap().len(), 2);
    bytes.pop();
    assert!(decode_bin(&bytes).is_none());
}

#[test]
fn decoded_bytes_encode_to_themselves() {
    let bytes = vec![2, 0, 0, 0, 1, 2, 3, 4, 5, 6, 7, 8, 0, 0, 0, 0];
    let lines = decode_bin(&bytes).unwrap();
    assert_eq!(lines, vec![vec![(0x0201, 0x0403), (0x0605, 0x0807)], vec![]]);
    assert_eq!(encode_bin(&lines), bytes);
}

#[test]
fn dumps_can_be_joined() {
    let first = vec![vec![(1, 2), (3, 4)], vec![]];
    let second = vec![vec![(9, 8)]];
    let mut joined = encode_bin(&first);
    joined.extend(encode_bin(&second));
    let all: Vec<Vec<(u16, u16)>> = first.into_iter().chain(second).collect();
    assert_eq!(encode_bin(&all), joined);
    assert_eq!(decode_bin(&joined).unwrap(), all);
}
