//! Encoding coverage and repainting it.
use gpx_tile_generator::crc::crc32;
use gpx_tile_generator::{
    encode_indexed_coverage, encode_indexed_coverage_rgb, recolor_indexed_png, TILE_SIZE,
};

const SIGNATURE: [u8; 8] = [0x89, b'P', b'N', b'G', 0x0D, 0x0A, 0x1A, 0x0A];

fn ramp() -> Vec<u8> {
    (0..(TILE_SIZE * TILE_SIZE))
        .map(|i| (i % 251) as u8)
        .collect()
}

fn chunk(kind: &[u8; 4], data: &[u8]) -> Vec<u8> {
    let mut out = (data.len() as u32).to_be_bytes().to_vec();
    out.extend_from_slice(kind);
    out.extend_from_slice(data);
    let crc = crc32(&out[4..]);
    out.extend_from_slice(&crc.to_be_bytes());
    out
}

fn file(chunks: &[Vec<u8>]) -> Vec<u8> {
    let mut out = SIGNATURE.to_vec();
    for c in chunks {
        out.extend_from_slice(c);
    }
    out
}

/// The whole point of the palette trick: repainting an encoded tile has to
/// land on exactly the bytes a direct encode in that color would produce.
#[test]
fn recolor_matches_a_direct_encode() {
    let coverage = ramp();
    let red = (0xFF, 0x3B, 0x30);

    let blue_png = encode_indexed_coverage(&coverage);
    let repainted = recolor_indexed_png(&blue_png, red).unwrap();

    assert_eq!(repainted, encode_indexed_coverage_rgb(&coverage, red));
    // Only the palette moved; the compressed pixels are untouched.
    assert_eq!(repainted.len(), blue_png.len());
}

#[test]
fn recolor_rejects_non_palette_input() {
    assert!(recolor_indexed_png(b"not a png at all", (1, 2, 3)).is_none());
    assert!(recolor_indexed_png(&SIGNATURE, (1, 2, 3)).is_none());
}

#[test]
fn encoded_tile_decodes_to_the_coverage_it_was_given() {
    let coverage = ramp();
    let png_bytes = encode_indexed_coverage(&coverage);

    let mut decoder = png::Decoder::new(std::io::Cursor::new(&png_bytes));
    // Without EXPAND the reader hands back raw palette indices, not the
    // RGBA a map client would see.
    decoder.set_transformations(png::Transformations::EXPAND);
    let mut reader = decoder.read_info().unwrap();
    let mut buf = vec![0; reader.output_buffer_size()];
    let info = reader.next_frame(&mut buf).unwrap();

    assert_eq!(info.width, TILE_SIZE);
    assert_eq!(info.height, TILE_SIZE);
    assert_eq!(info.color_type, png::ColorType::Rgba);
    // Alpha of the expanded RGBA is the coverage byte we put in.
    let alphas: Vec<u8> = buf[..info.buffer_size()]
        .chunks_exact(4)
        .map(|px| px[3])
        .collect();
    assert_eq!(alphas, coverage);
}

#[test]
fn every_pixel_decodes_to_the_color() {
    let png_bytes = encode_indexed_coverage_rgb(&ramp(), (9, 8, 7));
    let mut decoder = png::Decoder::new(std::io::Cursor::new(&png_bytes));
    decoder.set_transformations(png::Transformations::EXPAND);
    let mut reader = decoder.read_info().unwrap();
    let mut buf = vec![0; reader.output_buffer_size()];
    reader.next_frame(&mut buf).unwrap();
    assert!(buf.chunks_exact(4).all(|px| px[..3] == [9, 8, 7]));
}

#[test]
fn encoded_tile_opens_with_header_palette_and_alphas() {
    let png = encode_indexed_coverage_rgb(&ramp(), (1, 2, 3));
    let header = chunk(b"IHDR", &[0, 0, 2, 0, 0, 0, 2, 0, 8, 3, 0, 0, 0]);
    let entries: Vec<u8> = [1u8, 2, 3].iter().copied().cycle().take(768).collect();
    let alphas: Vec<u8> = (0..=255u8).collect();
    let head = file(&[header, chunk(b"PLTE", &entries), chunk(b"tRNS", &alphas)]);
    assert_eq!(png[..head.len()], head[..]);
    assert_eq!(&png[head.len() + 4..head.len() + 8], b"IDAT");
    let end = chunk(b"IEND", &[]);
    assert_eq!(png[png.len() - end.len()..], end[..]);
}

#[test]
fn the_image_stream_does_not_depend_on_the_color() {
    let a = encode_indexed_coverage_rgb(&ramp(), (1, 2, 3));
    let b = encode_indexed_coverage_rgb(&ramp(), (200, 100, 50));
    // Signature, header chunk, palette chunk with its CRC.
    assert_eq!(a[..41], b[..41]);
    assert_ne!(a[41..813], b[41..813]);
    assert_eq!(a[813..], b[813..]);
}

#[test]
fn crc_of_the_check_string() {
    assert_eq!(crc32(b"123456789"), 0xCBF4_3926);
    assert_eq!(crc32(b""), 0);
    assert_eq!(crc32(b"IEND"), 0xAE42_6082);
}

#[test]
fn recolor_walks_past_leading_chunks() {
    let png = file(&[
        chunk(b"IHDR", &[0; 13]),
        chunk(b"gAMA", &[0, 0, 0xB1, 0x8F]),
        chunk(b"PLTE", &[1, 2, 3, 4, 5, 6]),
        chunk(b"IDAT", &[7, 7]),
        chunk(b"IEND", &[]),
    ]);
    let expected = file(&[
        chunk(b"IHDR", &[0; 13]),
        chunk(b"gAMA", &[0, 0, 0xB1, 0x8F]),
        chunk(b"PLTE", &[9, 8, 7, 9, 8, 7]),
        chunk(b"IDAT", &[7, 7]),
        chunk(b"IEND", &[]),
    ]);
    assert_eq!(recolor_indexed_png(&png, (9, 8, 7)).unwrap(), expected);
}

#[test]
fn recolor_rejects_a_palette_behind_the_pixels() {
    let idat_first = file(&[chunk(b"IDAT", &[7]), chunk(b"PLTE", &[1, 2, 3])]);
    assert!(recolor_indexed_png(&idat_first, (0, 0, 0)).is_none());
    let iend_first = file(&[chunk(b"IEND", &[]), chunk(b"PLTE", &[1, 2, 3])]);
    assert!(recolor_indexed_png(&iend_first, (0, 0, 0)).is_none());
}

#[test]
fn recolor_rejects_odd_and_empty_palettes() {
    let odd = file(&[chunk(b"PLTE", &[1, 2, 3, 4])]);
    assert!(recolor_indexed_png(&odd, (0, 0, 0)).is_none());
    let empty = file(&[chunk(b"PLTE", &[])]);
    assert!(recolor_indexed_png(&empty, (0, 0, 0)).is_none());
}

#[test]
fn recolor_rejects_a_truncated_chain() {
    let mut png = file(&[chunk(b"IHDR", &[0; 13]), chunk(b"PLTE", &[1, 2, 3])]);
    assert!(recolor_indexed_png(&png, (0, 0, 0)).is_some());
    png.pop();
    assert!(recolor_indexed_png(&png, (0, 0, 0)).is_none());
    // A length that runs far past the end.
    let mut hostile = SIGNATURE.to_vec();
    hostile.extend_from_slice(&[0xFF, 0xFF, 0xFF, 0xFF]);
    hostile.extend_from_slice(b"PLTE");
    hostile.extend_from_slice(&[0; 16]);
    assert!(recolor_indexed_png(&hostile, (0, 0, 0)).is_none());
}

#[test]
fn repainting_twice_is_repainting_once() {
    let png = encode_indexed_coverage(&ramp());
    let once = recolor_indexed_png(&png, (1, 1, 1)).unwrap();
    let twice = recolor_indexed_png(&once, (2, 3, 4)).unwrap();
    assert_eq!(twice, recolor_indexed_png(&png, (2, 3, 4)).unwrap());
    assert_eq!(recolor_indexed_png(&png, (0x00, 0x7A, 0xFF)).unwrap(), png);
}

#[test]
fn the_file_tells_its_tile() {
    let coverage = ramp();
    let mut other = coverage.clone();
    other[100_000] ^= 1;
    let png = encode_indexed_coverage_rgb(&coverage, (1, 2, 3));
    assert_ne!(png, encode_indexed_coverage_rgb(&other, (1, 2, 3)));
    assert_ne!(png, encode_indexed_coverage_rgb(&coverage, (1, 2, 4)));
    assert_eq!(png, encode_indexed_coverage_rgb(&coverage, (1, 2, 3)));
}

#[test]
fn recolor_rejects_a_tile_that_was_cut() {
    let png = encode_indexed_coverage(&vec![0u8; 512 * 512]);
    assert!(recolor_indexed_png(&png, (1, 2, 3)).is_some());
    for cut in 1..12 {
        assert!(recolor_indexed_png(&png[..png.len() - cut], (1, 2, 3)).is_none());
    }
    // In the middle of the pixels, and in the alpha table.
    assert!(recolor_indexed_png(&png[..png.len() - 20], (1, 2, 3)).is_none());
    assert!(recolor_indexed_png(&png[..900], (1, 2, 3)).is_none());
    // What follows the last chunk is not read.
    let mut longer = png.clone();
    longer.push(0);
    assert!(recolor_indexed_png(&longer, (1, 2, 3)).is_some());
}
