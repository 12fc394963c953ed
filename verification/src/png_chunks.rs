//! The chunk structure of a PNG file.
use crate::bytes::{be32, be32_at};
use crate::crc::crc32_of;
use vstd::prelude::*;

verus! {

/// The 8 bytes every PNG starts with.
pub open spec fn signature() -> Seq<u8> {
    seq![0x89u8, 0x50, 0x4E, 0x47, 0x0D, 0x0A, 0x1A, 0x0A]
}

/// The type bytes `IHDR`: the image header.
pub open spec fn ihdr() -> Seq<u8> {
    seq![0x49u8, 0x48, 0x44, 0x52]
}

/// The type bytes `PLTE`: the palette.
pub open spec fn plte() -> Seq<u8> {
    seq![0x50u8, 0x4C, 0x54, 0x45]
}

/// The type bytes `tRNS`: the alpha value of each palette entry.
pub open spec fn trns() -> Seq<u8> {
    seq![0x74u8, 0x52, 0x4E, 0x53]
}

/// The type bytes `IDAT`: the compressed pixels.
pub open spec fn idat() -> Seq<u8> {
    seq![0x49u8, 0x44, 0x41, 0x54]
}

/// The type bytes `IEND`: the end of the file.
pub open spec fn iend() -> Seq<u8> {
    seq![0x49u8, 0x45, 0x4E, 0x44]
}

/// A whole chunk: length, type, data, and the CRC over type and data.
pub open spec fn chunk(kind: Seq<u8>, data: Seq<u8>) -> Seq<u8> {
    be32(data.len() as u32) + kind + data + be32(crc32_of(kind + data))
}

/// The data of the header of a non-interlaced image of 8-bit palette indices.
pub open spec fn indexed_header(width: u32, height: u32) -> Seq<u8> {
    be32(width) + be32(height) + seq![8u8, 3, 0, 0, 0]
}

/// Where the data of the first `PLTE` chunk stands, and its length, on the
/// chain of chunks that starts at `pos`. `None` where the chain reaches the
/// pixels or the end of the file first, or is cut short before.
pub open spec fn find_palette(png: Seq<u8>, pos: int) -> Option<(int, int)>
    decreases png.len() - pos,
{
    if pos < 0 || pos + 12 > png.len() {
        None
    } else {
        let len = be32_at(png, pos);
        let kind = png.subrange(pos + 4, pos + 8);
        let data = pos + 8;
        if data + len + 4 > png.len() {
            None
        } else if kind == plte() {
            Some((data, len))
        } else if kind == idat() || kind == iend() {
            None
        } else {
            find_palette(png, data + len + 4)
        }
    }
}

/// Whether every chunk from `pos` on is whole, up to the end of the file or to
/// its `IEND` chunk.
pub open spec fn chain_is_whole(png: Seq<u8>, pos: int) -> bool
    decreases png.len() - pos,
{
    if pos < 0 || pos + 12 > png.len() {
        pos == png.len()
    } else {
        let end = pos + 8 + be32_at(png, pos) + 4;
        end <= png.len() && (png.subrange(pos + 4, pos + 8) == iend() || chain_is_whole(png, end))
    }
}

/// `len` bytes that repeat the three bytes of `rgb`.
pub open spec fn repeated(rgb: (u8, u8, u8), len: nat) -> Seq<u8> {
    Seq::new(
        len,
        |i: int|
            if i % 3 == 0 {
                rgb.0
            } else if i % 3 == 1 {
                rgb.1
            } else {
                rgb.2
            },
    )
}

/// A file whose palette chunk, at `data` and `len` bytes long, holds `rgb` in
/// every entry and has the CRC that goes with that.
pub open spec fn with_palette(
    png: Seq<u8>,
    data: int,
    len: int,
    rgb: (u8, u8, u8),
) -> Seq<u8> {
    let entries = repeated(rgb, len as nat);
    png.take(data) + entries + be32(crc32_of(plte() + entries)) + png.skip(data + len + 4)
}

/// What repainting a file gives. `None` where it is not a palette PNG, or its
/// chain of chunks is cut short, ahead of the palette or behind it.
pub open spec fn recolored(png: Seq<u8>, rgb: (u8, u8, u8)) -> Option<Seq<u8>> {
    if png.len() < 8 || png.take(8) != signature() {
        None
    } else {
        match find_palette(png, 8) {
            Some((data, len)) => if len == 0 || len % 3 != 0 || !chain_is_whole(
                png,
                data + len + 4,
            ) {
                None
            } else {
                Some(with_palette(png, data, len, rgb))
            },
            None => None,
        }
    }
}

} // verus!
