//! The pixel sizes of images, read from their headers.

use vstd::prelude::*;

verus! {

/// True when the bytes begin with these.
pub open spec fn begins(bytes: Seq<u8>, start: Seq<u8>) -> bool {
    start.len() <= bytes.len() && bytes.take(start.len() as int) == start
}

/// The first bytes of a PNG.
pub open spec fn png_start() -> Seq<u8> {
    seq![0x89u8, 0x50u8, 0x4eu8, 0x47u8, 0x0du8, 0x0au8, 0x1au8, 0x0au8]
}

/// The first bytes of a GIF, in either version.
pub open spec fn is_gif(bytes: Seq<u8>) -> bool {
    begins(bytes, seq![0x47u8, 0x49u8, 0x46u8, 0x38u8, 0x37u8, 0x61u8]) || begins(
        bytes,
        seq![0x47u8, 0x49u8, 0x46u8, 0x38u8, 0x39u8, 0x61u8],
    )
}

/// Two bytes at `i`, the high byte first.
pub open spec fn big16(bytes: Seq<u8>, i: int) -> int {
    bytes[i] * 256 + bytes[i + 1]
}

/// Two bytes at `i`, the low byte first.
pub open spec fn little16(bytes: Seq<u8>, i: int) -> int {
    bytes[i + 1] * 256 + bytes[i]
}

/// Four bytes at `i`, the highest first.
pub open spec fn big32(bytes: Seq<u8>, i: int) -> int {
    big16(bytes, i) * 65536 + big16(bytes, i + 2)
}

/// The markers of a JPEG frame header.
pub open spec fn is_frame_marker(marker: u8) -> bool {
    0xc0 <= marker <= 0xcf && marker != 0xc4 && marker != 0xc8 && marker != 0xcc
}

/// The (width, height) in the first JPEG frame header at or after
/// `position`. Each other segment is skipped by its length.
pub open spec fn jpeg_size_from(bytes: Seq<u8>, position: int) -> Option<(int, int)>
    decreases
            if position < bytes.len() {
                bytes.len() - position
            } else {
                0
            },
{
    if !(0 <= position && position + 9 < bytes.len()) {
        None
    } else if bytes[position] != 0xff {
        jpeg_size_from(bytes, position + 1)
    } else if is_frame_marker(bytes[position + 1]) {
        Some((big16(bytes, position + 7), big16(bytes, position + 5)))
    } else {
        let length = big16(bytes, position + 2);
        jpeg_size_from(
            bytes,
            position + 2 + if length > 2 {
                length
            } else {
                2
            },
        )
    }
}

/// The (width, height) of a PNG, a GIF, or a JPEG in its header.
pub open spec fn size_of(bytes: Seq<u8>) -> Option<(int, int)> {
    if begins(bytes, png_start()) && bytes.len() >= 24 {
        Some((big32(bytes, 16), big32(bytes, 20)))
    } else if is_gif(bytes) && bytes.len() >= 10 {
        Some((little16(bytes, 6), little16(bytes, 8)))
    } else if begins(bytes, seq![0xffu8, 0xd8u8]) {
        jpeg_size_from(bytes, 2)
    } else {
        None
    }
}

/// A pixel size as mathematical integers.
pub open spec fn pixels(size: Option<(u32, u32)>) -> Option<(int, int)> {
    match size {
        Some((width, height)) => Some((width as int, height as int)),
        None => None,
    }
}

fn bytes_begin(bytes: &[u8], start: &[u8]) -> (r: bool)
    ensures
        r == begins(bytes@, start@),
{
    if start.len() > bytes.len() {
        return false;
    }
    let mut i: usize = 0;
    while i < start.len()
        invariant
            i <= start@.len() <= bytes@.len(),
            forall|k: int| 0 <= k < i ==> bytes@[k] == start@[k],
        decreases start@.len() - i,
    {
        if bytes[i] != start[i] {
            assert(bytes@.take(start@.len() as int)[i as int] != start@[i as int]);
            return false;
        }
        i += 1;
    }
    assert(bytes@.take(start@.len() as int) =~= start@);
    true
}

fn read_big16(bytes: &[u8], i: usize) -> (r: u32)
    requires
        i + 1 < bytes@.len(),
    ensures
        r == big16(bytes@, i as int),
        r < 65536,
{
    bytes[i] as u32 * 256 + bytes[i + 1] as u32
}

/// The pixel size of a PNG, GIF, or JPEG from its header. `None` when the
/// bytes are not one of them.
pub fn image_size(bytes: &[u8]) -> (r: Option<(u32, u32)>)
    ensures
        pixels(r) == size_of(bytes@),
{
    let length: usize = bytes.len();
    let png: [u8; 8] = [0x89, 0x50, 0x4e, 0x47, 0x0d, 0x0a, 0x1a, 0x0a];
    assert(png@ =~= png_start());
    if bytes_begin(bytes, &png) && length >= 24 {
        let width: u32 = read_big16(bytes, 16) * 65536 + read_big16(bytes, 18);
        let height: u32 = read_big16(bytes, 20) * 65536 + read_big16(bytes, 22);
        return Some((width, height));
    }
    let old: [u8; 6] = [0x47, 0x49, 0x46, 0x38, 0x37, 0x61];
    let new: [u8; 6] = [0x47, 0x49, 0x46, 0x38, 0x39, 0x61];
    assert(old@ =~= seq![0x47u8, 0x49u8, 0x46u8, 0x38u8, 0x37u8, 0x61u8]);
    assert(new@ =~= seq![0x47u8, 0x49u8, 0x46u8, 0x38u8, 0x39u8, 0x61u8]);
    if (bytes_begin(bytes, &old) || bytes_begin(bytes, &new)) && length >= 10 {
        let width: u32 = bytes[7] as u32 * 256 + bytes[6] as u32;
        let height: u32 = bytes[9] as u32 * 256 + bytes[8] as u32;
        return Some((width, height));
    }
    let jpeg: [u8; 2] = [0xff, 0xd8];
    assert(jpeg@ =~= seq![0xffu8, 0xd8u8]);
    if bytes_begin(bytes, &jpeg) {
        return jpeg_size(bytes);
    }
    None
}

/// The pixel size in a JPEG's first frame header.
fn jpeg_size(bytes: &[u8]) -> (r: Option<(u32, u32)>)
    ensures
        pixels(r) == jpeg_size_from(bytes@, 2),
{
    let length: usize = bytes.len();
    let mut position: usize = 2;
    while length >= 10 && position < length - 9
        invariant
            length == bytes@.len(),
            jpeg_size_from(bytes@, 2) == jpeg_size_from(bytes@, position as int),
        decreases length - position,
    {
        if bytes[position] != 0xff {
            position += 1;
            continue;
        }
        let marker = bytes[position + 1];
        if 0xc0 <= marker && marker <= 0xcf && marker != 0xc4 && marker != 0xc8 && marker != 0xcc {
            return Some((read_big16(bytes, position + 7), read_big16(bytes, position + 5)));
        }
        let segment = read_big16(bytes, position + 2) as usize;
        let step: usize = 2 + if segment > 2 {
            segment
        } else {
            2
        };
        if step > length - position {
            assert(jpeg_size_from(bytes@, position + step) is None);
            return None;
        }
        position += step;
    }
    None
}

/// The size of a PNG is the width and the height in its header, each a
/// number of four bytes with the highest first.
pub proof fn law_a_png_has_the_size_of_its_header(
    filler: Seq<u8>,
    width: Seq<u8>,
    height: Seq<u8>,
    rest: Seq<u8>,
)
    requires
        filler.len() == 8,
        width.len() == 4,
        height.len() == 4,
    ensures
        size_of(png_start() + filler + width + height + rest) == Some(
            (
                16777216 * width[0] + 65536 * width[1] + 256 * width[2] + width[3],
                16777216 * height[0] + 65536 * height[1] + 256 * height[2] + height[3],
            ),
        ),
{
    let bytes = png_start() + filler + width + height + rest;
    assert(bytes.take(8) =~= png_start());
    assert(bytes[16] == width[0] && bytes[17] == width[1] && bytes[18] == width[2] && bytes[19]
        == width[3]);
    assert(bytes[20] == height[0] && bytes[21] == height[1] && bytes[22] == height[2] && bytes[23]
        == height[3]);
}

/// The size of a GIF is the width and the height in its header, each a
/// number of two bytes with the low byte first.
pub proof fn law_a_gif_has_the_size_of_its_header(bytes: Seq<u8>)
    requires
        is_gif(bytes),
        bytes.len() >= 10,
    ensures
        size_of(bytes) == Some((bytes[6] + 256 * bytes[7], bytes[8] + 256 * bytes[9])),
{
    assert(bytes[0] == 0x47) by {
        assert(bytes[0] == bytes.take(6)[0]);
    }
    if begins(bytes, png_start()) {
        assert(bytes[0] == bytes.take(8)[0]);
    }
}

/// The size of a JPEG stands in its first frame header: the height, then the
/// width. A segment before it is skipped by its length.
pub proof fn law_a_jpeg_has_the_size_of_its_frame(bytes: Seq<u8>, position: int)
    requires
        0 <= position,
        position + 9 < bytes.len(),
        bytes[position] == 0xff,
    ensures
        is_frame_marker(bytes[position + 1]) ==> jpeg_size_from(bytes, position) == Some(
            (
                256 * bytes[position + 7] + bytes[position + 8],
                256 * bytes[position + 5] + bytes[position + 6],
            ),
        ),
        !is_frame_marker(bytes[position + 1]) && 256 * bytes[position + 2] + bytes[position + 3]
            >= 2 ==> jpeg_size_from(bytes, position) == jpeg_size_from(
            bytes,
            position + 2 + 256 * bytes[position + 2] + bytes[position + 3],
        ),
        begins(bytes, seq![0xffu8, 0xd8u8]) ==> size_of(bytes) == jpeg_size_from(bytes, 2),
{
    if begins(bytes, seq![0xffu8, 0xd8u8]) {
        assert(bytes[0] == bytes.take(2)[0]);
        if begins(bytes, png_start()) {
            assert(bytes[0] == bytes.take(8)[0]);
        }
        if is_gif(bytes) {
            assert(bytes[0] == bytes.take(6)[0]);
        }
    }
}

} // verus!
