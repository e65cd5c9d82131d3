use vstd::prelude::*;
use crate::error::RenderError;
use crate::raster::{fills, Rgb};

verus! {

/// The length of the two headers that open a bitmap file, which is also the
/// offset of the pixel data.
pub const HEADER_LEN: usize = 54;

/// The length of the second header alone.
pub const INFO_LEN: u32 = 40;

/// Bits per pixel.
pub const BIT_DEPTH: u16 = 24;

/// The four bytes of `x`, the lowest first.
pub open spec fn le32(x: int) -> Seq<u8> {
    seq![
        (x % 256) as u8,
        (x / 256 % 256) as u8,
        (x / 65536 % 256) as u8,
        (x / 16777216 % 256) as u8,
    ]
}

/// The two bytes of `x`, the lower first.
pub open spec fn le16(x: int) -> Seq<u8> {
    seq![(x % 256) as u8, (x / 256 % 256) as u8]
}

/// The bytes that one row of `width` pixels takes in the file: three for
/// each pixel, rounded up to a multiple of four.
pub open spec fn stride(width: int) -> int {
    (3 * width + 3) / 4 * 4
}

/// The length of the whole file.
pub open spec fn file_len(width: int, height: int) -> int {
    HEADER_LEN + stride(width) * height
}

/// The file header and the information header: the signature `BM`, the
/// file's length, two reserved words of zero, the offset of the pixel data;
/// then the information header's length, the width, the height (positive:
/// the rows go from the bottom up), one plane, the bit depth, no
/// compression, the length of the pixel data, and zero for the two
/// resolutions and the two palette counts.
pub open spec fn header(width: int, height: int) -> Seq<u8> {
    seq![0x42u8, 0x4Du8] + le32(file_len(width, height)) + le32(0) + le32(HEADER_LEN as int) + le32(
        INFO_LEN as int,
    ) + le32(width) + le32(height) + le16(1) + le16(BIT_DEPTH as int) + le32(0) + le32(
        stride(width) * height,
    ) + le32(0) + le32(0) + le32(0) + le32(0)
}

/// The colour bytes of a run of pixels: blue, green, red for each.
pub open spec fn bgr_bytes(pixels: Seq<Rgb>) -> Seq<u8> {
    Seq::new(
        3 * pixels.len(),
        |k: int|
            if k % 3 == 0 {
                pixels[k / 3].2
            } else if k % 3 == 1 {
                pixels[k / 3].1
            } else {
                pixels[k / 3].0
            },
    )
}

/// One row in the file: its colour bytes, then zeros up to the stride.
pub open spec fn row_bytes(pixels: Seq<Rgb>) -> Seq<u8> {
    bgr_bytes(pixels) + Seq::new((stride(pixels.len() as int) - 3 * pixels.len()) as nat, |k: int| 0u8)
}

/// Row `j` of a raster `width` wide whose pixels are `pixels`, the top row
/// first.
pub open spec fn row_of(pixels: Seq<Rgb>, width: int, j: int) -> Seq<Rgb> {
    pixels.subrange(j * width, j * width + width)
}

/// The first `count` rows of the raster as they stand in the file: the last
/// of them first, the top row last.
pub open spec fn rows_upward(pixels: Seq<Rgb>, width: int, count: nat) -> Seq<u8>
    decreases count,
{
    if count == 0 {
        Seq::empty()
    } else {
        row_bytes(row_of(pixels, width, count - 1)) + rows_upward(pixels, width, (count - 1) as nat)
    }
}

/// The whole file for a raster of `width` by `height` whose pixels are
/// `pixels`, the top row first.
pub open spec fn bitmap_bytes(width: int, height: int, pixels: Seq<Rgb>) -> Seq<u8> {
    header(width, height) + rows_upward(pixels, width, height as nat)
}

/// Appends the four bytes of `x`, the lowest first.
pub fn push_le32(buffer: &mut Vec<u8>, x: u32)
    ensures
        final(buffer)@ == old(buffer)@ + le32(x as int),
{
    buffer.push((x % 256) as u8);
    buffer.push((x / 256 % 256) as u8);
    buffer.push((x / 65536 % 256) as u8);
    buffer.push((x / 16777216 % 256) as u8);
    assert(buffer@ =~= old(buffer)@ + le32(x as int));
}

/// Appends the two bytes of `x`, the lower first.
pub fn push_le16(buffer: &mut Vec<u8>, x: u16)
    ensures
        final(buffer)@ == old(buffer)@ + le16(x as int),
{
    buffer.push((x % 256) as u8);
    buffer.push((x / 256 % 256) as u8);
    assert(buffer@ =~= old(buffer)@ + le16(x as int));
}

/// The stride of a row of `width` pixels.
pub fn row_stride(width: usize) -> (r: usize)
    requires
        3 * width + 3 <= usize::MAX,
    ensures
        r == stride(width as int),
        3 * width <= r < 3 * width + 4,
        r % 4 == 0,
{
    (3 * width + 3) / 4 * 4
}

/// Appending a pixel to a run appends its blue, green and red bytes.
pub proof fn lemma_bgr_bytes_push(pixels: Seq<Rgb>, pixel: Rgb)
    ensures
        bgr_bytes(pixels.push(pixel)) == bgr_bytes(pixels) + seq![pixel.2, pixel.1, pixel.0],
{
    assert(bgr_bytes(pixels.push(pixel)) =~= bgr_bytes(pixels) + seq![pixel.2, pixel.1, pixel.0]);
}

/// Appends the `width` pixels of `pixels` from `start` on as one row of the
/// file.
fn push_row(buffer: &mut Vec<u8>, pixels: &Vec<Rgb>, start: usize, width: usize)
    requires
        start + width <= pixels@.len(),
        3 * width + 3 <= usize::MAX,
    ensures
        final(buffer)@ == old(buffer)@ + row_bytes(pixels@.subrange(start as int, start + width)),
{
    let ghost row = pixels@.subrange(start as int, start + width);
    let total: usize = pixels.len();
    let mut i: usize = 0;
    assert(buffer@ =~= old(buffer)@ + bgr_bytes(row.take(0)));
    while i < width
        invariant
            0 <= i <= width,
            start + width <= total,
            total == pixels@.len(),
            row == pixels@.subrange(start as int, start + width),
            buffer@ == old(buffer)@ + bgr_bytes(row.take(i as int)),
        decreases width - i,
    {
        let pixel = pixels[start + i];
        buffer.push(pixel.2);
        buffer.push(pixel.1);
        buffer.push(pixel.0);
        proof {
            lemma_bgr_bytes_push(row.take(i as int), pixel);
            assert(row.take(i as int).push(pixel) =~= row.take(i as int + 1));
            assert(buffer@ =~= old(buffer)@ + bgr_bytes(row.take(i as int + 1)));
        }
        i += 1;
    }
    assert(row.take(width as int) =~= row);
    let full = row_stride(width);
    let mut k: usize = 3 * width;
    assert(buffer@ =~= old(buffer)@ + bgr_bytes(row) + Seq::new(0, |k: int| 0u8));
    while k < full
        invariant
            3 * width <= k <= full,
            row.len() == width,
            full == stride(width as int),
            buffer@ == old(buffer)@ + bgr_bytes(row) + Seq::new((k - 3 * width) as nat, |k: int| 0u8),
        decreases full - k,
    {
        buffer.push(0u8);
        assert(buffer@ =~= old(buffer)@ + bgr_bytes(row) + Seq::new((k + 1 - 3 * width) as nat, |k: int| 0u8));
        k += 1;
    }
    assert(buffer@ =~= old(buffer)@ + row_bytes(row));
}

/// Appends the two headers of the file for a raster of `width` by `height`.
fn push_header(buffer: &mut Vec<u8>, width: usize, height: usize)
    requires
        width > 0,
        height > 0,
        file_len(width as int, height as int) <= u32::MAX,
    ensures
        final(buffer)@ == old(buffer)@ + header(width as int, height as int),
        3 * width + 3 <= usize::MAX,
{
    assert(stride(width as int) <= stride(width as int) * height) by (nonlinear_arith)
        requires
            height >= 1,
            stride(width as int) >= 0,
    ;
    assert(height <= stride(width as int) * height) by (nonlinear_arith)
        requires
            height >= 1,
            stride(width as int) >= 1,
    ;
    let full = row_stride(width);
    let data_len: usize = full * height;
    let mut head: Vec<u8> = Vec::new();
    head.push(0x42u8);
    head.push(0x4Du8);
    assert(head@ =~= seq![0x42u8, 0x4Du8]);
    push_le32(&mut head, (HEADER_LEN + data_len) as u32);
    push_le32(&mut head, 0);
    push_le32(&mut head, HEADER_LEN as u32);
    push_le32(&mut head, INFO_LEN);
    push_le32(&mut head, width as u32);
    push_le32(&mut head, height as u32);
    push_le16(&mut head, 1);
    push_le16(&mut head, BIT_DEPTH);
    push_le32(&mut head, 0);
    push_le32(&mut head, data_len as u32);
    push_le32(&mut head, 0);
    push_le32(&mut head, 0);
    push_le32(&mut head, 0);
    push_le32(&mut head, 0);
    assert(head@ == header(width as int, height as int));
    let mut k: usize = 0;
    assert(buffer@ =~= old(buffer)@ + head@.take(0));
    while k < head.len()
        invariant
            0 <= k <= head@.len(),
            buffer@ == old(buffer)@ + head@.take(k as int),
        decreases head@.len() - k,
    {
        buffer.push(head[k]);
        assert(head@.take(k as int).push(head@[k as int]) =~= head@.take(k as int + 1));
        assert(buffer@ =~= old(buffer)@ + head@.take(k as int + 1));
        k += 1;
    }
    assert(head@.take(k as int) =~= head@);
}

/// A raster of `width` by `height` whose file the 32-bit length fields of
/// the headers can describe.
pub open spec fn is_encodable(width: int, height: int) -> bool {
    width > 0 && height > 0 && file_len(width, height) <= u32::MAX
}

/// Whether a raster of `width` by `height` can be written as a bitmap file.
pub fn can_encode(width: usize, height: usize) -> (r: bool)
    ensures
        r == is_encodable(width as int, height as int),
{
    if width == 0 || height == 0 {
        return false;
    }
    let limit: usize = 0xFFFF_FFFF;
    if width > (limit - 3) / 3 {
        assert(stride(width as int) * height >= stride(width as int)) by (nonlinear_arith)
            requires
                height >= 1,
                stride(width as int) >= 0,
        ;
        return false;
    }
    let full = row_stride(width);
    assert(full >= 4);
    if height > (limit - HEADER_LEN) / full {
        assert(stride(width as int) * height > u32::MAX - HEADER_LEN) by (nonlinear_arith)
            requires
                height > (0xFFFF_FFFF - HEADER_LEN) / (full as int),
                full == stride(width as int),
                full >= 4,
        ;
        return false;
    }
    assert(stride(width as int) * height <= u32::MAX - HEADER_LEN) by (nonlinear_arith)
        requires
            height <= (0xFFFF_FFFF - HEADER_LEN) / (full as int),
            full == stride(width as int),
            full >= 4,
    ;
    true
}

/// Writes a raster as a bitmap file of 24 bits per pixel.
///
/// `pixels` are the pixels of a raster of `width` by `height`, the top row
/// first. Pixels that do not fill such a raster are refused, and so is a
/// raster whose file would be longer than the headers' length fields can
/// say.
pub fn encode_bitmap(width: usize, height: usize, pixels: &Vec<Rgb>) -> (r: Result<Vec<u8>, RenderError>)
    ensures
        is_encodable(width as int, height as int) && fills(
            width as int,
            height as int,
            pixels@.len() as int,
        ) ==> r.is_ok() && r.unwrap()@ == bitmap_bytes(width as int, height as int, pixels@),
        !(is_encodable(width as int, height as int) && fills(
            width as int,
            height as int,
            pixels@.len() as int,
        )) ==> r == Err::<Vec<u8>, RenderError>(RenderError::InvalidDimensions),
{
    if !can_encode(width, height) {
        return Err(RenderError::InvalidDimensions);
    }
    let given: usize = pixels.len();
    match width.checked_mul(height) {
        Some(count) => {
            if count != given {
                return Err(RenderError::InvalidDimensions);
            }
        },
        None => {
            return Err(RenderError::InvalidDimensions);
        },
    }
    let total: usize = pixels.len();
    let mut out: Vec<u8> = Vec::new();
    push_header(&mut out, width, height);
    let mut left: usize = height;
    assert(out@ + rows_upward(pixels@, width as int, left as nat) =~= bitmap_bytes(
        width as int,
        height as int,
        pixels@,
    ));
    while left > 0
        invariant
            0 <= left <= height,
            total == width * height,
            total == pixels@.len(),
            3 * width + 3 <= usize::MAX,
            out@ + rows_upward(pixels@, width as int, left as nat) == bitmap_bytes(
                width as int,
                height as int,
                pixels@,
            ),
        decreases left,
    {
        let j: usize = left - 1;
        assert(0 <= j * width && j * width + width <= width * height) by (nonlinear_arith)
            requires
                0 <= j < height,
                0 <= width,
        ;
        let ghost before = out@;
        push_row(&mut out, pixels, j * width, width);
        proof {
            let rest = rows_upward(pixels@, width as int, j as nat);
            let this = row_bytes(row_of(pixels@, width as int, j as int));
            assert(rows_upward(pixels@, width as int, left as nat) == this + rest);
            assert(out@ == before + this);
            assert((before + this) + rest =~= before + (this + rest));
        }
        left = j;
    }
    assert(rows_upward(pixels@, width as int, 0) =~= Seq::<u8>::empty());
    assert(out@ + Seq::<u8>::empty() =~= out@);
    Ok(out)
}

/// The rows of the file take one stride each, and row `j` of the raster
/// stands `count - 1 - j` strides into them.
pub proof fn lemma_rows_upward_at(pixels: Seq<Rgb>, width: int, count: nat, j: int, c: int)
    requires
        0 < width,
        count * width <= pixels.len(),
        0 <= j < count,
        0 <= c < stride(width),
    ensures
        rows_upward(pixels, width, count).len() == stride(width) * count,
        rows_upward(pixels, width, count)[(count - 1 - j) * stride(width) + c] == row_bytes(
            row_of(pixels, width, j),
        )[c],
    decreases count,
{
    let n = stride(width);
    let top = row_of(pixels, width, count - 1);
    assert(0 <= (count - 1) * width && (count - 1) * width + width == count * width) by (nonlinear_arith)
        requires
            count >= 1,
            width > 0,
    ;
    assert(top.len() == width);
    assert(row_bytes(top).len() == n);
    let rest = rows_upward(pixels, width, (count - 1) as nat);
    let all = rows_upward(pixels, width, count);
    assert(all == row_bytes(top) + rest);
    assert(n * count == n + n * (count - 1)) by (nonlinear_arith);
    if count == 1 {
        assert(rest =~= Seq::<u8>::empty());
        assert(n * (count - 1) == 0) by (nonlinear_arith)
            requires
                count == 1,
        ;
    } else {
        assert((count - 1) * width <= count * width) by (nonlinear_arith)
            requires
                width > 0,
        ;
        if j < count - 1 {
            lemma_rows_upward_at(pixels, width, (count - 1) as nat, j, c);
        } else {
            lemma_rows_upward_at(pixels, width, (count - 1) as nat, 0, c);
        }
    }
    assert(rest.len() == n * (count - 1));
    if j == count - 1 {
        assert((count - 1 - j) * n + c == c) by (nonlinear_arith)
            requires
                j == count - 1,
        ;
        assert(all[c] == row_bytes(top)[c]);
    } else {
        let x = (count - 2 - j) * n + c;
        assert((count - 1 - j) * n + c == n + x) by (nonlinear_arith)
            requires
                x == (count - 2 - j) * n + c,
        ;
        assert(0 <= x < n * (count - 1)) by (nonlinear_arith)
            requires
                x == (count - 2 - j) * n + c,
                0 <= j <= count - 2,
                0 <= c < n,
        ;
        assert(all[n + x] == rest[x]);
        assert(((count - 1) as nat - 1 - j) * n + c == x);
    }
}

/// The file is as long as its header says, and holds the pixel in column
/// `i` of row `j` of the raster behind the header, `height - 1 - j` strides
/// and `i` pixels in: its blue byte, then the green, then the red.
pub proof fn lemma_bitmap_pixel_at(width: int, height: int, pixels: Seq<Rgb>, i: int, j: int)
    requires
        0 <= i < width,
        0 <= j < height,
        pixels.len() == width * height,
    ensures
        bitmap_bytes(width, height, pixels).len() == file_len(width, height),
        ({
            let at = HEADER_LEN + (height - 1 - j) * stride(width) + 3 * i;
            let pixel = pixels[j * width + i];
            &&& at + 2 < file_len(width, height)
            &&& bitmap_bytes(width, height, pixels)[at] == pixel.2
            &&& bitmap_bytes(width, height, pixels)[at + 1] == pixel.1
            &&& bitmap_bytes(width, height, pixels)[at + 2] == pixel.0
        }),
{
    let n = stride(width);
    let rows = rows_upward(pixels, width, height as nat);
    let row = row_of(pixels, width, j);
    assert(height * width == width * height) by (nonlinear_arith);
    assert(0 <= j * width && j * width + width <= width * height) by (nonlinear_arith)
        requires
            0 <= j < height,
            0 < width,
    ;
    assert(header(width, height).len() == HEADER_LEN);
    lemma_rows_upward_at(pixels, width, height as nat, j, 3 * i);
    lemma_rows_upward_at(pixels, width, height as nat, j, 3 * i + 1);
    lemma_rows_upward_at(pixels, width, height as nat, j, 3 * i + 2);
    assert(0 <= (height - 1 - j) * n && (height - 1 - j) * n + n <= n * height) by (nonlinear_arith)
        requires
            0 <= j < height,
            0 <= n,
    ;
    assert(row[i] == pixels[j * width + i]);
    assert(row_bytes(row)[3 * i] == row[i].2);
    assert(row_bytes(row)[3 * i + 1] == row[i].1);
    assert(row_bytes(row)[3 * i + 2] == row[i].0);
    let at = HEADER_LEN + (height - 1 - j) * n + 3 * i;
    assert(bitmap_bytes(width, height, pixels)[at] == rows[(height - 1 - j) * n + 3 * i]);
    assert(bitmap_bytes(width, height, pixels)[at + 1] == rows[(height - 1 - j) * n + (3 * i + 1)]);
    assert(bitmap_bytes(width, height, pixels)[at + 2] == rows[(height - 1 - j) * n + (3 * i + 2)]);
}

} // verus!
