use rayon::iter::{IntoParallelIterator, ParallelIterator};
use vstd::prelude::*;
use crate::error::{check_dimensions, RenderError};

verus! {

/// One pixel as its red, green and blue bytes.
pub type Rgb = (u8, u8, u8);

/// The opacity byte of every pixel of a raw raster.
pub const OPAQUE: u8 = 0xFF;

/// The bytes of a raw raster: four for each pixel of `pixels`, in order:
/// red, green, blue, and the constant opacity.
pub open spec fn raw_bytes(pixels: Seq<Rgb>) -> Seq<u8> {
    Seq::new(
        4 * pixels.len(),
        |k: int|
            if k % 4 == 0 {
                pixels[k / 4].0
            } else if k % 4 == 1 {
                pixels[k / 4].1
            } else if k % 4 == 2 {
                pixels[k / 4].2
            } else {
                OPAQUE
            },
    )
}

/// Where the pixel in column `i` of row `j` stands among the pixels of a
/// raster `width` wide: rows follow one another from the top row down, and
/// in a row the columns from left to right.
pub open spec fn pixel_index(width: int, i: int, j: int) -> int {
    j * width + i
}

/// The byte offset of the pixel in column `i` of row `j` in a raw raster.
pub fn pixel_offset(width: usize, i: usize, j: usize) -> (r: usize)
    requires
        i < width,
        4 * (j + 1) * width <= usize::MAX,
    ensures
        r == 4 * pixel_index(width as int, i as int, j as int),
{
    assert(j * width + i < (j + 1) * width) by (nonlinear_arith)
        requires
            i < width,
    ;
    assert(4 * ((j + 1) * width) == 4 * (j + 1) * width) by (nonlinear_arith);
    let row_start: usize = j * width;
    4 * (row_start + i)
}

/// Appends one pixel to a raw raster.
pub fn push_pixel(buffer: &mut Vec<u8>, pixel: Rgb)
    ensures
        final(buffer)@ == old(buffer)@ + raw_bytes(seq![pixel]),
{
    buffer.push(pixel.0);
    buffer.push(pixel.1);
    buffer.push(pixel.2);
    buffer.push(OPAQUE);
    assert(buffer@ =~= old(buffer)@ + raw_bytes(seq![pixel]));
}

/// Appending a pixel to the pixels appends its four bytes to the bytes.
pub proof fn lemma_raw_bytes_push(pixels: Seq<Rgb>, pixel: Rgb)
    ensures
        raw_bytes(pixels.push(pixel)) == raw_bytes(pixels) + raw_bytes(seq![pixel]),
{
    assert(raw_bytes(pixels.push(pixel)) =~= raw_bytes(pixels) + raw_bytes(seq![pixel]));
}

/// The raw bytes of a run of pixels, such as one row of a raster.
pub fn encode_row(pixels: &Vec<Rgb>) -> (r: Vec<u8>)
    ensures
        r@ == raw_bytes(pixels@),
{
    let mut out: Vec<u8> = Vec::new();
    let mut n: usize = 0;
    assert(out@ =~= raw_bytes(pixels@.take(0)));
    while n < pixels.len()
        invariant
            0 <= n <= pixels@.len(),
            out@ == raw_bytes(pixels@.take(n as int)),
        decreases pixels@.len() - n,
    {
        let pixel = pixels[n];
        push_pixel(&mut out, pixel);
        proof {
            lemma_raw_bytes_push(pixels@.take(n as int), pixel);
            assert(pixels@.take(n as int).push(pixel) =~= pixels@.take(n as int + 1));
        }
        n += 1;
    }
    assert(pixels@.take(n as int) =~= pixels@);
    out
}

/// The bytes of pixels laid end to end are the bytes of the first run
/// followed by the bytes of the second.
pub proof fn lemma_raw_bytes_concat(first: Seq<Rgb>, second: Seq<Rgb>)
    ensures
        raw_bytes(first + second) == raw_bytes(first) + raw_bytes(second),
{
    assert(raw_bytes(first + second) =~= raw_bytes(first) + raw_bytes(second));
}

/// Row order is kept: encoding rows one by one and laying the results end to
/// end gives the bytes of the rows' pixels laid end to end.
pub proof fn lemma_raw_bytes_of_rows(rows: Seq<Seq<Rgb>>)
    ensures
        raw_bytes(rows.flatten()) == rows.map_values(|row: Seq<Rgb>| raw_bytes(row)).flatten(),
    decreases rows.len(),
{
    let encoded = rows.map_values(|row: Seq<Rgb>| raw_bytes(row));
    if rows.len() == 0 {
        assert(rows.flatten() =~= Seq::<Rgb>::empty());
        assert(encoded.flatten() =~= Seq::<u8>::empty());
        assert(raw_bytes(Seq::<Rgb>::empty()) =~= Seq::<u8>::empty());
    } else {
        let front = rows.drop_last();
        let last = rows.last();
        let front_encoded = front.map_values(|row: Seq<Rgb>| raw_bytes(row));
        lemma_raw_bytes_of_rows(front);
        assert(front.push(last) =~= rows);
        assert(front_encoded.push(raw_bytes(last)) =~= encoded);
        front.lemma_flatten_push(last);
        front_encoded.lemma_flatten_push(raw_bytes(last));
        lemma_raw_bytes_concat(front.flatten(), last);
    }
}

/// The three colour bytes that a raw raster `width` wide holds for the pixel
/// in column `i` of row `j`.
pub open spec fn pixel_at(bytes: Seq<u8>, width: int, i: int, j: int) -> Rgb {
    let at = 4 * pixel_index(width, i, j);
    (bytes[at], bytes[at + 1], bytes[at + 2])
}

/// In a raster of `width` by `height` pixels every pixel has an index of its
/// own below `width * height`.
pub proof fn lemma_pixel_index_bounds(width: int, height: int, i: int, j: int)
    requires
        0 <= i < width,
        0 <= j < height,
    ensures
        0 <= pixel_index(width, i, j) < width * height,
        pixel_index(width, i, j) / width == j,
        pixel_index(width, i, j) % width == i,
{
    assert(j * width + i < height * width) by (nonlinear_arith)
        requires
            0 <= i < width,
            0 <= j < height,
    ;
    assert(0 <= j * width) by (nonlinear_arith)
        requires
            0 <= j,
            0 < width,
    ;
    assert(height * width == width * height) by (nonlinear_arith);
    vstd::arithmetic::div_mod::lemma_fundamental_div_mod_converse(j * width + i, width, j, i);
}

/// A raw raster holds each pixel's bytes at the pixel's offset, the opacity
/// byte last.
pub proof fn lemma_raw_bytes_at(pixels: Seq<Rgb>, width: int, height: int, i: int, j: int)
    requires
        0 <= i < width,
        0 <= j < height,
        pixels.len() == width * height,
    ensures
        raw_bytes(pixels).len() == width * height * 4,
        pixel_at(raw_bytes(pixels), width, i, j) == pixels[pixel_index(width, i, j)],
        raw_bytes(pixels)[4 * pixel_index(width, i, j) + 3] == OPAQUE,
{
    lemma_pixel_index_bounds(width, height, i, j);
}

/// `count` pixels fill a raster of `width` by `height`, neither of them zero.
pub open spec fn fills(width: int, height: int, count: int) -> bool {
    width > 0 && height > 0 && count == width * height
}

/// The raw raster of `pixels`, which are the pixels of a raster of `width`
/// by `height`, the top row first. Pixels that do not fill such a raster are
/// refused.
pub fn assemble(width: usize, height: usize, pixels: &Vec<Rgb>) -> (r: Result<Vec<u8>, RenderError>)
    ensures
        !fills(width as int, height as int, pixels@.len() as int) ==> r == Err::<Vec<u8>, RenderError>(
            RenderError::InvalidDimensions,
        ),
        fills(width as int, height as int, pixels@.len() as int) ==> r.is_ok() && r.unwrap()@
            == raw_bytes(pixels@) && r.unwrap()@.len() == width * height * 4,
{
    if let Err(refused) = check_dimensions(width, height) {
        return Err(refused);
    }
    let given: usize = pixels.len();
    match width.checked_mul(height) {
        Some(count) => {
            if count != given {
                return Err(RenderError::InvalidDimensions);
            }
        },
        None => {
            return Err(RenderError::InvalidDimensions);
        },
    }
    let buffer = encode_row(pixels);
    Ok(buffer)
}

/// The rows' bytes one after the other, the first row first.
pub open spec fn joined(rows: Seq<Vec<u8>>) -> Seq<u8> {
    rows.map_values(|row: Vec<u8>| row@).flatten()
}

/// Lays rows that were encoded one by one end to end, in their order.
pub fn join_rows(rows: &Vec<Vec<u8>>) -> (r: Vec<u8>)
    ensures
        r@ == joined(rows@),
{
    let mut out: Vec<u8> = Vec::new();
    let ghost parts = rows@.map_values(|row: Vec<u8>| row@);
    let mut k: usize = 0;
    assert(parts.take(0).flatten() =~= Seq::<u8>::empty());
    while k < rows.len()
        invariant
            0 <= k <= rows@.len(),
            parts == rows@.map_values(|row: Vec<u8>| row@),
            out@ == parts.take(k as int).flatten(),
        decreases rows@.len() - k,
    {
        let row = &rows[k];
        let mut m: usize = 0;
        let ghost before = out@;
        while m < row.len()
            invariant
                0 <= m <= row@.len(),
                out@ == before + row@.take(m as int),
            decreases row@.len() - m,
        {
            out.push(row[m]);
            assert(row@.take(m as int).push(row@[m as int]) =~= row@.take(m as int + 1));
            m += 1;
        }
        proof {
            assert(row@.take(m as int) =~= row@);
            assert(parts[k as int] == row@);
            assert(parts.take(k as int).push(parts[k as int]) =~= parts.take(k as int + 1));
            parts.take(k as int).lemma_flatten_push(parts[k as int]);
        }
        k += 1;
    }
    assert(parts.take(k as int) =~= parts);
    out
}

/// The raw raster `bytes`, `width` wide, holds for the pixel in column `i` of
/// row `j` a colour that `shade` gives for that place, and the opacity byte
/// behind it.
pub open spec fn is_shaded<F: Fn(usize, usize) -> Rgb>(
    bytes: Seq<u8>,
    width: usize,
    i: usize,
    j: usize,
    shade: F,
) -> bool {
    &&& shade.ensures((i, j), pixel_at(bytes, width as int, i as int, j as int))
    &&& bytes[4 * pixel_index(width as int, i as int, j as int) + 3] == OPAQUE
}

/// Renders a raster of `width` by `height` pixels in raw form, asking
/// `shade` for each pixel's colour by its column and row. Rows go from the
/// top down and columns from left to right, in the raster as in the order of
/// the calls.
pub fn render_with<F: Fn(usize, usize) -> Rgb>(width: usize, height: usize, shade: F) -> (r: Result<
    Vec<u8>,
    RenderError,
>)
    requires
        forall|i: usize, j: usize| i < width && j < height ==> shade.requires((i, j)),
    ensures
        width == 0 || height == 0 ==> r == Err::<Vec<u8>, RenderError>(RenderError::InvalidDimensions),
        width > 0 && height > 0 ==> r.is_ok() && r.unwrap()@.len() == width * height * 4,
        width > 0 && height > 0 ==> forall|i: usize, j: usize|
            i < width && j < height ==> #[trigger] is_shaded(r.unwrap()@, width, i, j, shade),
{
    if let Err(refused) = check_dimensions(width, height) {
        return Err(refused);
    }
    let mut out: Vec<u8> = Vec::new();
    let ghost mut pixels: Seq<Rgb> = Seq::empty();
    let mut j: usize = 0;
    assert(out@ =~= raw_bytes(pixels));
    assert(0 * width == 0) by (nonlinear_arith);
    while j < height
        invariant
            0 <= j <= height,
            width > 0,
            out@ == raw_bytes(pixels),
            pixels.len() == j * width,
            forall|a: usize, b: usize| a < width && b < height ==> shade.requires((a, b)),
            forall|a: usize, b: usize|
                a < width && b < j ==> shade.ensures(
                    (a, b),
                    #[trigger] pixels[pixel_index(width as int, a as int, b as int)],
                ),
        decreases height - j,
    {
        let mut i: usize = 0;
        while i < width
            invariant
                0 <= i <= width,
                j < height,
                out@ == raw_bytes(pixels),
                pixels.len() == j * width + i,
                forall|a: usize, b: usize| a < width && b < height ==> shade.requires((a, b)),
                forall|a: usize, b: usize|
                    a < width && (b < j || (b == j && a < i)) ==> shade.ensures(
                        (a, b),
                        #[trigger] pixels[pixel_index(width as int, a as int, b as int)],
                    ),
            decreases width - i,
        {
            let pixel = shade(i, j);
            push_pixel(&mut out, pixel);
            proof {
                let ghost earlier = pixels;
                lemma_raw_bytes_push(pixels, pixel);
                pixels = pixels.push(pixel);
                assert forall|a: usize, b: usize|
                    a < width && (b < j || (b == j && a < i + 1)) implies shade.ensures(
                    (a, b),
                    #[trigger] pixels[pixel_index(width as int, a as int, b as int)],
                ) by {
                    if b < j {
                        lemma_pixel_index_bounds(width as int, j as int, a as int, b as int);
                        assert(width * j == j * width) by (nonlinear_arith);
                        assert(pixels[pixel_index(width as int, a as int, b as int)]
                            == earlier[pixel_index(width as int, a as int, b as int)]);
                    } else if a < i {
                        assert(pixels[pixel_index(width as int, a as int, b as int)]
                            == earlier[pixel_index(width as int, a as int, b as int)]);
                    } else {
                        assert(pixel_index(width as int, a as int, b as int) == earlier.len());
                    }
                }
            }
            i += 1;
        }
        assert(j * width + width == (j + 1) * width) by (nonlinear_arith);
        j += 1;
    }
    proof {
        assert(height * width == width * height) by (nonlinear_arith);
        assert forall|i: usize, j: usize| i < width && j < height implies #[trigger] is_shaded(
            out@,
            width,
            i,
            j,
            shade,
        ) by {
            lemma_raw_bytes_at(pixels, width as int, height as int, i as int, j as int);
            assert(shade.ensures((i, j), pixels[pixel_index(width as int, i as int, j as int)]));
        }
    }
    Ok(out)
}

/// `bytes` are the raw bytes of row `j` of a raster `width` wide, with a
/// colour from `shade` in every column.
pub open spec fn is_shaded_row<F: Fn(usize, usize) -> Rgb>(
    bytes: Seq<u8>,
    width: usize,
    j: usize,
    shade: F,
) -> bool {
    &&& bytes.len() == 4 * width
    &&& forall|i: usize|
        i < width ==> #[trigger] shade.ensures((i, j), (bytes[4 * i], bytes[4 * i + 1], bytes[4 * i + 2]))
    &&& forall|i: usize| i < width ==> #[trigger] bytes[4 * i + 3] == OPAQUE
}

/// Renders row `j` of a raster `width` wide in raw form, asking `shade` for
/// each column from left to right.
pub fn render_row<F: Fn(usize, usize) -> Rgb>(width: usize, j: usize, shade: &F) -> (r: Vec<u8>)
    requires
        forall|i: usize| i < width ==> shade.requires((i, j)),
    ensures
        is_shaded_row(r@, width, j, *shade),
{
    let mut row: Vec<u8> = Vec::new();
    let mut i: usize = 0;
    while i < width
        invariant
            0 <= i <= width,
            row@.len() == 4 * i,
            forall|a: usize| a < width ==> shade.requires((a, j)),
            forall|a: usize|
                a < i ==> #[trigger] shade.ensures((a, j), (row@[4 * a], row@[4 * a + 1], row@[4 * a + 2])),
            forall|a: usize| a < i ==> #[trigger] row@[4 * a + 3] == OPAQUE,
        decreases width - i,
    {
        let pixel = shade(i, j);
        push_pixel(&mut row, pixel);
        i += 1;
    }
    row
}

/// Rows of one length laid end to end: the flat sequence holds row `k` from
/// `k * n` on.
pub proof fn lemma_flatten_uniform(rows: Seq<Seq<u8>>, n: nat)
    requires
        forall|k: int| 0 <= k < rows.len() ==> (#[trigger] rows[k]).len() == n,
    ensures
        rows.flatten().len() == rows.len() * n,
        forall|k: int, c: int|
            0 <= k < rows.len() && 0 <= c < n ==> rows.flatten()[k * n + c] == #[trigger] rows[k][c],
    decreases rows.len(),
{
    if rows.len() == 0 {
        assert(rows.flatten() =~= Seq::<u8>::empty());
        assert(rows.len() * n == 0) by (nonlinear_arith)
            requires
                rows.len() == 0,
        ;
    } else {
        let front = rows.drop_last();
        let last = rows.last();
        lemma_flatten_uniform(front, n);
        front.lemma_flatten_push(last);
        assert(front.push(last) =~= rows);
        assert(rows.flatten() =~= front.flatten() + last);
        assert(front.len() * n + n == rows.len() * n) by (nonlinear_arith)
            requires
                front.len() + 1 == rows.len(),
        ;
        assert forall|k: int, c: int| 0 <= k < rows.len() && 0 <= c < n implies rows.flatten()[k * n
            + c] == #[trigger] rows[k][c] by {
            if k < front.len() {
                assert(k * n + c < front.len() * n) by (nonlinear_arith)
                    requires
                        0 <= k < front.len(),
                        0 <= c < n,
                ;
                assert(0 <= k * n + c) by (nonlinear_arith)
                    requires
                        0 <= k,
                        0 <= c,
                        0 <= n,
                ;
                assert(front[k] == rows[k]);
            } else {
                assert(k * n == front.len() * n) by (nonlinear_arith)
                    requires
                        k == front.len(),
                ;
            }
        }
    }
}

/// `bytes` are `rows` laid end to end, and `rows` are the `height` rows of a
/// raster `width` wide, each with colours from `shade`.
pub open spec fn is_split_into<F: Fn(usize, usize) -> Rgb>(
    bytes: Seq<u8>,
    rows: Seq<Seq<u8>>,
    width: usize,
    height: usize,
    shade: F,
) -> bool {
    &&& rows.len() == height
    &&& bytes == rows.flatten()
    &&& forall|j: usize| j < height ==> is_shaded_row(#[trigger] rows[j as int], width, j, shade)
}

/// `bytes` are the rows of a raster of `width` by `height`, the top row
/// first, each with colours from `shade`.
pub open spec fn are_shaded_rows<F: Fn(usize, usize) -> Rgb>(
    bytes: Seq<u8>,
    width: usize,
    height: usize,
    shade: F,
) -> bool {
    exists|rows: Seq<Seq<u8>>| is_split_into(bytes, rows, width, height, shade)
}

/// Runs `render_row` for every row of the raster on rayon's thread pool and
/// collects the rows' bytes: `(0..height).into_par_iter()`, `flat_map` and
/// `collect` of `rayon::iter::ParallelIterator`. Rayon hands the rows out to
/// its workers in any order but collects what they return in the order of
/// the range, so the result is some row 0, then some row 1, and so on, each
/// being what one call of `render_row` for that row returned.
#[verifier::external_body]
fn rows_in_parallel<F: Fn(usize, usize) -> Rgb + Sync>(width: usize, height: usize, shade: &F) -> (r: Vec<u8>)
    requires
        forall|i: usize, j: usize| i < width && j < height ==> shade.requires((i, j)),
    ensures
        are_shaded_rows(r@, width, height, *shade),
{
    (0..height).into_par_iter().flat_map(|j| render_row(width, j, shade)).collect()
}

/// Renders as `render_with` does, with the rows shared out among the threads
/// of rayon's pool. The raster is the same whatever the order in which the
/// rows were finished.
pub fn render_parallel<F: Fn(usize, usize) -> Rgb + Sync>(width: usize, height: usize, shade: F) -> (r:
    Result<Vec<u8>, RenderError>)
    requires
        forall|i: usize, j: usize| i < width && j < height ==> shade.requires((i, j)),
    ensures
        width == 0 || height == 0 ==> r == Err::<Vec<u8>, RenderError>(RenderError::InvalidDimensions),
        width > 0 && height > 0 ==> r.is_ok() && r.unwrap()@.len() == width * height * 4,
        width > 0 && height > 0 ==> forall|i: usize, j: usize|
            i < width && j < height ==> #[trigger] is_shaded(r.unwrap()@, width, i, j, shade),
{
    if let Err(refused) = check_dimensions(width, height) {
        return Err(refused);
    }
    let out = rows_in_parallel(width, height, &shade);
    proof {
        let rows = choose|rows: Seq<Seq<u8>>| is_split_into(out@, rows, width, height, shade);
        let n = (4 * width) as nat;
        assert forall|k: int| 0 <= k < rows.len() implies (#[trigger] rows[k]).len() == n by {
            assert(is_shaded_row(rows[(k as usize) as int], width, k as usize, shade));
        }
        lemma_flatten_uniform(rows, n);
        assert(height * (4 * width) == width * height * 4) by (nonlinear_arith);
        assert forall|i: usize, j: usize| i < width && j < height implies #[trigger] is_shaded(
            out@,
            width,
            i,
            j,
            shade,
        ) by {
            let row = rows[j as int];
            assert(is_shaded_row(row, width, j, shade));
            assert(4 * pixel_index(width as int, i as int, j as int) == j * n + 4 * i) by (nonlinear_arith)
                requires
                    n == 4 * width,
            ;
            assert(out@[j * n + 4 * i] == row[4 * i]);
            assert(out@[j * n + (4 * i + 1)] == row[4 * i + 1]);
            assert(out@[j * n + (4 * i + 2)] == row[4 * i + 2]);
            assert(out@[j * n + (4 * i + 3)] == row[4 * i + 3]);
            assert(shade.ensures((i, j), (row[4 * i], row[4 * i + 1], row[4 * i + 2])));
            assert(row[4 * i + 3] == OPAQUE);
        }
    }
    Ok(out)
}

} // verus!
