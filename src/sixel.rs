//! The sixel encoder: an RGBA raster is resized, reduced to a small palette
//! and written as a DEC sixel escape sequence.
//!
//! The output is, in order: the introducer `ESC P q`, the raster attributes
//! `"1;1;<width>;<height>`, one colour definition `#<i>;2;<r>;<g>;<b>` for
//! each palette entry (channels on a 0..=100 scale), one band for each six
//! rows of pixels, and the terminator `ESC \`.
//!
//! Within a band each colour that occurs in it is written as `#<i>` followed
//! by one byte per column that holds the colour (`0x3F` plus a six-bit mask
//! of the rows that hold it); columns without the colour are skipped with
//! `!<count>?`. The colours of a band are separated by `$` and the band
//! ends with `-`.

use vstd::prelude::*;
use crate::decimal::{decimal, lemma_decimal_digits, push_decimal};

verus! {

// ---------------------------------------------------------------------
// The byte format, over an indexed raster.
// ---------------------------------------------------------------------

/// The number of six-row bands of a raster of height `h`.
pub open spec fn num_bands(h: nat) -> nat {
    (h + 5) / 6
}

/// The number of rows of band `b` (six, or fewer in the last band).
pub open spec fn band_rows(h: nat, b: nat) -> nat {
    if h >= 6 * b + 6 {
        6
    } else if h >= 6 * b {
        (h - 6 * b) as nat
    } else {
        0
    }
}

/// The value of bit `y` of a sixel mask.
pub open spec fn bit_of(y: nat) -> nat
    decreases y,
{
    if y == 0 {
        1
    } else {
        2 * bit_of((y - 1) as nat)
    }
}

/// The mask of the first `k` rows of band `b` at column `x` for colour `c`:
/// bit `y` is set when the pixel in row `y` of the band has index `c`.
pub open spec fn column_mask(w: nat, idx: Seq<u8>, b: nat, c: nat, x: nat, k: nat) -> nat
    decreases k,
{
    if k == 0 {
        0
    } else {
        column_mask(w, idx, b, c, x, (k - 1) as nat) + if idx[((6 * b + k - 1) * w + x) as int]
            as nat == c {
            bit_of((k - 1) as nat)
        } else {
            0
        }
    }
}

/// The sixel mask of column `x` of band `b` for colour `c`.
pub open spec fn sixel_mask(w: nat, h: nat, idx: Seq<u8>, b: nat, c: nat, x: nat) -> nat {
    column_mask(w, idx, b, c, x, band_rows(h, b))
}

/// The last column before `x` whose mask for colour `c` is not empty, or -1.
pub open spec fn last_used_before(w: nat, h: nat, idx: Seq<u8>, b: nat, c: nat, x: nat) -> int
    decreases x,
{
    if x == 0 {
        -1
    } else if sixel_mask(w, h, idx, b, c, (x - 1) as nat) != 0 {
        x - 1
    } else {
        last_used_before(w, h, idx, b, c, (x - 1) as nat)
    }
}

/// The escape that skips `n` columns: `!<n>?`, or nothing when `n` is zero.
pub open spec fn skip_bytes(n: nat) -> Seq<u8> {
    if n == 0 {
        seq![]
    } else {
        seq![0x21u8] + decimal(n) + seq![0x3Fu8]
    }
}

/// The data of colour `c` in band `b` over the columns before `x`: one byte
/// per column that holds the colour, each gap skipped explicitly.
pub open spec fn color_runs(w: nat, h: nat, idx: Seq<u8>, b: nat, c: nat, x: nat) -> Seq<u8>
    decreases x,
{
    if x == 0 {
        seq![]
    } else {
        let prev = color_runs(w, h, idx, b, c, (x - 1) as nat);
        let m = sixel_mask(w, h, idx, b, c, (x - 1) as nat);
        if m == 0 {
            prev
        } else {
            prev + skip_bytes((x - 1 - last_used_before(w, h, idx, b, c, (x - 1) as nat) - 1) as nat)
                + seq![(m + 0x3F) as u8]
        }
    }
}

/// Colour `c` occurs in band `b`: some column's mask for it is not empty.
pub open spec fn color_in_band(w: nat, h: nat, idx: Seq<u8>, b: nat, c: nat) -> bool {
    exists|x: nat| x < w && #[trigger] sixel_mask(w, h, idx, b, c, x) != 0
}

/// The colours below `n` that occur in band `b`, in increasing order.
pub open spec fn band_colors(w: nat, h: nat, idx: Seq<u8>, b: nat, n: nat) -> Seq<nat>
    decreases n,
{
    if n == 0 {
        seq![]
    } else {
        let prev = band_colors(w, h, idx, b, (n - 1) as nat);
        if color_in_band(w, h, idx, b, (n - 1) as nat) {
            prev.push((n - 1) as nat)
        } else {
            prev
        }
    }
}

/// The segment of colour `c` in band `b`: `#<c>` and its data.
pub open spec fn color_segment(w: nat, h: nat, idx: Seq<u8>, b: nat, c: nat) -> Seq<u8> {
    seq![0x23u8] + decimal(c) + color_runs(w, h, idx, b, c, w)
}

/// The segments of the colours `cs`, separated by `$`.
pub open spec fn joined_segments(w: nat, h: nat, idx: Seq<u8>, b: nat, cs: Seq<nat>) -> Seq<u8>
    decreases cs.len(),
{
    if cs.len() == 0 {
        seq![]
    } else if cs.len() == 1 {
        color_segment(w, h, idx, b, cs[0])
    } else {
        joined_segments(w, h, idx, b, cs.drop_last()) + seq![0x24u8] + color_segment(
            w,
            h,
            idx,
            b,
            cs.last(),
        )
    }
}

/// Band `b` of a raster with `n` palette entries, ended by `-`.
pub open spec fn band_bytes(w: nat, h: nat, idx: Seq<u8>, n: nat, b: nat) -> Seq<u8> {
    joined_segments(w, h, idx, b, band_colors(w, h, idx, b, n)) + seq![0x2Du8]
}

/// The first `k` bands, top to bottom.
pub open spec fn bands_upto(w: nat, h: nat, idx: Seq<u8>, n: nat, k: nat) -> Seq<u8>
    decreases k,
{
    if k == 0 {
        seq![]
    } else {
        bands_upto(w, h, idx, n, (k - 1) as nat) + band_bytes(w, h, idx, n, (k - 1) as nat)
    }
}

/// A channel rescaled from 0..=255 to 0..=100, rounded to the nearest.
pub open spec fn channel_percent(v: nat) -> nat {
    (200 * v + 255) / 510
}

/// The definition of palette entry `i`: `#<i>;2;<r>;<g>;<b>`.
pub open spec fn color_definition(i: nat, color: (u8, u8, u8, u8)) -> Seq<u8> {
    seq![0x23u8] + decimal(i) + seq![0x3Bu8, 0x32u8, 0x3Bu8] + decimal(
        channel_percent(color.0 as nat),
    ) + seq![0x3Bu8] + decimal(channel_percent(color.1 as nat)) + seq![0x3Bu8] + decimal(
        channel_percent(color.2 as nat),
    )
}

/// The definitions of the first `k` palette entries.
pub open spec fn palette_definitions(pal: Seq<(u8, u8, u8, u8)>, k: nat) -> Seq<u8>
    decreases k,
{
    if k == 0 {
        seq![]
    } else {
        palette_definitions(pal, (k - 1) as nat) + color_definition((k - 1) as nat, pal[k - 1])
    }
}

/// The introducer `ESC P q`.
pub open spec fn introducer() -> Seq<u8> {
    seq![0x1Bu8, 0x50u8, 0x71u8]
}

/// The raster attributes `"1;1;<w>;<h>`.
pub open spec fn raster_attributes(w: nat, h: nat) -> Seq<u8> {
    seq![0x22u8, 0x31u8, 0x3Bu8, 0x31u8, 0x3Bu8] + decimal(w) + seq![0x3Bu8] + decimal(h)
}

/// The terminator `ESC \`.
pub open spec fn terminator() -> Seq<u8> {
    seq![0x1Bu8, 0x5Cu8]
}

/// The whole sixel image of a `w` by `h` raster of palette indices `idx`.
pub open spec fn sixel_bytes(w: nat, h: nat, pal: Seq<(u8, u8, u8, u8)>, idx: Seq<u8>) -> Seq<u8> {
    introducer() + raster_attributes(w, h) + palette_definitions(pal, pal.len()) + bands_upto(
        w,
        h,
        idx,
        pal.len(),
        num_bands(h),
    ) + terminator()
}

// ---------------------------------------------------------------------
// The encoder of an indexed raster.
// ---------------------------------------------------------------------

proof fn lemma_pixel_in_bounds(w: nat, h: nat, row: nat, x: nat)
    requires
        row < h,
        x < w,
    ensures
        row * w + x < w * h,
{
    assert(row * w + x < w * h) by (nonlinear_arith)
        requires
            row < h,
            x < w,
    ;
}

proof fn lemma_column_mask_bound(w: nat, idx: Seq<u8>, b: nat, c: nat, x: nat, k: nat)
    ensures
        column_mask(w, idx, b, c, x, k) < bit_of(k),
    decreases k,
{
    if k > 0 {
        lemma_column_mask_bound(w, idx, b, c, x, (k - 1) as nat);
    }
}

proof fn lemma_bit_values()
    ensures
        bit_of(0) == 1,
        bit_of(1) == 2,
        bit_of(2) == 4,
        bit_of(3) == 8,
        bit_of(4) == 16,
        bit_of(5) == 32,
        bit_of(6) == 64,
{
    assert(bit_of(0) == 1);
    assert(bit_of(1) == 2);
    assert(bit_of(2) == 4);
    assert(bit_of(3) == 8);
    assert(bit_of(4) == 16);
    assert(bit_of(5) == 32);
    assert(bit_of(6) == 64);
}

/// The sixel mask of one column of one band for one colour.
fn column_sixel(width: usize, height: usize, indices: &Vec<u8>, band: usize, color: usize, x: usize) -> (m: u8)
    requires
        indices@.len() == width * height,
        6 * band < height,
        x < width,
    ensures
        m as nat == sixel_mask(width as nat, height as nat, indices@, band as nat, color as nat, x as nat),
        m < 64,
{
    // The length as a `usize` bounds every pixel index below.
    let total = indices.len();
    let rows: usize = if height - 6 * band >= 6 { 6 } else { height - 6 * band };
    let mut m: u8 = 0;
    let mut bit: u8 = 1;
    let mut y: usize = 0;
    proof {
        lemma_bit_values();
    }
    while y < rows
        invariant
            indices@.len() == width * height,
            total == indices@.len(),
            rows == band_rows(height as nat, band as nat),
            1 <= rows <= 6,
            6 * band + rows <= height,
            x < width,
            y <= rows,
            m as nat == column_mask(width as nat, indices@, band as nat, color as nat, x as nat, y as nat),
            y < rows ==> bit as nat == bit_of(y as nat),
            m < bit_of(y as nat),
        decreases rows - y,
    {
        proof {
            lemma_bit_values();
        }
        let row = 6 * band + y;
        proof {
            lemma_pixel_in_bounds(width as nat, height as nat, row as nat, x as nat);
        }
        let i = row * width + x;
        if indices[i] as usize == color {
            m = m + bit;
        }
        if y + 1 < rows {
            bit = bit * 2;
        }
        y = y + 1;
    }
    proof {
        lemma_bit_values();
    }
    m
}

/// The data bytes of one colour in one band, gaps skipped.
fn color_data(width: usize, height: usize, indices: &Vec<u8>, band: usize, color: usize) -> (r: Vec<u8>)
    requires
        indices@.len() == width * height,
        6 * band < height,
    ensures
        r@ == color_runs(width as nat, height as nat, indices@, band as nat, color as nat, width as nat),
{
    let ghost w = width as nat;
    let ghost h = height as nat;
    let ghost b = band as nat;
    let ghost c = color as nat;
    let mut r: Vec<u8> = Vec::new();
    // One past the last column written so far (0 when none is).
    let mut next: usize = 0;
    let mut x: usize = 0;
    while x < width
        invariant
            indices@.len() == width * height,
            6 * band < height,
            w == width as nat,
            h == height as nat,
            b == band as nat,
            c == color as nat,
            x <= width,
            next <= x,
            next as int == last_used_before(w, h, indices@, b, c, x as nat) + 1,
            r@ == color_runs(w, h, indices@, b, c, x as nat),
        decreases width - x,
    {
        let m = column_sixel(width, height, indices, band, color, x);
        if m != 0 {
            if x > next {
                r.push(0x21u8);
                push_decimal(&mut r, (x - next) as u64);
                r.push(0x3Fu8);
            }
            r.push(m + 0x3F);
            next = x + 1;
        }
        proof {
            let prev = color_runs(w, h, indices@, b, c, x as nat);
            let x1 = (x + 1) as nat;
            assert((x1 - 1) as nat == x as nat);
            assert(sixel_mask(w, h, indices@, b, c, (x1 - 1) as nat) == m as nat);
            if m == 0 {
                assert(color_runs(w, h, indices@, b, c, x1) == prev);
            } else {
                assert(color_runs(w, h, indices@, b, c, x1) == prev + skip_bytes(
                    (x - last_used_before(w, h, indices@, b, c, x as nat) - 1) as nat,
                ) + seq![(m + 0x3F) as u8]);
            }
            if m != 0 {
                assert(r@ =~= color_runs(w, h, indices@, b, c, (x + 1) as nat));
            }
        }
        x = x + 1;
    }
    r
}

/// A colour has data in a band exactly where it occurs in it.
proof fn lemma_runs_nonempty(w: nat, h: nat, idx: Seq<u8>, b: nat, c: nat, x: nat)
    ensures
        color_runs(w, h, idx, b, c, x).len() > 0 <==> exists|y: nat| y < x && #[trigger] sixel_mask(w, h, idx, b, c, y) != 0,
    decreases x,
{
    if x > 0 {
        let x0 = (x - 1) as nat;
        lemma_runs_nonempty(w, h, idx, b, c, x0);
        if color_runs(w, h, idx, b, c, x).len() > 0 && sixel_mask(w, h, idx, b, c, x0) == 0 {
            let y = choose|y: nat| y < x0 && #[trigger] sixel_mask(w, h, idx, b, c, y) != 0;
            assert(y < x);
        }
        if exists|y: nat| y < x && #[trigger] sixel_mask(w, h, idx, b, c, y) != 0 {
            let y = choose|y: nat| y < x && #[trigger] sixel_mask(w, h, idx, b, c, y) != 0;
            if y < x0 {
                assert(color_runs(w, h, idx, b, c, x0).len() > 0);
            }
        }
    }
}

proof fn lemma_joined_push(w: nat, h: nat, idx: Seq<u8>, b: nat, cs: Seq<nat>, c: nat)
    ensures
        joined_segments(w, h, idx, b, cs).len() == 0 <==> cs.len() == 0,
        joined_segments(w, h, idx, b, cs.push(c)) == if cs.len() == 0 {
            color_segment(w, h, idx, b, c)
        } else {
            joined_segments(w, h, idx, b, cs) + seq![0x24u8] + color_segment(w, h, idx, b, c)
        },
{
    assert(cs.push(c).drop_last() =~= cs);
    if cs.len() > 0 {
        assert(cs.drop_last().push(cs.last()) =~= cs);
        if cs.len() > 1 {
            assert(joined_segments(w, h, idx, b, cs).len() > 0);
        } else {
            assert(color_segment(w, h, idx, b, cs[0]).len() > 0);
        }
    }
}

/// Appends band `band` (its colour segments and the closing `-`) to `out`.
fn push_band(out: &mut Vec<u8>, width: usize, height: usize, colors: usize, indices: &Vec<u8>, band: usize)
    requires
        indices@.len() == width * height,
        6 * band < height,
    ensures
        final(out)@ == old(out)@ + band_bytes(width as nat, height as nat, indices@, colors as nat, band as nat),
{
    let ghost w = width as nat;
    let ghost h = height as nat;
    let ghost b = band as nat;
    let ghost start = out@;
    let band_start = out.len();
    let mut c: usize = 0;
    while c < colors
        invariant
            indices@.len() == width * height,
            6 * band < height,
            w == width as nat,
            h == height as nat,
            b == band as nat,
            c <= colors,
            band_start == start.len(),
            out@ == start + joined_segments(w, h, indices@, b, band_colors(w, h, indices@, b, c as nat)),
        decreases colors - c,
    {
        let data = color_data(width, height, indices, band, c);
        proof {
            lemma_runs_nonempty(w, h, indices@, b, c as nat, w);
        }
        let ghost cs = band_colors(w, h, indices@, b, c as nat);
        let ghost before = out@;
        proof {
            lemma_joined_push(w, h, indices@, b, cs, c as nat);
            assert(((c + 1) as nat - 1) as nat == c as nat);
        }
        if data.len() > 0 {
            if out.len() > band_start {
                out.push(0x24u8);
            }
            out.push(0x23u8);
            push_decimal(out, c as u64);
            let mut k: usize = 0;
            let ghost mid = out@;
            while k < data.len()
                invariant
                    k <= data@.len(),
                    out@ == mid + data@.subrange(0, k as int),
                decreases data@.len() - k,
            {
                out.push(data[k]);
                k = k + 1;
                assert(out@ =~= mid + data@.subrange(0, k as int));
            }
            assert(data@.subrange(0, data@.len() as int) =~= data@);
            assert(band_colors(w, h, indices@, b, (c + 1) as nat) == cs.push(c as nat));
            assert(out@ =~= start + joined_segments(w, h, indices@, b, cs.push(c as nat)));
        } else {
            assert(band_colors(w, h, indices@, b, (c + 1) as nat) == cs);
        }
        c = c + 1;
    }
    out.push(0x2Du8);
    assert(out@ =~= start + band_bytes(w, h, indices@, colors as nat, b));
}

/// A channel rescaled from 0..=255 to 0..=100, rounded to the nearest.
pub fn percent_of_channel(v: u8) -> (r: usize)
    ensures
        r as nat == channel_percent(v as nat),
        r <= 100,
{
    ((v as usize) * 200 + 255) / 510
}

/// Appends the definition of every palette entry to `out`.
fn push_palette(out: &mut Vec<u8>, palette: &Vec<(u8, u8, u8, u8)>)
    ensures
        final(out)@ == old(out)@ + palette_definitions(palette@, palette@.len()),
{
    let ghost start = out@;
    let mut i: usize = 0;
    while i < palette.len()
        invariant
            i <= palette@.len(),
            out@ == start + palette_definitions(palette@, i as nat),
        decreases palette@.len() - i,
    {
        let color = palette[i];
        out.push(0x23u8);
        push_decimal(out, i as u64);
        out.push(0x3Bu8);
        out.push(0x32u8);
        out.push(0x3Bu8);
        push_decimal(out, percent_of_channel(color.0) as u64);
        out.push(0x3Bu8);
        push_decimal(out, percent_of_channel(color.1) as u64);
        out.push(0x3Bu8);
        push_decimal(out, percent_of_channel(color.2) as u64);
        proof {
            assert(((i + 1) as nat - 1) as nat == i as nat);
            assert(out@ =~= start + palette_definitions(palette@, (i + 1) as nat));
        }
        i = i + 1;
    }
}

/// Encodes a `width` by `height` raster of palette indices, row-major, as a
/// sixel image over `palette`.
pub fn encode_indexed(width: usize, height: usize, palette: &Vec<(u8, u8, u8, u8)>, indices: &Vec<u8>) -> (r: Vec<u8>)
    requires
        indices@.len() == width * height,
    ensures
        r@ == sixel_bytes(width as nat, height as nat, palette@, indices@),
{
    let ghost w = width as nat;
    let ghost h = height as nat;
    let mut out: Vec<u8> = Vec::new();
    out.push(0x1Bu8);
    out.push(0x50u8);
    out.push(0x71u8);
    out.push(0x22u8);
    out.push(0x31u8);
    out.push(0x3Bu8);
    out.push(0x31u8);
    out.push(0x3Bu8);
    push_decimal(&mut out, width as u64);
    out.push(0x3Bu8);
    push_decimal(&mut out, height as u64);
    push_palette(&mut out, palette);
    let ghost head = out@;
    assert(head =~= introducer() + raster_attributes(w, h) + palette_definitions(palette@, palette@.len()));
    let bands: usize = height / 6 + if height % 6 == 0 { 0 } else { 1 };
    assert(bands as nat == num_bands(h));
    let colors = palette.len();
    let mut band: usize = 0;
    while band < bands
        invariant
            indices@.len() == width * height,
            w == width as nat,
            h == height as nat,
            colors == palette@.len(),
            bands as nat == num_bands(h),
            band <= bands,
            out@ == head + bands_upto(w, h, indices@, colors as nat, band as nat),
        decreases bands - band,
    {
        push_band(&mut out, width, height, colors, indices, band);
        proof {
            assert(((band + 1) as nat - 1) as nat == band as nat);
            assert(out@ =~= head + bands_upto(w, h, indices@, colors as nat, (band + 1) as nat));
        }
        band = band + 1;
    }
    out.push(0x1Bu8);
    out.push(0x5Cu8);
    assert(out@ =~= sixel_bytes(w, h, palette@, indices@));
    out
}

// ---------------------------------------------------------------------
// From an RGBA raster to sixel bytes.
// ---------------------------------------------------------------------

/// A decoded bitmap: `width * height` pixels, row-major, four bytes each
/// (red, green, blue, alpha).
pub struct Raster {
    pub width: u32,
    pub height: u32,
    pub pixels: Vec<u8>,
}

/// Why an image could not be encoded.
#[derive(Clone, Copy, Debug, PartialEq, Eq, Structural)]
pub enum Error {
    /// The raster is empty, its pixel buffer does not hold four bytes per
    /// pixel, the target width is zero, or the resized image is too large
    /// to hold.
    InputError,
    /// The palette quantizer failed, or handed back a palette and indices
    /// that do not describe the image.
    QuantizationError,
}

/// `round(h * target / w)`, halves rounded up.
pub open spec fn scaled_height(w: nat, h: nat, target: nat) -> nat {
    (2 * (h * target) + w) / (2 * w)
}

/// The height of the resized image: the scaled height, and at least one row.
pub open spec fn output_height(w: nat, h: nat, target: nat) -> nat {
    if scaled_height(w, h, target) >= 1 {
        scaled_height(w, h, target)
    } else {
        1
    }
}

/// The raster is well formed and worth encoding at `target` columns.
pub open spec fn valid_input(w: nat, h: nat, pixels: Seq<u8>, target: nat) -> bool {
    &&& w >= 1
    &&& h >= 1
    &&& target >= 1
    &&& pixels.len() == 4 * (w * h)
}

/// The resized image, and the resampling on the way to it, fit in memory.
pub open spec fn output_fits(w: nat, h: nat, target: nat) -> bool {
    let oh = output_height(w, h, target);
    &&& oh <= u32::MAX
    &&& 4 * (target * oh) <= usize::MAX
    &&& 4 * (w * oh) <= usize::MAX
}

/// The pixels of an RGBA image of `width` by `height` resampled to
/// `new_width` by `new_height` with a Lanczos filter of three lobes.
pub uninterp spec fn lanczos3_resized(
    pixels: Seq<u8>,
    width: nat,
    height: nat,
    new_width: nat,
    new_height: nat,
) -> Seq<u8>;

/// Relies on `image::ImageBuffer::from_raw` and `image::imageops::resize`
/// with `FilterType::Lanczos3`: the result holds four bytes for each pixel
/// of the new size and depends on the arguments alone. The two size bounds
/// keep the output and the intermediate buffer of `resize` within `usize`.
#[verifier::external_body]
fn resize_rgba(pixels: &Vec<u8>, width: u32, height: u32, new_width: u32, new_height: u32) -> (r: Vec<u8>)
    requires
        pixels@.len() == 4 * (width * height),
        width >= 1,
        height >= 1,
        new_width >= 1,
        new_height >= 1,
        4 * (new_width * new_height) <= usize::MAX,
        4 * (width * new_height) <= usize::MAX,
    ensures
        r@ == lanczos3_resized(pixels@, width as nat, height as nat, new_width as nat, new_height as nat),
        r@.len() == 4 * (new_width * new_height),
{
    let img = image::ImageBuffer::<image::Rgba<u8>, &[u8]>::from_raw(width, height, pixels.as_slice())
        .unwrap();
    image::imageops::resize(&img, new_width, new_height, image::imageops::FilterType::Lanczos3).into_raw()
}

/// What the quantizer hands back, as plain sequences.
pub open spec fn quantized_view(r: Option<(Vec<(u8, u8, u8, u8)>, Vec<u8>)>) -> Option<(Seq<(u8, u8, u8, u8)>, Seq<u8>)> {
    match r {
        Some(q) => Some((q.0@, q.1@)),
        None => None,
    }
}

/// The palette (RGBA entries) and the row-major palette indices that
/// libimagequant's quantizer, with its default dithering, makes of an RGBA
/// image of `width` by `height` with at most `max_colors` colours; `None`
/// where it reports an error.
pub uninterp spec fn liq_remapped(pixels: Seq<u8>, width: nat, height: nat, max_colors: nat) -> Option<(Seq<(u8, u8, u8, u8)>, Seq<u8>)>;

/// Relies on `imagequant::new`, `Attributes::set_max_colors`,
/// `Attributes::new_image`, `Attributes::quantize` and
/// `QuantizationResult::remapped` (dithering level 1, the default; sRGB
/// gamma; built without threads): the result depends on the arguments
/// alone, and `set_max_colors` refuses a count outside `2..=256`.
#[verifier::external_body]
fn quantize_rgba(pixels: &Vec<u8>, width: usize, height: usize, max_colors: u32) -> (r: Option<(Vec<(u8, u8, u8, u8)>, Vec<u8>)>)
    requires
        pixels@.len() == 4 * (width * height),
    ensures
        quantized_view(r) == liq_remapped(pixels@, width as nat, height as nat, max_colors as nat),
        !(2 <= max_colors <= 256) ==> r is None,
{
    let px: Vec<imagequant::RGBA> = pixels.chunks_exact(4)
        .map(|p| imagequant::RGBA { r: p[0], g: p[1], b: p[2], a: p[3] }).collect();
    let mut attr = imagequant::new();
    attr.set_max_colors(max_colors).ok()?;
    let mut img = attr.new_image(px, width, height, Default::default()).ok()?;
    let mut res = attr.quantize(&mut img).ok()?;
    let (palette, indices) = res.remapped(&mut img).ok()?;
    Some((palette.iter().map(|c| (c.r, c.g, c.b, c.a)).collect(), indices))
}

/// The quantizer's result describes a `len`-pixel image with a palette of
/// at most `max_colors` entries.
pub open spec fn valid_quantization(pal: Seq<(u8, u8, u8, u8)>, idx: Seq<u8>, len: nat, max_colors: nat) -> bool {
    &&& 1 <= pal.len() <= max_colors
    &&& idx.len() == len
    &&& forall|i: int| 0 <= i < idx.len() ==> (#[trigger] idx[i] as nat) < pal.len()
}

/// The outcome of encoding `pixels` (a `w` by `h` RGBA raster) at
/// `target` columns with at most `max_colors` colours.
pub open spec fn sixel_result(target: nat, w: nat, h: nat, pixels: Seq<u8>, max_colors: nat) -> Result<Seq<u8>, Error> {
    if !valid_input(w, h, pixels, target) || !output_fits(w, h, target) {
        Err(Error::InputError)
    } else {
        let oh = output_height(w, h, target);
        let resized = lanczos3_resized(pixels, w, h, target, oh);
        match liq_remapped(resized, target, oh, max_colors) {
            Some(q) => if valid_quantization(q.0, q.1, target * oh, max_colors) {
                Ok(sixel_bytes(target, oh, q.0, q.1))
            } else {
                Err(Error::QuantizationError)
            },
            None => Err(Error::QuantizationError),
        }
    }
}

proof fn lemma_product_of_u32(a: nat, b: nat)
    requires
        a <= u32::MAX,
        b <= u32::MAX,
    ensures
        a * b <= 0xFFFF_FFFE_0000_0001,
{
    assert(a * b <= 0xFFFF_FFFF * 0xFFFF_FFFF) by (nonlinear_arith)
        requires
            a <= 0xFFFF_FFFF,
            b <= 0xFFFF_FFFF,
    ;
}

/// Every index is below `n`.
fn indices_below(indices: &Vec<u8>, n: usize) -> (r: bool)
    ensures
        r == forall|i: int| 0 <= i < indices@.len() ==> (#[trigger] indices@[i] as nat) < n,
{
    let mut i: usize = 0;
    while i < indices.len()
        invariant
            i <= indices@.len(),
            forall|j: int| 0 <= j < i ==> (#[trigger] indices@[j] as nat) < n,
        decreases indices@.len() - i,
    {
        if indices[i] as usize >= n {
            return false;
        }
        i = i + 1;
    }
    true
}

/// Encodes `image` as a sixel image `width` pixels wide, its height scaled
/// by the same ratio, with a palette of at most `max_colors` colours.
pub fn to_sixel(width: u32, image: &Raster, max_colors: u32) -> (r: Result<Vec<u8>, Error>)
    ensures
        match r {
            Ok(bytes) => sixel_result(width as nat, image.width as nat, image.height as nat, image.pixels@, max_colors as nat) == Ok::<Seq<u8>, Error>(bytes@),
            Err(e) => sixel_result(width as nat, image.width as nat, image.height as nat, image.pixels@, max_colors as nat) == Err::<Seq<u8>, Error>(e),
        },
        !valid_input(image.width as nat, image.height as nat, image.pixels@, width as nat) ==> r == Err::<Vec<u8>, Error>(Error::InputError),
        valid_input(image.width as nat, image.height as nat, image.pixels@, width as nat)
            && output_fits(image.width as nat, image.height as nat, width as nat)
            && !(2 <= max_colors <= 256) ==> r == Err::<Vec<u8>, Error>(Error::QuantizationError),
{
    let w = image.width;
    let h = image.height;
    proof {
        lemma_product_of_u32(w as nat, h as nat);
        lemma_product_of_u32(h as nat, width as nat);
    }
    if w == 0 || h == 0 || width == 0 || image.pixels.len() as u128 != 4 * ((w as u128) * (h as u128)) {
        return Err(Error::InputError);
    }
    let scaled: u128 = (2 * ((h as u128) * (width as u128)) + (w as u128)) / (2 * (w as u128));
    let oh: u128 = if scaled >= 1 { scaled } else { 1 };
    if oh > u32::MAX as u128 {
        return Err(Error::InputError);
    }
    proof {
        lemma_product_of_u32(width as nat, oh as nat);
        lemma_product_of_u32(w as nat, oh as nat);
    }
    if 4 * ((width as u128) * oh) > usize::MAX as u128 || 4 * ((w as u128) * oh) > usize::MAX as u128 {
        return Err(Error::InputError);
    }
    let out_height = oh as u32;
    let resized = resize_rgba(&image.pixels, w, h, width, out_height);
    let cols = width as usize;
    let rows = out_height as usize;
    match quantize_rgba(&resized, cols, rows, max_colors) {
        None => Err(Error::QuantizationError),
        Some((palette, indices)) => {
            if palette.len() == 0 || palette.len() > max_colors as usize
                || indices.len() as u128 != (cols as u128) * (rows as u128)
                || !indices_below(&indices, palette.len()) {
                return Err(Error::QuantizationError);
            }
            Ok(encode_indexed(cols, rows, &palette, &indices))
        },
    }
}

// ---------------------------------------------------------------------
// Laws of the encoder.
// ---------------------------------------------------------------------

/// The number of occurrences of byte `v` in `s`.
pub open spec fn count_byte(s: Seq<u8>, v: u8) -> nat
    decreases s.len(),
{
    if s.len() == 0 {
        0
    } else {
        count_byte(s.drop_last(), v) + if s.last() == v {
            1nat
        } else {
            0nat
        }
    }
}

/// Byte `v` does not occur in `s`.
pub open spec fn free_of(s: Seq<u8>, v: u8) -> bool {
    forall|i: int| 0 <= i < s.len() ==> s[i] != v
}

proof fn lemma_count_concat(a: Seq<u8>, b: Seq<u8>, v: u8)
    ensures
        count_byte(a + b, v) == count_byte(a, v) + count_byte(b, v),
    decreases b.len(),
{
    if b.len() > 0 {
        assert((a + b).drop_last() =~= a + b.drop_last());
        lemma_count_concat(a, b.drop_last(), v);
    } else {
        assert(a + b =~= a);
    }
}

proof fn lemma_count_free(s: Seq<u8>, v: u8)
    requires
        free_of(s, v),
    ensures
        count_byte(s, v) == 0,
    decreases s.len(),
{
    if s.len() > 0 {
        lemma_count_free(s.drop_last(), v);
    }
}

proof fn lemma_decimal_free(n: nat)
    ensures
        free_of(decimal(n), 0x2Du8),
        free_of(decimal(n), 0x24u8),
{
    lemma_decimal_digits(n);
}

proof fn lemma_sixel_mask_bound(w: nat, h: nat, idx: Seq<u8>, b: nat, c: nat, x: nat)
    ensures
        sixel_mask(w, h, idx, b, c, x) < 64,
{
    lemma_bit_values();
    lemma_column_mask_bound(w, idx, b, c, x, band_rows(h, b));
}

proof fn lemma_runs_free(w: nat, h: nat, idx: Seq<u8>, b: nat, c: nat, x: nat)
    ensures
        free_of(color_runs(w, h, idx, b, c, x), 0x2Du8),
        free_of(color_runs(w, h, idx, b, c, x), 0x24u8),
    decreases x,
{
    if x > 0 {
        let x0 = (x - 1) as nat;
        lemma_runs_free(w, h, idx, b, c, x0);
        lemma_sixel_mask_bound(w, h, idx, b, c, x0);
        let gap = (x0 - last_used_before(w, h, idx, b, c, x0) - 1) as nat;
        lemma_decimal_free(gap);
    }
}

proof fn lemma_joined_free(w: nat, h: nat, idx: Seq<u8>, b: nat, cs: Seq<nat>)
    ensures
        free_of(joined_segments(w, h, idx, b, cs), 0x2Du8),
    decreases cs.len(),
{
    if cs.len() > 0 {
        lemma_runs_free(w, h, idx, b, cs.last(), w);
        lemma_decimal_free(cs.last());
        lemma_runs_free(w, h, idx, b, cs[0], w);
        lemma_decimal_free(cs[0]);
        if cs.len() > 1 {
            lemma_joined_free(w, h, idx, b, cs.drop_last());
        }
    }
}

proof fn lemma_bands_count(w: nat, h: nat, idx: Seq<u8>, n: nat, k: nat)
    ensures
        count_byte(bands_upto(w, h, idx, n, k), 0x2Du8) == k,
    decreases k,
{
    if k > 0 {
        let k0 = (k - 1) as nat;
        lemma_bands_count(w, h, idx, n, k0);
        let cs = band_colors(w, h, idx, k0, n);
        let joined = joined_segments(w, h, idx, k0, cs);
        lemma_joined_free(w, h, idx, k0, cs);
        lemma_count_free(joined, 0x2Du8);
        lemma_count_concat(joined, seq![0x2Du8], 0x2Du8);
        let dash = seq![0x2Du8];
        assert(dash.drop_last() =~= Seq::<u8>::empty());
        assert(count_byte(dash.drop_last(), 0x2Du8) == 0);
        assert(dash.last() == 0x2Du8);
        assert(count_byte(dash, 0x2Du8) == 1);
        lemma_count_concat(bands_upto(w, h, idx, n, k0), band_bytes(w, h, idx, n, k0), 0x2Du8);
    }
}

proof fn lemma_palette_free(pal: Seq<(u8, u8, u8, u8)>, k: nat)
    ensures
        free_of(palette_definitions(pal, k), 0x2Du8),
    decreases k,
{
    if k > 0 {
        let k0 = (k - 1) as nat;
        lemma_palette_free(pal, k0);
        lemma_decimal_free(k0);
        lemma_decimal_free(channel_percent(pal[k0 as int].0 as nat));
        lemma_decimal_free(channel_percent(pal[k0 as int].1 as nat));
        lemma_decimal_free(channel_percent(pal[k0 as int].2 as nat));
    }
}

/// A sixel image holds exactly one graphic new line (`-`) for each band:
/// `ceil(h / 6)` of them.
pub proof fn lemma_band_count(w: nat, h: nat, pal: Seq<(u8, u8, u8, u8)>, idx: Seq<u8>)
    ensures
        count_byte(sixel_bytes(w, h, pal, idx), 0x2Du8) == num_bands(h),
{
    let head = introducer() + raster_attributes(w, h) + palette_definitions(pal, pal.len());
    let bands = bands_upto(w, h, idx, pal.len(), num_bands(h));
    lemma_decimal_free(w);
    lemma_decimal_free(h);
    lemma_palette_free(pal, pal.len());
    lemma_count_free(head, 0x2Du8);
    lemma_count_free(terminator(), 0x2Du8);
    lemma_bands_count(w, h, idx, pal.len(), num_bands(h));
    lemma_count_concat(head, bands, 0x2Du8);
    lemma_count_concat(head + bands, terminator(), 0x2Du8);
}

/// An encoded image holds one graphic new line for each six rows of the
/// resized image, the last band counting even when it is shorter.
pub proof fn lemma_result_band_count(target: nat, w: nat, h: nat, pixels: Seq<u8>, max_colors: nat)
    requires
        sixel_result(target, w, h, pixels, max_colors) is Ok,
    ensures
        count_byte(sixel_result(target, w, h, pixels, max_colors)->Ok_0, 0x2Du8) == num_bands(
            output_height(w, h, target),
        ),
{
    let oh = output_height(w, h, target);
    let q = liq_remapped(lanczos3_resized(pixels, w, h, target, oh), target, oh, max_colors)->Some_0;
    lemma_band_count(target, oh, q.0, q.1);
}

/// Encoding is deterministic: the same raster, target width and palette
/// size give the same outcome, byte for byte.
pub proof fn lemma_encoding_deterministic(
    target: nat,
    w1: nat,
    h1: nat,
    pixels1: Seq<u8>,
    w2: nat,
    h2: nat,
    pixels2: Seq<u8>,
    max_colors: nat,
)
    requires
        w1 == w2,
        h1 == h2,
        pixels1 =~= pixels2,
    ensures
        sixel_result(target, w1, h1, pixels1, max_colors) == sixel_result(target, w2, h2, pixels2, max_colors),
{
}

/// The header of an encoded image gives the target width and the source
/// height scaled by the same ratio, rounded to the nearest integer, where
/// that rounds to at least one row.
pub proof fn lemma_header_dimensions(target: nat, w: nat, h: nat, pixels: Seq<u8>, max_colors: nat)
    requires
        sixel_result(target, w, h, pixels, max_colors) is Ok,
    ensures
        ({
            let oh = scaled_height(w, h, target);
            let header = introducer() + raster_attributes(target, output_height(w, h, target));
            &&& sixel_result(target, w, h, pixels, max_colors)->Ok_0.subrange(0, header.len() as int) == header
            &&& oh >= 1 ==> output_height(w, h, target) == oh
            &&& 2 * w * oh <= 2 * (h * target) + w < 2 * w * (oh + 1)
        }),
{
    let oh = output_height(w, h, target);
    let r = sixel_result(target, w, h, pixels, max_colors);
    let q = liq_remapped(lanczos3_resized(pixels, w, h, target, oh), target, oh, max_colors)->Some_0;
    let header = introducer() + raster_attributes(target, oh);
    assert(r->Ok_0 == sixel_bytes(target, oh, q.0, q.1));
    assert(r->Ok_0.subrange(0, header.len() as int) =~= header);
    let x = 2 * (h * target) + w;
    let d = 2 * w;
    vstd::arithmetic::div_mod::lemma_fundamental_div_mod(x as int, d as int);
    vstd::arithmetic::div_mod::lemma_mod_bound(x as int, d as int);
    let s = scaled_height(w, h, target);
    assert(d * s + x % d == x);
    assert(2 * w * s == d * s) by (nonlinear_arith)
        requires
            d == 2 * w,
    ;
    assert(2 * w * (s + 1) == d * s + d) by (nonlinear_arith)
        requires
            d == 2 * w,
    ;
}

proof fn lemma_band_colors_below(w: nat, h: nat, idx: Seq<u8>, b: nat, n: nat)
    ensures
        forall|i: int| 0 <= i < band_colors(w, h, idx, b, n).len() ==> #[trigger] band_colors(w, h, idx, b, n)[i] < n,
    decreases n,
{
    if n > 0 {
        let n0 = (n - 1) as nat;
        lemma_band_colors_below(w, h, idx, b, n0);
        let prev = band_colors(w, h, idx, b, n0);
        if color_in_band(w, h, idx, b, n0) {
            assert forall|i: int| 0 <= i < prev.push(n0).len() implies #[trigger] prev.push(n0)[i] < n by {
                if i < prev.len() {
                    assert(prev[i] < n0);
                }
            }
        }
    }
}

/// An encoded image defines at most `max_colors` palette entries, and every
/// colour that a band refers to is one of them.
pub proof fn lemma_palette_bound(target: nat, w: nat, h: nat, pixels: Seq<u8>, max_colors: nat)
    requires
        sixel_result(target, w, h, pixels, max_colors) is Ok,
    ensures
        exists|pal: Seq<(u8, u8, u8, u8)>, idx: Seq<u8>|
            {
                &&& sixel_result(target, w, h, pixels, max_colors)->Ok_0 == #[trigger] sixel_bytes(
                    target,
                    output_height(w, h, target),
                    pal,
                    idx,
                )
                &&& 1 <= pal.len() <= max_colors
                &&& forall|b: nat, i: int|
                    b < num_bands(output_height(w, h, target)) && 0 <= i < band_colors(
                        target,
                        output_height(w, h, target),
                        idx,
                        b,
                        pal.len(),
                    ).len() ==> #[trigger] band_colors(
                        target,
                        output_height(w, h, target),
                        idx,
                        b,
                        pal.len(),
                    )[i] < pal.len()
            },
{
    let oh = output_height(w, h, target);
    let q = liq_remapped(lanczos3_resized(pixels, w, h, target, oh), target, oh, max_colors)->Some_0;
    assert forall|b: nat, i: int|
        b < num_bands(oh) && 0 <= i < band_colors(target, oh, q.1, b, q.0.len()).len()
            implies #[trigger] band_colors(target, oh, q.1, b, q.0.len())[i] < q.0.len() by {
        lemma_band_colors_below(target, oh, q.1, b, q.0.len());
    }
    assert(sixel_result(target, w, h, pixels, max_colors)->Ok_0 == sixel_bytes(target, oh, q.0, q.1));
}

} // verus!
