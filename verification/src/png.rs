//! PNG encoding of an RGBA sheet: colour palette, scanline filters,
//! chunk framing and checksums.

use vstd::prelude::*;

verus! {

// ---------------------------------------------------------------------
// CRC-32 (ISO-HDLC), as used by PNG chunks.
// ---------------------------------------------------------------------

/// `k` rounds of the reflected CRC-32 bit step on `v`.
pub open spec fn crc_bits(v: u32, k: nat) -> u32
    decreases k,
{
    if k == 0 {
        v
    } else {
        let w = crc_bits(v, (k - 1) as nat);
        if w & 1 == 1 {
            (w >> 1) ^ 0xedb8_8320
        } else {
            w >> 1
        }
    }
}

/// Entry `i` of the CRC-32 lookup table.
pub open spec fn crc_table_entry(i: u32) -> u32 {
    crc_bits(i, 8)
}

/// One table-driven CRC step over `byte`.
pub open spec fn crc_step(crc: u32, byte: u8) -> u32 {
    crc_table_entry((crc ^ (byte as u32)) & 0xff) ^ (crc >> 8)
}

/// The CRC register after feeding `bytes` into `crc`.
pub open spec fn crc_fold(crc: u32, bytes: Seq<u8>) -> u32
    decreases bytes.len(),
{
    if bytes.len() == 0 {
        crc
    } else {
        crc_step(crc_fold(crc, bytes.drop_last()), bytes.last())
    }
}

/// The CRC-32 of `bytes`.
pub open spec fn spec_crc32(bytes: Seq<u8>) -> u32 {
    !crc_fold(0xffff_ffff, bytes)
}

/// The 256-entry CRC-32 lookup table.
pub fn make_crc32_table() -> (table: Vec<u32>)
    ensures
        table.len() == 256,
        forall|i: int| 0 <= i < 256 ==> #[trigger] table@[i] == crc_table_entry(i as u32),
{
    let mut table: Vec<u32> = Vec::new();
    let mut index: u32 = 0;
    while index < 256
        invariant
            index <= 256,
            table.len() == index,
            forall|i: int| 0 <= i < index ==> #[trigger] table@[i] == crc_table_entry(i as u32),
        decreases 256 - index,
    {
        let mut value: u32 = index;
        let mut bit: u32 = 0;
        while bit < 8
            invariant
                bit <= 8,
                value == crc_bits(index, bit as nat),
            decreases 8 - bit,
        {
            value = if value & 1 == 1 {
                (value >> 1) ^ 0xedb8_8320
            } else {
                value >> 1
            };
            bit += 1;
        }
        table.push(value);
        index += 1;
    }
    table
}

/// The CRC-32 of `bytes`.
pub fn crc32(bytes: &[u8]) -> (crc: u32)
    ensures
        crc == spec_crc32(bytes@),
{
    let table = make_crc32_table();
    let mut crc: u32 = 0xffff_ffff;
    let mut i: usize = 0;
    while i < bytes.len()
        invariant
            i <= bytes.len(),
            table.len() == 256,
            forall|k: int| 0 <= k < 256 ==> #[trigger] table@[k] == crc_table_entry(k as u32),
            crc == crc_fold(0xffff_ffff, bytes@.take(i as int)),
        decreases bytes.len() - i,
    {
        let byte = bytes[i];
        let key = (crc ^ (byte as u32)) & 0xff;
        assert(key < 256) by (bit_vector)
            requires
                key == (crc ^ (byte as u32)) & 0xff,
        ;
        proof {
            assert(bytes@.take(i + 1).drop_last() =~= bytes@.take(i as int));
        }
        crc = table[key as usize] ^ (crc >> 8);
        i += 1;
    }
    proof {
        assert(bytes@.take(i as int) =~= bytes@);
    }
    !crc
}

// ---------------------------------------------------------------------
// Chunk framing.
// ---------------------------------------------------------------------

/// Big-endian bytes of `v`.
pub open spec fn be32(v: u32) -> Seq<u8> {
    seq![(v >> 24) as u8, ((v >> 16) & 0xff) as u8, ((v >> 8) & 0xff) as u8, (v & 0xff) as u8]
}

fn push_be32(output: &mut Vec<u8>, v: u32)
    ensures
        final(output)@ == old(output)@ + be32(v),
{
    let b0 = (v >> 24) as u8;
    let b1 = ((v >> 16) & 0xff) as u8;
    let b2 = ((v >> 8) & 0xff) as u8;
    let b3 = (v & 0xff) as u8;
    output.push(b0);
    output.push(b1);
    output.push(b2);
    output.push(b3);
    assert(output@ =~= old(output)@ + be32(v));
}

/// A PNG chunk: length, tag, data and the CRC-32 of tag and data.
pub open spec fn png_chunk(tag: Seq<u8>, data: Seq<u8>) -> Seq<u8> {
    be32(data.len() as u32) + tag + data + be32(spec_crc32(tag + data))
}

fn extend(output: &mut Vec<u8>, data: &[u8])
    ensures
        final(output)@ == old(output)@ + data@,
{
    let mut i: usize = 0;
    while i < data.len()
        invariant
            i <= data.len(),
            output@ == old(output)@ + data@.take(i as int),
        decreases data.len() - i,
    {
        output.push(data[i]);
        assert(data@.take(i + 1) =~= data@.take(i as int).push(data@[i as int]));
        i += 1;
    }
    assert(data@.take(i as int) =~= data@);
}

/// Appends the chunk `tag` with `data` to `output`.
pub fn push_chunk(output: &mut Vec<u8>, tag: &[u8; 4], data: &[u8])
    ensures
        final(output)@ == old(output)@ + png_chunk(tag@, data@),
{
    push_be32(output, data.len() as u32);
    extend(output, tag.as_slice());
    extend(output, data);
    let mut checked: Vec<u8> = Vec::new();
    extend(&mut checked, tag.as_slice());
    extend(&mut checked, data);
    let checksum = crc32(checked.as_slice());
    push_be32(output, checksum);
    assert(output@ =~= old(output)@ + png_chunk(tag@, data@));
}

// ---------------------------------------------------------------------
// Scanline filters.
// ---------------------------------------------------------------------

/// The absolute value of `v`.
pub open spec fn abs(v: int) -> int {
    if v < 0 {
        -v
    } else {
        v
    }
}

/// The Paeth predictor, ties going to left, then above, then upper-left.
pub open spec fn spec_paeth(left: int, above: int, upper_left: int) -> int {
    let estimate = left + above - upper_left;
    let left_distance = abs(estimate - left);
    let above_distance = abs(estimate - above);
    let upper_left_distance = abs(estimate - upper_left);
    if left_distance <= above_distance && left_distance <= upper_left_distance {
        left
    } else if above_distance <= upper_left_distance {
        above
    } else {
        upper_left
    }
}

/// The Paeth predictor of three bytes.
pub fn paeth(left: i32, above: i32, upper_left: i32) -> (r: u8)
    requires
        0 <= left <= 255,
        0 <= above <= 255,
        0 <= upper_left <= 255,
    ensures
        r == spec_paeth(left as int, above as int, upper_left as int),
{
    let estimate = left + above - upper_left;
    let left_distance = if estimate >= left { estimate - left } else { left - estimate };
    let above_distance = if estimate >= above { estimate - above } else { above - estimate };
    let upper_left_distance = if estimate >= upper_left {
        estimate - upper_left
    } else {
        upper_left - estimate
    };
    if left_distance <= above_distance && left_distance <= upper_left_distance {
        left as u8
    } else if above_distance <= upper_left_distance {
        above as u8
    } else {
        upper_left as u8
    }
}

/// What filter number `filter` predicts a byte to be from its left, above
/// and upper-left neighbours. Filter numbers above 4 act as Paeth.
pub open spec fn filter_prediction(filter: u8, left: int, above: int, upper_left: int) -> int {
    if filter == 0 {
        0
    } else if filter == 1 {
        left
    } else if filter == 2 {
        above
    } else if filter == 3 {
        (left + above) / 2
    } else {
        spec_paeth(left, above, upper_left)
    }
}

/// The byte a filter stores for `value`, given its left, above and
/// upper-left neighbours: the difference from the filter's prediction,
/// modulo 256.
pub open spec fn filter_byte(filter: u8, value: int, left: int, above: int, upper_left: int) -> u8 {
    ((value - filter_prediction(filter, left, above, upper_left)) % 256) as u8
}

/// Row `current` filtered with `filter`, against row `previous`.
pub open spec fn spec_filter_row(current: Seq<u8>, previous: Seq<u8>, bpp: int, filter: u8) -> Seq<u8> {
    Seq::new(
        current.len(),
        |i: int|
            filter_byte(
                filter,
                current[i] as int,
                if i >= bpp { current[i - bpp] as int } else { 0 },
                previous[i] as int,
                if i >= bpp { previous[i - bpp] as int } else { 0 },
            ),
    )
}

/// The Paeth predictor picks whichever of left, above and upper-left lies
/// nearest to left + above - upper-left, preferring left, then above, on
/// a tie.
pub proof fn lemma_paeth_nearest(left: int, above: int, upper_left: int)
    ensures
        ({
            let estimate = left + above - upper_left;
            let r = spec_paeth(left, above, upper_left);
            &&& r == left || r == above || r == upper_left
            &&& abs(estimate - r) <= abs(estimate - left)
            &&& abs(estimate - r) <= abs(estimate - above)
            &&& abs(estimate - r) <= abs(estimate - upper_left)
            &&& abs(estimate - left) == abs(estimate - r) ==> r == left
            &&& abs(estimate - above) == abs(estimate - r) && abs(estimate - left) != abs(estimate - r)
                ==> r == above
        }),
{
}

/// The filter types of PNG, byte by byte. With `a` the byte one pixel to
/// the left (zero in the first pixel), `b` the byte above and `c` the byte
/// above `a`, a filtered row stores, modulo 256: the byte itself for type
/// 0 (None), the byte minus `a` for type 1 (Sub), minus `b` for type 2
/// (Up), minus the floor of `(a + b) / 2` for type 3 (Average), and minus
/// the Paeth predictor of `a`, `b` and `c` for type 4 (Paeth) and above.
/// Adding the same amount back, modulo 256, gives the byte again.
pub proof fn lemma_filter_types(current: Seq<u8>, previous: Seq<u8>, bpp: int)
    requires
        bpp >= 1,
        previous.len() >= current.len(),
    ensures
        forall|filter: u8, i: int|
            0 <= i < current.len() ==> {
                let v = current[i] as int;
                let a: int = if i >= bpp { current[i - bpp] as int } else { 0 };
                let b = previous[i] as int;
                let c: int = if i >= bpp { previous[i - bpp] as int } else { 0 };
                let stored = #[trigger] spec_filter_row(current, previous, bpp, filter)[i];
                let predicted: int = if filter == 0 {
                    0
                } else if filter == 1 {
                    a
                } else if filter == 2 {
                    b
                } else if filter == 3 {
                    (a + b) / 2
                } else {
                    spec_paeth(a, b, c)
                };
                &&& filter == 0 ==> stored == current[i]
                &&& filter == 1 ==> stored as int == (v - a) % 256
                &&& filter == 2 ==> stored as int == (v - b) % 256
                &&& filter == 3 ==> stored as int == (v - (a + b) / 2) % 256
                &&& filter >= 4 ==> stored as int == (v - spec_paeth(a, b, c)) % 256
                &&& (stored as int + predicted) % 256 == v
            },
{
    assert forall|filter: u8, i: int| 0 <= i < current.len() implies {
        let v = current[i] as int;
        let a: int = if i >= bpp { current[i - bpp] as int } else { 0 };
        let b = previous[i] as int;
        let c: int = if i >= bpp { previous[i - bpp] as int } else { 0 };
        let stored = #[trigger] spec_filter_row(current, previous, bpp, filter)[i];
        let predicted: int = if filter == 0 {
            0
        } else if filter == 1 {
            a
        } else if filter == 2 {
            b
        } else if filter == 3 {
            (a + b) / 2
        } else {
            spec_paeth(a, b, c)
        };
        &&& filter == 0 ==> stored == current[i]
        &&& filter == 1 ==> stored as int == (v - a) % 256
        &&& filter == 2 ==> stored as int == (v - b) % 256
        &&& filter == 3 ==> stored as int == (v - (a + b) / 2) % 256
        &&& filter >= 4 ==> stored as int == (v - spec_paeth(a, b, c)) % 256
        &&& (stored as int + predicted) % 256 == v
    } by {
        let v = current[i] as int;
        let a: int = if i >= bpp { current[i - bpp] as int } else { 0 };
        let b = previous[i] as int;
        let c: int = if i >= bpp { previous[i - bpp] as int } else { 0 };
        lemma_undo_difference(v, filter_prediction(filter, a, b, c));
    }
}

/// Filters one scanline.
pub fn filter_row(current: &[u8], previous: &[u8], bytes_per_pixel: usize, filter: u8) -> (filtered: Vec<u8>)
    requires
        previous.len() >= current.len(),
    ensures
        filtered@ == spec_filter_row(current@, previous@, bytes_per_pixel as int, filter),
{
    let mut filtered: Vec<u8> = Vec::with_capacity(current.len());
    let mut byte_index: usize = 0;
    while byte_index < current.len()
        invariant
            byte_index <= current.len(),
            previous.len() >= current.len(),
            filtered.len() == byte_index,
            forall|k: int|
                0 <= k < byte_index ==> #[trigger] filtered@[k] == spec_filter_row(
                    current@,
                    previous@,
                    bytes_per_pixel as int,
                    filter,
                )[k],
        decreases current.len() - byte_index,
    {
        let value = current[byte_index] as i32;
        let left: i32 = if byte_index >= bytes_per_pixel {
            current[byte_index - bytes_per_pixel] as i32
        } else {
            0
        };
        let above = previous[byte_index] as i32;
        let upper_left: i32 = if byte_index >= bytes_per_pixel {
            previous[byte_index - bytes_per_pixel] as i32
        } else {
            0
        };
        let prediction: i32 = if filter == 0 {
            0
        } else if filter == 1 {
            left
        } else if filter == 2 {
            above
        } else if filter == 3 {
            (left + above) / 2
        } else {
            paeth(left, above, upper_left) as i32
        };
        let difference = value - prediction;
        let stored: u8 = if difference < 0 {
            (difference + 256) as u8
        } else {
            difference as u8
        };
        proof {
            assert(prediction as int == filter_prediction(filter, left as int, above as int, upper_left as int));
            assert(stored == filter_byte(filter, value as int, left as int, above as int, upper_left as int));
        }
        filtered.push(stored);
        byte_index += 1;
    }
    assert(filtered@ =~= spec_filter_row(current@, previous@, bytes_per_pixel as int, filter));
    filtered
}


/// How each scanline picks its filter.
#[derive(Clone, Copy)]
pub enum FilterStrategy {
    /// The same filter number on every row.
    Uniform(u8),
    /// Per row, the filter with the smallest sum of absolute differences;
    /// ties go to the lower filter number.
    AdaptiveMsad,
}

/// The position of the first smallest element.
pub open spec fn first_min_index(s: Seq<int>) -> int
    decreases s.len(),
{
    if s.len() <= 1 {
        0
    } else {
        let j = first_min_index(s.drop_last());
        if s.last() < s[j] {
            s.len() - 1
        } else {
            j
        }
    }
}

/// The absolute value of a filtered byte read as a signed byte.
pub open spec fn signed_magnitude(v: u8) -> int {
    if v < 128 {
        v as int
    } else {
        256 - v
    }
}

/// Sum of the absolute differences a filtered row holds.
pub open spec fn msad_score(filtered: Seq<u8>) -> int
    decreases filtered.len(),
{
    if filtered.len() == 0 {
        0
    } else {
        msad_score(filtered.drop_last()) + signed_magnitude(filtered.last())
    }
}

/// The scores of the five filters on one row.
pub open spec fn filter_scores(current: Seq<u8>, previous: Seq<u8>, bpp: int) -> Seq<int> {
    Seq::new(5, |f: int| msad_score(spec_filter_row(current, previous, bpp, f as u8)))
}

/// The filter number a strategy picks for one row.
pub open spec fn row_filter(strategy: FilterStrategy, current: Seq<u8>, previous: Seq<u8>, bpp: int) -> u8 {
    match strategy {
        FilterStrategy::Uniform(f) => f,
        FilterStrategy::AdaptiveMsad => first_min_index(filter_scores(current, previous, bpp)) as u8,
    }
}

/// Row `r` of an image with `stride` bytes per row.
pub open spec fn image_row(data: Seq<u8>, stride: int, r: int) -> Seq<u8> {
    data.subrange(r * stride, (r + 1) * stride)
}

/// The row above row `r`: zeros above the first row.
pub open spec fn row_above(data: Seq<u8>, stride: int, r: int) -> Seq<u8> {
    if r == 0 {
        Seq::new(stride as nat, |i: int| 0u8)
    } else {
        image_row(data, stride, r - 1)
    }
}

/// The filter number of row `r` followed by its filtered bytes.
pub open spec fn filtered_line(data: Seq<u8>, stride: int, bpp: int, strategy: FilterStrategy, r: int) -> Seq<u8> {
    let current = image_row(data, stride, r);
    let previous = row_above(data, stride, r);
    let f = row_filter(strategy, current, previous, bpp);
    seq![f] + spec_filter_row(current, previous, bpp, f)
}

/// The first `rows` scanlines, filtered.
pub open spec fn spec_filter_scanlines(
    data: Seq<u8>,
    stride: int,
    bpp: int,
    strategy: FilterStrategy,
    rows: int,
) -> Seq<u8>
    decreases rows,
{
    if rows <= 0 {
        Seq::empty()
    } else {
        spec_filter_scanlines(data, stride, bpp, strategy, rows - 1) + filtered_line(
            data,
            stride,
            bpp,
            strategy,
            rows - 1,
        )
    }
}

proof fn lemma_msad_score_bound(filtered: Seq<u8>)
    ensures
        0 <= msad_score(filtered) <= 128 * filtered.len(),
    decreases filtered.len(),
{
    if filtered.len() > 0 {
        lemma_msad_score_bound(filtered.drop_last());
    }
}

fn msad(filtered: &Vec<u8>) -> (score: u64)
    requires
        filtered.len() * 256 <= u64::MAX,
    ensures
        score == msad_score(filtered@),
{
    let mut score: u64 = 0;
    let mut i: usize = 0;
    while i < filtered.len()
        invariant
            i <= filtered.len(),
            filtered.len() * 256 <= u64::MAX,
            score == msad_score(filtered@.take(i as int)),
        decreases filtered.len() - i,
    {
        let v = filtered[i];
        proof {
            assert(filtered@.take(i + 1).drop_last() =~= filtered@.take(i as int));
            lemma_msad_score_bound(filtered@.take(i as int));
            assert(128 * i + 128 <= filtered.len() * 256) by (nonlinear_arith)
                requires
                    i < filtered.len(),
            ;
        }
        let magnitude: u64 = if v < 128 {
            v as u64
        } else {
            256 - v as u64
        };
        score = score + magnitude;
        i += 1;
    }
    assert(filtered@.take(i as int) =~= filtered@);
    score
}

fn filter_adaptive(current: &[u8], previous: &[u8], bytes_per_pixel: usize) -> (r: (u8, Vec<u8>))
    requires
        previous.len() >= current.len(),
        current.len() * 256 <= u64::MAX,
    ensures
        r.0 == row_filter(FilterStrategy::AdaptiveMsad, current@, previous@, bytes_per_pixel as int),
        r.1@ == spec_filter_row(current@, previous@, bytes_per_pixel as int, r.0),
{
    let ghost scores = filter_scores(current@, previous@, bytes_per_pixel as int);
    let mut best_filter: u8 = 0;
    let mut best = filter_row(current, previous, bytes_per_pixel, 0);
    let mut best_score = msad(&best);
    let mut filter: u8 = 1;
    while filter < 5
        invariant
            1 <= filter <= 5,
            previous.len() >= current.len(),
            current.len() * 256 <= u64::MAX,
            scores == filter_scores(current@, previous@, bytes_per_pixel as int),
            best_filter as int == first_min_index(scores.take(filter as int)),
            best_filter < filter,
            best@ == spec_filter_row(current@, previous@, bytes_per_pixel as int, best_filter),
            best_score == scores[best_filter as int],
        decreases 5 - filter,
    {
        let filtered = filter_row(current, previous, bytes_per_pixel, filter);
        let score = msad(&filtered);
        proof {
            assert(scores.take(filter + 1).drop_last() =~= scores.take(filter as int));
            assert(scores.take(filter as int)[best_filter as int] == scores[best_filter as int]);
        }
        if score < best_score {
            best_filter = filter;
            best = filtered;
            best_score = score;
        }
        filter += 1;
    }
    assert(scores.take(5) =~= scores);
    (best_filter, best)
}

/// Filters every scanline of an image `width` pixels wide and `height`
/// rows tall, each row preceded by its filter number.
pub fn filter_scanlines(
    data: &[u8],
    width: u32,
    height: u32,
    bytes_per_pixel: usize,
    strategy: FilterStrategy,
) -> (output: Vec<u8>)
    requires
        width * bytes_per_pixel < usize::MAX,
        width * bytes_per_pixel * 256 <= u64::MAX,
        (width * bytes_per_pixel + 1) * height <= usize::MAX,
        data.len() >= width * bytes_per_pixel * height,
    ensures
        output@ == spec_filter_scanlines(
            data@,
            width * bytes_per_pixel,
            bytes_per_pixel as int,
            strategy,
            height as int,
        ),
{
    let stride = width as usize * bytes_per_pixel;
    let rows = height as usize;
    assert((stride + 1) * rows <= usize::MAX);
    let mut output: Vec<u8> = Vec::with_capacity((stride + 1) * rows);
    let mut zero_row: Vec<u8> = Vec::new();
    let mut z: usize = 0;
    while z < stride
        invariant
            z <= stride,
            zero_row.len() == z,
            forall|k: int| 0 <= k < z ==> #[trigger] zero_row@[k] == 0u8,
        decreases stride - z,
    {
        zero_row.push(0);
        z += 1;
    }
    assert(zero_row@ =~= row_above(data@, stride as int, 0));
    let mut row: usize = 0;
    while row < rows
        invariant
            row <= rows,
            rows == height,
            stride == width * bytes_per_pixel,
            stride * 256 <= u64::MAX,
            data.len() >= stride * rows,
            zero_row@ == row_above(data@, stride as int, 0),
            output@ == spec_filter_scanlines(data@, stride as int, bytes_per_pixel as int, strategy, row as int),
        decreases rows - row,
    {
        assert((row + 1) * stride <= rows * stride) by (nonlinear_arith)
            requires
                row + 1 <= rows,
        ;
        assert(row * stride + stride == (row + 1) * stride) by (nonlinear_arith);
        let start = row * stride;
        let current = &data[start..start + stride];
        let previous = if row == 0 {
            zero_row.as_slice()
        } else {
            assert((row - 1) * stride + stride == row * stride) by (nonlinear_arith)
                requires
                    row >= 1,
            ;
            &data[start - stride..start]
        };
        assert(current@ == image_row(data@, stride as int, row as int));
        assert(previous@ == row_above(data@, stride as int, row as int));
        let (filter, filtered) = match strategy {
            FilterStrategy::Uniform(f) => (f, filter_row(current, previous, bytes_per_pixel, f)),
            FilterStrategy::AdaptiveMsad => filter_adaptive(current, previous, bytes_per_pixel),
        };
        output.push(filter);
        extend(&mut output, filtered.as_slice());
        proof {
            assert(output@ =~= spec_filter_scanlines(
                data@,
                stride as int,
                bytes_per_pixel as int,
                strategy,
                row + 1,
            ));
        }
        row += 1;
    }
    output
}


// ---------------------------------------------------------------------
// Colour palette.
// ---------------------------------------------------------------------

/// Pixel `i` of an RGBA image as one number whose order is the
/// lexicographic order of its `[r, g, b, a]` bytes.
pub open spec fn pixel_color(rgba: Seq<u8>, i: int) -> u32 {
    (rgba[4 * i] as int * 0x100_0000 + rgba[4 * i + 1] as int * 0x1_0000 + rgba[4 * i + 2] as int
        * 0x100 + rgba[4 * i + 3] as int) as u32
}

/// Colour `c` occurs among the first `n` pixels.
pub open spec fn has_color(rgba: Seq<u8>, n: int, c: u32) -> bool {
    exists|i: int| 0 <= i < n && pixel_color(rgba, i) == c
}

/// Each entry of `p` is larger than the one before.
pub open spec fn strictly_increasing(p: Seq<u32>) -> bool {
    forall|a: int, b: int| 0 <= a < b < p.len() ==> #[trigger] p[a] < #[trigger] p[b]
}

/// `p` lists each colour of the first `n` pixels once, in increasing order.
pub open spec fn is_palette_of(p: Seq<u32>, rgba: Seq<u8>, n: int) -> bool {
    &&& strictly_increasing(p)
    &&& forall|c: u32| #[trigger] p.contains(c) <==> has_color(rgba, n, c)
}

/// The sorted list of the image's distinct colours.
pub open spec fn image_palette(rgba: Seq<u8>, n: int) -> Seq<u32> {
    choose|p: Seq<u32>| is_palette_of(p, rgba, n)
}

/// The image has at most 256 distinct colours, so it is stored indexed.
pub open spec fn uses_palette(rgba: Seq<u8>, n: int) -> bool {
    exists|p: Seq<u32>| is_palette_of(p, rgba, n) && p.len() <= 256
}

proof fn lemma_increasing_unique(p: Seq<u32>, q: Seq<u32>)
    requires
        strictly_increasing(p),
        strictly_increasing(q),
        forall|c: u32| p.contains(c) <==> q.contains(c),
    ensures
        p == q,
    decreases p.len(),
{
    if p.len() == 0 {
        if q.len() > 0 {
            assert(q.contains(q[0]));
        }
        assert(p =~= q);
    } else {
        if q.len() == 0 {
            assert(p.contains(p[0]));
        }
        assert(p.contains(q[0]));
        assert(q.contains(p[0]));
        let i = choose|i: int| 0 <= i < p.len() && p[i] == q[0];
        let j = choose|j: int| 0 <= j < q.len() && q[j] == p[0];
        if i > 0 && j > 0 {
            assert(p[0] < p[i]);
            assert(q[0] < q[j]);
        }
        assert(p[0] == q[0]);
        let tp = p.drop_first();
        let tq = q.drop_first();
        assert forall|c: u32| tp.contains(c) <==> tq.contains(c) by {
            if tp.contains(c) {
                let k = choose|k: int| 0 <= k < tp.len() && tp[k] == c;
                assert(p[k + 1] == c);
                assert(p[0] < p[k + 1]);
                assert(p.contains(c));
                let k2 = choose|k2: int| 0 <= k2 < q.len() && q[k2] == c;
                assert(k2 != 0);
                assert(tq[k2 - 1] == c);
            }
            if tq.contains(c) {
                let k = choose|k: int| 0 <= k < tq.len() && tq[k] == c;
                assert(q[k + 1] == c);
                assert(q[0] < q[k + 1]);
                assert(q.contains(c));
                let k1 = choose|k1: int| 0 <= k1 < p.len() && p[k1] == c;
                assert(k1 != 0);
                assert(tp[k1 - 1] == c);
            }
        }
        assert forall|a: int, b: int| 0 <= a < b < tp.len() implies #[trigger] tp[a] < #[trigger] tp[b] by {
            assert(tp[a] == p[a + 1] && tp[b] == p[b + 1]);
        }
        assert forall|a: int, b: int| 0 <= a < b < tq.len() implies #[trigger] tq[a] < #[trigger] tq[b] by {
            assert(tq[a] == q[a + 1] && tq[b] == q[b + 1]);
        }
        lemma_increasing_unique(tp, tq);
        assert(p =~= seq![p[0]] + tp);
        assert(q =~= seq![q[0]] + tq);
    }
}

proof fn lemma_increasing_no_duplicates(p: Seq<u32>)
    requires
        strictly_increasing(p),
    ensures
        p.no_duplicates(),
{
    assert forall|a: int, b: int| 0 <= a < p.len() && 0 <= b < p.len() && a != b implies p[a] != p[b] by {
        if a < b {
            assert(p[a] < p[b]);
        } else {
            assert(p[b] < p[a]);
        }
    }
}

fn pixel(rgba: &[u8], i: usize) -> (c: u32)
    requires
        4 * i + 3 < rgba.len(),
    ensures
        c == pixel_color(rgba@, i as int),
{
    (rgba[4 * i] as u32) * 0x100_0000 + (rgba[4 * i + 1] as u32) * 0x1_0000 + (rgba[4 * i + 2] as u32)
        * 0x100 + (rgba[4 * i + 3] as u32)
}

/// Where `color` is in the increasing `palette`, or where it would go.
fn find_color(palette: &Vec<u32>, color: u32) -> (r: Result<usize, usize>)
    requires
        strictly_increasing(palette@),
    ensures
        r matches Ok(k) ==> k < palette.len() && palette@[k as int] == color,
        r matches Err(k) ==> k <= palette.len() && !palette@.contains(color) && (forall|a: int|
            0 <= a < k ==> #[trigger] palette@[a] < color) && (forall|a: int|
            k <= a < palette.len() ==> #[trigger] palette@[a] > color),
{
    let mut lo: usize = 0;
    let mut hi: usize = palette.len();
    while lo < hi
        invariant
            lo <= hi <= palette.len(),
            strictly_increasing(palette@),
            forall|a: int| 0 <= a < lo ==> #[trigger] palette@[a] < color,
            forall|a: int| hi <= a < palette.len() ==> #[trigger] palette@[a] > color,
        decreases hi - lo,
    {
        let mid = lo + (hi - lo) / 2;
        let v = palette[mid];
        if v == color {
            return Ok(mid);
        } else if v < color {
            lo = mid + 1;
        } else {
            hi = mid;
        }
    }
    Err(lo)
}

/// The image's distinct colours in increasing order, when there are at
/// most 256 of them.
pub fn collect_palette(rgba: &[u8], pixels: usize) -> (r: Option<Vec<u32>>)
    requires
        rgba.len() == 4 * pixels,
    ensures
        r is Some <==> uses_palette(rgba@, pixels as int),
        r matches Some(p) ==> p@ == image_palette(rgba@, pixels as int) && p.len() <= 256
            && is_palette_of(p@, rgba@, pixels as int),
{
    let mut palette: Vec<u32> = Vec::new();
    let mut i: usize = 0;
    while i < pixels
        invariant
            i <= pixels,
            rgba.len() == 4 * pixels,
            palette.len() <= 256,
            strictly_increasing(palette@),
            forall|c: u32| #[trigger] palette@.contains(c) <==> has_color(rgba@, i as int, c),
        decreases pixels - i,
    {
        let color = pixel(rgba, i);
        let ghost before = palette@;
        match find_color(&palette, color) {
            Ok(_) => {
                assert forall|c: u32| #[trigger] palette@.contains(c) <==> has_color(rgba@, i + 1, c) by {
                    if has_color(rgba@, i + 1, c) {
                        let j = choose|j: int| 0 <= j < i + 1 && pixel_color(rgba@, j) == c;
                        if j < i {
                            assert(has_color(rgba@, i as int, c));
                        }
                    }
                    if palette@.contains(c) {
                        assert(has_color(rgba@, i as int, c));
                        let j = choose|j: int| 0 <= j < i && pixel_color(rgba@, j) == c;
                        assert(0 <= j < i + 1 && pixel_color(rgba@, j) == c);
                    }
                }
            },
            Err(pos) => {
                palette.insert(pos, color);
                let ghost after = palette@;
                assert(after =~= before.insert(pos as int, color));
                assert forall|a: int, b: int| 0 <= a < b < after.len() implies #[trigger] after[a]
                    < #[trigger] after[b] by {
                    if b < pos {
                        assert(after[a] == before[a] && after[b] == before[b]);
                    } else if b == pos {
                        assert(after[a] == before[a]);
                    } else if a == pos {
                        assert(after[b] == before[b - 1]);
                    } else if a < pos {
                        assert(after[a] == before[a] && after[b] == before[b - 1]);
                    } else {
                        assert(after[a] == before[a - 1] && after[b] == before[b - 1]);
                    }
                }
                assert forall|c: u32| #[trigger] after.contains(c) <==> has_color(rgba@, i + 1, c) by {
                    if after.contains(c) {
                        let k = choose|k: int| 0 <= k < after.len() && after[k] == c;
                        if k < pos {
                            assert(before[k] == c);
                            assert(before.contains(c));
                        } else if k > pos {
                            assert(before[k - 1] == c);
                            assert(before.contains(c));
                        }
                        if c != color {
                            assert(has_color(rgba@, i as int, c));
                            let j = choose|j: int| 0 <= j < i && pixel_color(rgba@, j) == c;
                            assert(0 <= j < i + 1 && pixel_color(rgba@, j) == c);
                        } else {
                            assert(pixel_color(rgba@, i as int) == c);
                        }
                    }
                    if has_color(rgba@, i + 1, c) {
                        let j = choose|j: int| 0 <= j < i + 1 && pixel_color(rgba@, j) == c;
                        if j < i {
                            assert(has_color(rgba@, i as int, c));
                            assert(before.contains(c));
                            let k = choose|k: int| 0 <= k < before.len() && before[k] == c;
                            if k < pos {
                                assert(after[k] == c);
                            } else {
                                assert(after[k + 1] == c);
                            }
                        } else {
                            assert(after[pos as int] == c);
                        }
                    }
                }
                if palette.len() > 256 {
                    proof {
                        lemma_too_many_colors(palette@, rgba@, pixels as int);
                    }
                    return None;
                }
            },
        }
        i += 1;
    }
    proof {
        assert(is_palette_of(palette@, rgba@, pixels as int));
        let chosen = image_palette(rgba@, pixels as int);
        assert(is_palette_of(chosen, rgba@, pixels as int));
        lemma_increasing_unique(palette@, chosen);
    }
    Some(palette)
}

proof fn lemma_too_many_colors(q: Seq<u32>, rgba: Seq<u8>, n: int)
    requires
        strictly_increasing(q),
        q.len() > 256,
        forall|c: u32| #[trigger] q.contains(c) ==> has_color(rgba, n, c),
    ensures
        !uses_palette(rgba, n),
{
    if uses_palette(rgba, n) {
        let p = choose|p: Seq<u32>| is_palette_of(p, rgba, n) && p.len() <= 256;
        lemma_increasing_no_duplicates(q);
        q.unique_seq_to_set();
        p.lemma_cardinality_of_set();
        vstd::seq_lib::seq_to_set_is_finite(p);
        assert(q.to_set().subset_of(p.to_set())) by {
            assert forall|c: u32| q.to_set().contains(c) implies p.to_set().contains(c) by {
                assert(q.contains(c));
                assert(p.contains(c));
            }
        }
        vstd::set_lib::lemma_len_subset(q.to_set(), p.to_set());
    }
}


/// The position of colour `c` in palette `p`.
pub open spec fn palette_position(p: Seq<u32>, c: u32) -> int {
    choose|k: int| 0 <= k < p.len() && p[k] == c
}

/// The first `n` pixels as palette positions.
pub open spec fn indexed_pixels(p: Seq<u32>, rgba: Seq<u8>, n: int) -> Seq<u8> {
    Seq::new(n as nat, |i: int| palette_position(p, pixel_color(rgba, i)) as u8)
}

/// The red, green and blue bytes of each palette entry (PLTE data).
pub open spec fn palette_rgb(p: Seq<u32>) -> Seq<u8>
    decreases p.len(),
{
    if p.len() == 0 {
        Seq::empty()
    } else {
        let c = p.last();
        palette_rgb(p.drop_last()) + seq![(c >> 24) as u8, ((c >> 16) & 0xff) as u8, ((c >> 8) & 0xff) as u8]
    }
}

/// The alpha byte of each palette entry (tRNS data).
pub open spec fn palette_alpha(p: Seq<u32>) -> Seq<u8> {
    Seq::new(p.len(), |i: int| (p[i] & 0xff) as u8)
}

fn index_pixels(palette: &Vec<u32>, rgba: &[u8], pixels: usize) -> (raw: Vec<u8>)
    requires
        rgba.len() == 4 * pixels,
        palette.len() <= 256,
        is_palette_of(palette@, rgba@, pixels as int),
    ensures
        raw@ == indexed_pixels(palette@, rgba@, pixels as int),
{
    let mut raw: Vec<u8> = Vec::with_capacity(pixels);
    let mut i: usize = 0;
    proof {
        lemma_increasing_no_duplicates(palette@);
    }
    while i < pixels
        invariant
            i <= pixels,
            rgba.len() == 4 * pixels,
            palette.len() <= 256,
            is_palette_of(palette@, rgba@, pixels as int),
            palette@.no_duplicates(),
            raw.len() == i,
            forall|j: int| 0 <= j < i ==> #[trigger] raw@[j] == indexed_pixels(palette@, rgba@, pixels as int)[j],
        decreases pixels - i,
    {
        let color = pixel(rgba, i);
        assert(has_color(rgba@, pixels as int, color));
        assert(palette@.contains(color));
        match find_color(palette, color) {
            Ok(k) => {
                let ghost chosen = palette_position(palette@, color);
                assert(0 <= chosen < palette.len() && palette@[chosen] == color);
                assert(chosen == k);
                raw.push(k as u8);
            },
            Err(_) => {
                assert(false);
            },
        }
        i += 1;
    }
    assert(raw@ =~= indexed_pixels(palette@, rgba@, pixels as int));
    raw
}

fn palette_chunks(palette: &Vec<u32>) -> (r: (Vec<u8>, Vec<u8>))
    ensures
        r.0@ == palette_rgb(palette@),
        r.1@ == palette_alpha(palette@),
{
    let mut colors: Vec<u8> = Vec::new();
    let mut alpha: Vec<u8> = Vec::new();
    let mut i: usize = 0;
    while i < palette.len()
        invariant
            i <= palette.len(),
            colors@ == palette_rgb(palette@.take(i as int)),
            alpha@ == palette_alpha(palette@.take(i as int)),
        decreases palette.len() - i,
    {
        let c = palette[i];
        proof {
            assert(palette@.take(i + 1).drop_last() =~= palette@.take(i as int));
        }
        colors.push((c >> 24) as u8);
        colors.push(((c >> 16) & 0xff) as u8);
        colors.push(((c >> 8) & 0xff) as u8);
        alpha.push((c & 0xff) as u8);
        proof {
            assert(colors@ =~= palette_rgb(palette@.take(i + 1)));
            assert(alpha@ =~= palette_alpha(palette@.take(i + 1)));
        }
        i += 1;
    }
    assert(palette@.take(i as int) =~= palette@);
    (colors, alpha)
}

// ---------------------------------------------------------------------
// Compression and the whole file.
// ---------------------------------------------------------------------

/// What `miniz_oxide::deflate::compress_to_vec_zlib` makes of `data` at
/// compression `level`.
pub uninterp spec fn miniz_zlib(data: Seq<u8>, level: u8) -> Seq<u8>;

/// What `zopfli::compress` writes for `data` in the zlib format with the
/// given options.
pub uninterp spec fn zopfli_zlib(
    data: Seq<u8>,
    iteration_count: u64,
    iterations_without_improvement: u64,
    maximum_block_splits: u16,
) -> Seq<u8>;

/// Calls `miniz_oxide::deflate::compress_to_vec_zlib`; its output is a
/// function of the data and the level, named `miniz_zlib`.
#[verifier::external_body]
fn deflate_miniz(data: &[u8], level: u8) -> (out: Vec<u8>)
    ensures
        out@ == miniz_zlib(data@, level),
{
    miniz_oxide::deflate::compress_to_vec_zlib(data, level)
}

/// Calls `zopfli::compress` in the zlib format, writing into a `Vec`
/// (which cannot fail); its output is a function of the data and the
/// options, named `zopfli_zlib`.
#[verifier::external_body]
fn deflate_zopfli(
    data: &[u8],
    iteration_count: u64,
    iterations_without_improvement: u64,
    maximum_block_splits: u16,
) -> (out: Vec<u8>)
    requires
        iteration_count > 0,
        iterations_without_improvement > 0,
    ensures
        out@ == zopfli_zlib(data@, iteration_count, iterations_without_improvement, maximum_block_splits),
{
    let options = zopfli::Options {
        iteration_count: std::num::NonZeroU64::new(iteration_count).unwrap(),
        iterations_without_improvement: std::num::NonZeroU64::new(iterations_without_improvement).unwrap(),
        maximum_block_splits,
    };
    let mut output = Vec::new();
    zopfli::compress(options, zopfli::Format::Zlib, data, &mut output).unwrap();
    output
}

/// The compression level of the candidate encodings.
pub const MINIZ_LEVEL: u8 = 9;

/// Zopfli's options, fixed so that a new default cannot change the output.
pub const ZOPFLI_ITERATIONS: u64 = 15;

pub const ZOPFLI_ITERATIONS_WITHOUT_IMPROVEMENT: u64 = 0xffff_ffff_ffff_ffff;

pub const ZOPFLI_MAXIMUM_BLOCK_SPLITS: u16 = 15;

/// The candidate strategies in the order they are tried; `s` of them
/// comes before the ones after it when sizes tie.
pub open spec fn spec_strategy(s: int) -> FilterStrategy {
    if s < 5 {
        FilterStrategy::Uniform(s as u8)
    } else {
        FilterStrategy::AdaptiveMsad
    }
}

fn strategy_at(s: usize) -> (r: FilterStrategy)
    requires
        s < 6,
    ensures
        r == spec_strategy(s as int),
{
    if s < 5 {
        FilterStrategy::Uniform(s as u8)
    } else {
        FilterStrategy::AdaptiveMsad
    }
}

/// The filtered image under candidate strategy `s`.
pub open spec fn candidate(raw: Seq<u8>, width: int, bpp: int, height: int, s: int) -> Seq<u8> {
    spec_filter_scanlines(raw, width * bpp, bpp, spec_strategy(s), height)
}

/// The miniz-compressed size of each candidate.
pub open spec fn candidate_sizes(raw: Seq<u8>, width: int, bpp: int, height: int) -> Seq<int> {
    Seq::new(6, |s: int| miniz_zlib(candidate(raw, width, bpp, height, s), MINIZ_LEVEL).len() as int)
}

/// The candidate whose miniz output is smallest, the earliest on a tie.
pub open spec fn best_candidate(raw: Seq<u8>, width: int, bpp: int, height: int) -> int {
    first_min_index(candidate_sizes(raw, width, bpp, height))
}

/// The eight bytes that open every PNG file.
pub open spec fn png_signature() -> Seq<u8> {
    seq![0x89u8, 0x50, 0x4e, 0x47, 0x0d, 0x0a, 0x1a, 0x0a]
}

/// The chunk tag `IHDR`.
pub open spec fn tag_ihdr() -> Seq<u8> {
    seq![0x49u8, 0x48, 0x44, 0x52]
}

/// The chunk tag `PLTE`.
pub open spec fn tag_plte() -> Seq<u8> {
    seq![0x50u8, 0x4c, 0x54, 0x45]
}

/// The chunk tag `tRNS`.
pub open spec fn tag_trns() -> Seq<u8> {
    seq![0x74u8, 0x52, 0x4e, 0x53]
}

/// The chunk tag `IDAT`.
pub open spec fn tag_idat() -> Seq<u8> {
    seq![0x49u8, 0x44, 0x41, 0x54]
}

/// The chunk tag `IEND`.
pub open spec fn tag_iend() -> Seq<u8> {
    seq![0x49u8, 0x45, 0x4e, 0x44]
}

/// The IHDR data: size, bit depth 8, the colour type, and no
/// compression, filter or interlace variants.
pub open spec fn png_header(width: u32, height: u32, color_type: u8) -> Seq<u8> {
    be32(width) + be32(height) + seq![8u8, color_type, 0, 0, 0]
}

/// The image data as stored: palette positions, or the RGBA bytes.
pub open spec fn stored_pixels(rgba: Seq<u8>, n: int) -> Seq<u8> {
    if uses_palette(rgba, n) {
        indexed_pixels(image_palette(rgba, n), rgba, n)
    } else {
        rgba
    }
}

/// The compressed image data.
pub open spec fn png_idat(width: u32, height: u32, rgba: Seq<u8>, fast: bool) -> Seq<u8> {
    let filtered = filtered_image(width, height, rgba);
    if fast {
        miniz_zlib(filtered, MINIZ_LEVEL)
    } else {
        zopfli_zlib(filtered, ZOPFLI_ITERATIONS, ZOPFLI_ITERATIONS_WITHOUT_IMPROVEMENT, ZOPFLI_MAXIMUM_BLOCK_SPLITS)
    }
}

/// The PNG file of a `width` x `height` RGBA image: indexed colour when
/// the image has at most 256 distinct colours, RGBA otherwise.
pub open spec fn spec_encode(width: u32, height: u32, rgba: Seq<u8>, fast: bool) -> Seq<u8> {
    let n = width * height;
    let indexed = uses_palette(rgba, n);
    let p = image_palette(rgba, n);
    let color_type: u8 = if indexed { 3 } else { 6 };
    png_signature() + png_chunk(tag_ihdr(), png_header(width, height, color_type)) + (if indexed {
        png_chunk(tag_plte(), palette_rgb(p)) + png_chunk(tag_trns(), palette_alpha(p))
    } else {
        Seq::empty()
    }) + png_chunk(tag_idat(), png_idat(width, height, rgba, fast)) + png_chunk(tag_iend(), Seq::empty())
}

/// The filtered image data that goes into the IDAT chunk, before
/// compression: the stored pixels under the candidate strategy whose miniz
/// output is smallest.
pub open spec fn filtered_image(width: u32, height: u32, rgba: Seq<u8>) -> Seq<u8> {
    let n = width * height;
    let bpp: int = if uses_palette(rgba, n) { 1 } else { 4 };
    let raw = stored_pixels(rgba, n);
    candidate(raw, width as int, bpp, height as int, best_candidate(raw, width as int, bpp, height as int))
}

/// The chunks before the image data: the signature, IHDR, and PLTE with
/// tRNS when the image is indexed.
pub open spec fn png_head(width: u32, height: u32, rgba: Seq<u8>) -> Seq<u8> {
    let n = width * height;
    let indexed = uses_palette(rgba, n);
    let p = image_palette(rgba, n);
    let color_type: u8 = if indexed { 3 } else { 6 };
    png_signature() + png_chunk(tag_ihdr(), png_header(width, height, color_type)) + (if indexed {
        png_chunk(tag_plte(), palette_rgb(p)) + png_chunk(tag_trns(), palette_alpha(p))
    } else {
        Seq::empty()
    })
}

/// The fast and the thorough encoding of an image differ only in the
/// compressor: both are the same head (signature, IHDR, palette chunks),
/// then an IDAT chunk of the same filtered data, compressed by miniz or by
/// Zopfli, then IEND. The head holds at least the 33 bytes up to the end of
/// IHDR.
pub proof fn lemma_fast_changes_only_compression(width: u32, height: u32, rgba: Seq<u8>)
    ensures
        spec_encode(width, height, rgba, true) == png_head(width, height, rgba) + png_chunk(
            tag_idat(),
            miniz_zlib(filtered_image(width, height, rgba), MINIZ_LEVEL),
        ) + png_chunk(tag_iend(), Seq::empty()),
        spec_encode(width, height, rgba, false) == png_head(width, height, rgba) + png_chunk(
            tag_idat(),
            zopfli_zlib(
                filtered_image(width, height, rgba),
                ZOPFLI_ITERATIONS,
                ZOPFLI_ITERATIONS_WITHOUT_IMPROVEMENT,
                ZOPFLI_MAXIMUM_BLOCK_SPLITS,
            ),
        ) + png_chunk(tag_iend(), Seq::empty()),
        png_head(width, height, rgba).len() >= 33,
{
    let n = width * height;
    let color_type: u8 = if uses_palette(rgba, n) { 3 } else { 6 };
    assert(png_chunk(tag_ihdr(), png_header(width, height, color_type)).len() == 25);
}

// ---------------------------------------------------------------------
// Reading the image data back.
// ---------------------------------------------------------------------

/// The byte whose filtered value under `filter` is `stored`, given its
/// neighbours: the filter's prediction added back, modulo 256.
pub open spec fn unfilter_byte(filter: u8, stored: u8, left: int, above: int, upper_left: int) -> u8 {
    ((stored as int + filter_prediction(filter, left, above, upper_left)) % 256) as u8
}

/// The first `n` bytes of a row rebuilt from its `filtered` bytes, the
/// rebuilt row above and its filter number; each byte's left neighbours
/// are the bytes rebuilt before it.
pub open spec fn unfilter_prefix(filtered: Seq<u8>, previous: Seq<u8>, bpp: int, filter: u8, n: int) -> Seq<u8>
    decreases n,
{
    if n <= 0 {
        Seq::empty()
    } else {
        let done = unfilter_prefix(filtered, previous, bpp, filter, n - 1);
        let i = n - 1;
        done.push(
            unfilter_byte(
                filter,
                filtered[i],
                if i >= bpp { done[i - bpp] as int } else { 0 },
                previous[i] as int,
                if i >= bpp { previous[i - bpp] as int } else { 0 },
            ),
        )
    }
}

/// A row rebuilt from its filtered bytes.
pub open spec fn unfilter_row(filtered: Seq<u8>, previous: Seq<u8>, bpp: int, filter: u8) -> Seq<u8> {
    unfilter_prefix(filtered, previous, bpp, filter, filtered.len() as int)
}

/// The first `rows` rows rebuilt from filtered scanlines, each a filter
/// number followed by `stride` filtered bytes; the row above the first is
/// zeros.
pub open spec fn unfilter_scanlines(filtered: Seq<u8>, stride: int, bpp: int, rows: int) -> Seq<u8>
    decreases rows,
{
    if rows <= 0 {
        Seq::empty()
    } else {
        let done = unfilter_scanlines(filtered, stride, bpp, rows - 1);
        let r = rows - 1;
        let line = filtered.subrange(r * (stride + 1), (r + 1) * (stride + 1));
        let previous = if r == 0 {
            Seq::new(stride as nat, |i: int| 0u8)
        } else {
            done.subrange((r - 1) * stride, r * stride)
        };
        done + unfilter_row(line.drop_first(), previous, bpp, line[0])
    }
}

proof fn lemma_undo_difference(value: int, prediction: int)
    requires
        0 <= value < 256,
    ensures
        ((((value - prediction) % 256) as u8) as int + prediction) % 256 == value,
{
    let d = value - prediction;
    vstd::arithmetic::div_mod::lemma_fundamental_div_mod(d, 256);
    let q = d / 256;
    let r = d % 256;
    vstd::arithmetic::div_mod::lemma_fundamental_div_mod_converse(r + prediction, 256, -q, value);
}

/// Unfiltering a filtered row gives the row back.
pub proof fn lemma_unfilter_row(current: Seq<u8>, previous: Seq<u8>, bpp: int, filter: u8)
    requires
        bpp >= 1,
        previous.len() >= current.len(),
    ensures
        unfilter_row(spec_filter_row(current, previous, bpp, filter), previous, bpp, filter) == current,
{
    let filtered = spec_filter_row(current, previous, bpp, filter);
    lemma_unfilter_prefix(current, previous, bpp, filter, current.len() as int);
    assert(current.take(current.len() as int) =~= current);
}

proof fn lemma_unfilter_prefix(current: Seq<u8>, previous: Seq<u8>, bpp: int, filter: u8, n: int)
    requires
        bpp >= 1,
        previous.len() >= current.len(),
        0 <= n <= current.len(),
    ensures
        unfilter_prefix(spec_filter_row(current, previous, bpp, filter), previous, bpp, filter, n) == current.take(n),
    decreases n,
{
    let filtered = spec_filter_row(current, previous, bpp, filter);
    if n > 0 {
        lemma_unfilter_prefix(current, previous, bpp, filter, n - 1);
        let i = n - 1;
        let done = unfilter_prefix(filtered, previous, bpp, filter, n - 1);
        let left: int = if i >= bpp { current[i - bpp] as int } else { 0 };
        let upper_left: int = if i >= bpp { previous[i - bpp] as int } else { 0 };
        if i >= bpp {
            assert(done[i - bpp] == current[i - bpp]);
        }
        lemma_undo_difference(current[i] as int, filter_prediction(filter, left, previous[i] as int, upper_left));
        assert(unfilter_prefix(filtered, previous, bpp, filter, n) =~= current.take(n));
    } else {
        assert(current.take(0) =~= Seq::<u8>::empty());
    }
}

proof fn lemma_filter_scanlines_shape(data: Seq<u8>, stride: int, bpp: int, strategy: FilterStrategy, rows: int)
    requires
        0 <= stride,
        0 <= rows,
        stride * rows <= data.len(),
    ensures
        spec_filter_scanlines(data, stride, bpp, strategy, rows).len() == rows * (stride + 1),
        forall|k: int|
            0 <= k <= rows ==> #[trigger] spec_filter_scanlines(data, stride, bpp, strategy, rows).subrange(
                0,
                k * (stride + 1),
            ) == spec_filter_scanlines(data, stride, bpp, strategy, k),
    decreases rows,
{
    let all = spec_filter_scanlines(data, stride, bpp, strategy, rows);
    if rows > 0 {
        assert(stride * (rows - 1) <= stride * rows) by (nonlinear_arith)
            requires
                0 <= stride,
                1 <= rows,
        ;
        lemma_filter_scanlines_shape(data, stride, bpp, strategy, rows - 1);
        let before = spec_filter_scanlines(data, stride, bpp, strategy, rows - 1);
        assert(rows * stride == (rows - 1) * stride + stride) by (nonlinear_arith);
        assert(stride * rows == rows * stride) by (nonlinear_arith);
        assert(filtered_line(data, stride, bpp, strategy, rows - 1).len() == stride + 1);
        assert((rows - 1) * (stride + 1) + stride + 1 == rows * (stride + 1)) by (nonlinear_arith);
        assert forall|k: int| 0 <= k <= rows implies #[trigger] all.subrange(0, k * (stride + 1))
            == spec_filter_scanlines(data, stride, bpp, strategy, k) by {
            if k < rows {
                assert(k * (stride + 1) <= (rows - 1) * (stride + 1)) by (nonlinear_arith)
                    requires
                        k <= rows - 1,
                        0 <= stride,
                ;
                assert(all.subrange(0, k * (stride + 1)) =~= before.subrange(0, k * (stride + 1)));
            } else {
                assert(all.subrange(0, k * (stride + 1)) =~= all);
            }
        }
    } else {
        assert(all.subrange(0, 0) =~= all);
    }
}

/// Each scanline of a filtered image is a filter number followed by row
/// `r` of the image filtered with that number against the row above it, a
/// row of zeros above the first; a uniform strategy puts its own number on
/// every line.
pub proof fn lemma_scanlines_filter_rows(data: Seq<u8>, stride: int, bpp: int, strategy: FilterStrategy, rows: int)
    requires
        0 <= stride,
        0 <= rows,
        stride * rows <= data.len(),
    ensures
        spec_filter_scanlines(data, stride, bpp, strategy, rows).len() == rows * (stride + 1),
        forall|r: int|
            0 <= r < rows ==> {
                let line = #[trigger] spec_filter_scanlines(data, stride, bpp, strategy, rows).subrange(
                    r * (stride + 1),
                    (r + 1) * (stride + 1),
                );
                let above = if r == 0 {
                    Seq::new(stride as nat, |i: int| 0u8)
                } else {
                    data.subrange((r - 1) * stride, r * stride)
                };
                &&& line == seq![line[0]] + spec_filter_row(
                    data.subrange(r * stride, (r + 1) * stride),
                    above,
                    bpp,
                    line[0],
                )
                &&& (strategy matches FilterStrategy::Uniform(f) ==> line[0] == f)
            },
{
    lemma_filter_scanlines_shape(data, stride, bpp, strategy, rows);
    let all = spec_filter_scanlines(data, stride, bpp, strategy, rows);
    assert forall|r: int| 0 <= r < rows implies {
        let line = #[trigger] all.subrange(r * (stride + 1), (r + 1) * (stride + 1));
        let above = if r == 0 {
            Seq::new(stride as nat, |i: int| 0u8)
        } else {
            data.subrange((r - 1) * stride, r * stride)
        };
        &&& line == seq![line[0]] + spec_filter_row(data.subrange(r * stride, (r + 1) * stride), above, bpp, line[0])
        &&& (strategy matches FilterStrategy::Uniform(f) ==> line[0] == f)
    } by {
        let k = r + 1;
        assert(stride * k <= stride * rows && stride * r <= stride * k) by (nonlinear_arith)
            requires
                0 <= stride,
                k <= rows,
                r == k - 1,
        ;
        assert(stride * r == r * stride && stride * k == r * stride + stride) by (nonlinear_arith)
            requires
                r == k - 1,
        ;
        assert(r * (stride + 1) + stride + 1 == k * (stride + 1)) by (nonlinear_arith)
            requires
                r == k - 1,
        ;
        assert(0 <= r * (stride + 1)) by (nonlinear_arith)
            requires
                0 <= r,
                0 <= stride,
        ;
        assert(k * (stride + 1) <= rows * (stride + 1)) by (nonlinear_arith)
            requires
                k <= rows,
                0 <= stride,
        ;
        lemma_filter_scanlines_shape(data, stride, bpp, strategy, k);
        lemma_filter_scanlines_shape(data, stride, bpp, strategy, r);
        let upto = spec_filter_scanlines(data, stride, bpp, strategy, k);
        assert(all.subrange(0, k * (stride + 1)) == upto);
        let line = all.subrange(r * (stride + 1), (r + 1) * (stride + 1));
        assert(line =~= filtered_line(data, stride, bpp, strategy, r)) by {
            assert(line =~= upto.subrange(r * (stride + 1), k * (stride + 1)));
            assert(upto == spec_filter_scanlines(data, stride, bpp, strategy, r) + filtered_line(
                data,
                stride,
                bpp,
                strategy,
                r,
            ));
        }
        if r > 0 {
            assert((r - 1) * stride + stride == r * stride) by (nonlinear_arith);
            assert(0 <= (r - 1) * stride) by (nonlinear_arith)
                requires
                    1 <= r,
                    0 <= stride,
            ;
        }
        let above = if r == 0 {
            Seq::new(stride as nat, |i: int| 0u8)
        } else {
            data.subrange((r - 1) * stride, r * stride)
        };
        assert(above =~= row_above(data, stride, r));
        assert(data.subrange(r * stride, (r + 1) * stride) =~= image_row(data, stride, r));
    }
}

proof fn lemma_unfilter_scanlines_prefix(data: Seq<u8>, stride: int, bpp: int, strategy: FilterStrategy, rows: int, k: int)
    requires
        0 <= stride,
        bpp >= 1,
        0 <= k <= rows,
        stride * rows <= data.len(),
    ensures
        unfilter_scanlines(spec_filter_scanlines(data, stride, bpp, strategy, rows), stride, bpp, k) == data.take(
            stride * k,
        ),
    decreases k,
{
    let all = spec_filter_scanlines(data, stride, bpp, strategy, rows);
    if k > 0 {
        lemma_unfilter_scanlines_prefix(data, stride, bpp, strategy, rows, k - 1);
        let r = k - 1;
        let done = data.take(stride * r);
        assert(stride * k <= stride * rows && stride * r <= stride * k) by (nonlinear_arith)
            requires
                0 <= stride,
                k <= rows,
                r == k - 1,
        ;
        lemma_filter_scanlines_shape(data, stride, bpp, strategy, rows);
        lemma_filter_scanlines_shape(data, stride, bpp, strategy, k);
        assert(stride * r == r * stride && stride * k == r * stride + stride) by (nonlinear_arith)
            requires
                r == k - 1,
        ;
        assert(r * (stride + 1) + stride + 1 == k * (stride + 1)) by (nonlinear_arith)
            requires
                r == k - 1,
        ;
        assert(0 <= r * (stride + 1)) by (nonlinear_arith)
            requires
                0 <= r,
                0 <= stride,
        ;
        let upto = spec_filter_scanlines(data, stride, bpp, strategy, k);
        assert(all.subrange(0, k * (stride + 1)) == upto);
        assert((r + 1) * (stride + 1) == k * (stride + 1) && k * (stride + 1) <= rows * (stride + 1)) by (nonlinear_arith)
            requires
                r == k - 1,
                k <= rows,
                0 <= stride,
        ;
        let line = all.subrange(r * (stride + 1), (r + 1) * (stride + 1));
        assert(stride * r <= data.len());
        lemma_filter_scanlines_shape(data, stride, bpp, strategy, r);
        assert(line =~= filtered_line(data, stride, bpp, strategy, r)) by {
            assert(line =~= upto.subrange(r * (stride + 1), k * (stride + 1)));
            assert(upto == spec_filter_scanlines(data, stride, bpp, strategy, r) + filtered_line(data, stride, bpp, strategy, r));
        }
        let current = image_row(data, stride, r);
        let previous = row_above(data, stride, r);
        let f = row_filter(strategy, current, previous, bpp);
        assert(line.drop_first() =~= spec_filter_row(current, previous, bpp, f));
        assert(line[0] == f);
        let rebuilt_previous = if r == 0 {
            Seq::new(stride as nat, |i: int| 0u8)
        } else {
            done.subrange((r - 1) * stride, r * stride)
        };
        if r > 0 {
            assert((r - 1) * stride + stride == r * stride) by (nonlinear_arith);
            assert(0 <= (r - 1) * stride) by (nonlinear_arith)
                requires
                    1 <= r,
                    0 <= stride,
            ;
            assert(rebuilt_previous =~= previous);
        } else {
            assert(rebuilt_previous =~= previous);
        }
        lemma_unfilter_row(current, previous, bpp, f);
        assert(unfilter_row(line.drop_first(), rebuilt_previous, bpp, line[0]) == current);
        assert(unfilter_scanlines(all, stride, bpp, k) == done + unfilter_row(line.drop_first(), rebuilt_previous, bpp, line[0]));
        assert((r + 1) * stride == stride * k) by (nonlinear_arith)
            requires
                r == k - 1,
        ;
        assert(done + current =~= data.take(stride * k));
    } else {
        assert(stride * k == 0) by (nonlinear_arith)
            requires
                k == 0,
        ;
        assert(data.take(0) =~= Seq::<u8>::empty());
    }
}

/// Unfiltering the filtered scanlines of an image gives its rows back.
pub proof fn lemma_unfilter_scanlines(data: Seq<u8>, stride: int, bpp: int, strategy: FilterStrategy, rows: int)
    requires
        0 <= stride,
        bpp >= 1,
        0 <= rows,
        stride * rows <= data.len(),
    ensures
        unfilter_scanlines(spec_filter_scanlines(data, stride, bpp, strategy, rows), stride, bpp, rows) == data.take(
            stride * rows,
        ),
{
    lemma_unfilter_scanlines_prefix(data, stride, bpp, strategy, rows, rows);
}

/// The RGBA bytes a decoder reads for the stored pixels `raw`: with a
/// palette, each palette position looked up in the PLTE and tRNS data of
/// `p`; without one, the RGBA bytes themselves.
pub open spec fn expanded_pixels(raw: Seq<u8>, indexed: bool, p: Seq<u32>) -> Seq<u8> {
    if indexed {
        Seq::new(
            raw.len() * 4,
            |k: int|
                {
                    let j = raw[k / 4] as int;
                    if k % 4 < 3 {
                        palette_rgb(p)[3 * j + k % 4]
                    } else {
                        palette_alpha(p)[j]
                    }
                },
        )
    } else {
        raw
    }
}

/// What a decoder rebuilds from a PNG's inflated image data, given the
/// size, whether the file is indexed and its palette: the scanlines
/// unfiltered, then the palette positions looked up.
pub open spec fn decoded_rgba(width: u32, height: u32, indexed: bool, p: Seq<u32>, inflated: Seq<u8>) -> Seq<u8> {
    let bpp: int = if indexed { 1 } else { 4 };
    expanded_pixels(unfilter_scanlines(inflated, width * bpp, bpp, height as int), indexed, p)
}

proof fn lemma_color_bytes(r: u8, g: u8, b: u8, a: u8, c: u32)
    requires
        c == r as int * 0x100_0000 + g as int * 0x1_0000 + b as int * 0x100 + a as int,
    ensures
        (c >> 24) as u8 == r,
        ((c >> 16) & 0xff) as u8 == g,
        ((c >> 8) & 0xff) as u8 == b,
        (c & 0xff) as u8 == a,
{
    assert(c == (r as u32) * 0x100_0000u32 + (g as u32) * 0x1_0000u32 + (b as u32) * 0x100u32 + (a as u32));
    assert(((c >> 24) as u8 == r && ((c >> 16) & 0xff) as u8 == g && ((c >> 8) & 0xff) as u8 == b && (c & 0xff) as u8
        == a)) by (bit_vector)
        requires
            c == (r as u32) * 0x100_0000u32 + (g as u32) * 0x1_0000u32 + (b as u32) * 0x100u32 + (a as u32),
    ;
}

proof fn lemma_palette_rgb_len(p: Seq<u32>)
    ensures
        palette_rgb(p).len() == 3 * p.len(),
    decreases p.len(),
{
    if p.len() > 0 {
        lemma_palette_rgb_len(p.drop_last());
    }
}

proof fn lemma_palette_rgb(p: Seq<u32>, j: int, t: int)
    requires
        0 <= j < p.len(),
        0 <= t < 3,
    ensures
        palette_rgb(p)[3 * j + t] == (if t == 0 {
            (p[j] >> 24) as u8
        } else if t == 1 {
            ((p[j] >> 16) & 0xff) as u8
        } else {
            ((p[j] >> 8) & 0xff) as u8
        }),
    decreases p.len(),
{
    let q = p.drop_last();
    let c = p.last();
    lemma_palette_rgb_len(q);
    let tail = seq![(c >> 24) as u8, ((c >> 16) & 0xff) as u8, ((c >> 8) & 0xff) as u8];
    assert(palette_rgb(p) == palette_rgb(q) + tail);
    if j < p.len() - 1 {
        lemma_palette_rgb(q, j, t);
        assert(q[j] == p[j]);
        assert(palette_rgb(p)[3 * j + t] == palette_rgb(q)[3 * j + t]);
    } else {
        assert(palette_rgb(p)[3 * j + t] == tail[t]);
    }
}

/// Looking the palette positions up in the palette gives the image's
/// RGBA bytes back, and so do RGBA bytes stored as they are.
pub proof fn lemma_palette_round_trip(rgba: Seq<u8>, n: int)
    requires
        0 <= n,
        rgba.len() == 4 * n,
    ensures
        expanded_pixels(stored_pixels(rgba, n), uses_palette(rgba, n), image_palette(rgba, n)) == rgba,
{
    if uses_palette(rgba, n) {
        let q = choose|q: Seq<u32>| is_palette_of(q, rgba, n) && q.len() <= 256;
        let p = image_palette(rgba, n);
        assert(is_palette_of(p, rgba, n));
        lemma_increasing_unique(p, q);
        let raw = stored_pixels(rgba, n);
        let out = expanded_pixels(raw, true, p);
        assert forall|k: int| 0 <= k < rgba.len() implies #[trigger] out[k] == rgba[k] by {
            let i = k / 4;
            let t = k % 4;
            assert(0 <= i < n && k == 4 * i + t);
            let c = pixel_color(rgba, i);
            assert(has_color(rgba, n, c));
            assert(p.contains(c));
            let j = palette_position(p, c);
            assert(0 <= j < p.len() && p[j] == c);
            assert(raw[i] == j as u8);
            assert(c == rgba[4 * i] as int * 0x100_0000 + rgba[4 * i + 1] as int * 0x1_0000 + rgba[4 * i + 2] as int
                * 0x100 + rgba[4 * i + 3] as int);
            lemma_color_bytes(rgba[4 * i], rgba[4 * i + 1], rgba[4 * i + 2], rgba[4 * i + 3], c);
            if t < 3 {
                lemma_palette_rgb(p, j, t);
            }
        }
        assert(out =~= rgba);
    }
}

/// The library's part of reading back a PNG that `encode` writes: the
/// IDAT data inflates to `filtered_image` (what the compressors are given),
/// and a decoder that knows the size, the colour type and the PLTE/tRNS
/// palette rebuilds exactly the RGBA bytes the file was made of.
pub proof fn lemma_png_round_trip(width: u32, height: u32, rgba: Seq<u8>)
    requires
        encodable(width, height, rgba),
    ensures
        decoded_rgba(
            width,
            height,
            uses_palette(rgba, width * height),
            image_palette(rgba, width * height),
            filtered_image(width, height, rgba),
        ) == rgba,
{
    let n = width * height;
    let indexed = uses_palette(rgba, n);
    let bpp: int = if indexed { 1 } else { 4 };
    let raw = stored_pixels(rgba, n);
    let s = best_candidate(raw, width as int, bpp, height as int);
    assert(4 * width * height == 4 * n) by (nonlinear_arith)
        requires
            n == width * height,
    ;
    assert(width * bpp * height == bpp * n) by (nonlinear_arith)
        requires
            n == width * height,
    ;
    assert(0 <= n) by (nonlinear_arith)
        requires
            n == width * height,
    ;
    assert(raw.len() == bpp * n);
    assert(0 <= width * bpp) by (nonlinear_arith)
        requires
            bpp >= 1,
    ;
    lemma_unfilter_scanlines(raw, width * bpp, bpp, spec_strategy(s), height as int);
    assert(raw.take(width * bpp * height) =~= raw);
    lemma_palette_round_trip(rgba, n);
}

/// The image sizes the encoder handles without overflow.
pub open spec fn encodable(width: u32, height: u32, rgba: Seq<u8>) -> bool {
    &&& rgba.len() == 4 * width * height
    &&& 4 * width < usize::MAX
    &&& 4 * width * 256 <= u64::MAX
    &&& (4 * width + 1) * height <= usize::MAX
}

fn filter_and_compress(raw: &Vec<u8>, width: u32, height: u32, bpp: usize) -> (r: (Vec<u8>, Vec<u8>))
    requires
        bpp == 1 || bpp == 4,
        raw.len() == bpp * width * height,
        4 * width < usize::MAX,
        4 * width * 256 <= u64::MAX,
        (4 * width + 1) * height <= usize::MAX,
    ensures
        r.0@ == candidate(raw@, width as int, bpp as int, height as int, best_candidate(raw@, width as int, bpp as int, height as int)),
        r.1@ == miniz_zlib(r.0@, MINIZ_LEVEL),
{
    let ghost sizes = candidate_sizes(raw@, width as int, bpp as int, height as int);
    assert(width * bpp <= 4 * width) by (nonlinear_arith)
        requires
            bpp <= 4,
    ;
    assert((width * bpp + 1) * height <= (4 * width + 1) * height) by (nonlinear_arith)
        requires
            width * bpp <= 4 * width,
    ;
    assert(width * bpp * height == bpp * width * height) by (nonlinear_arith);
    let mut best_filtered = filter_scanlines(raw.as_slice(), width, height, bpp, strategy_at(0));
    let mut best_compressed = deflate_miniz(best_filtered.as_slice(), MINIZ_LEVEL);
    let mut best: usize = 0;
    let mut s: usize = 1;
    while s < 6
        invariant
            1 <= s <= 6,
            bpp == 1 || bpp == 4,
            raw.len() == bpp * width * height,
            width * bpp < usize::MAX,
            width * bpp * 256 <= u64::MAX,
            (width * bpp + 1) * height <= usize::MAX,
            width * bpp * height == bpp * width * height,
            sizes == candidate_sizes(raw@, width as int, bpp as int, height as int),
            best < s,
            best as int == first_min_index(sizes.take(s as int)),
            best_filtered@ == candidate(raw@, width as int, bpp as int, height as int, best as int),
            best_compressed@ == miniz_zlib(best_filtered@, MINIZ_LEVEL),
        decreases 6 - s,
    {
        let filtered = filter_scanlines(raw.as_slice(), width, height, bpp, strategy_at(s));
        let compressed = deflate_miniz(filtered.as_slice(), MINIZ_LEVEL);
        proof {
            assert(sizes.take(s + 1).drop_last() =~= sizes.take(s as int));
            assert(sizes.take(s as int)[best as int] == sizes[best as int]);
        }
        if compressed.len() < best_compressed.len() {
            best = s;
            best_filtered = filtered;
            best_compressed = compressed;
        }
        s += 1;
    }
    assert(sizes.take(6) =~= sizes);
    (best_filtered, best_compressed)
}

fn stored_image(rgba: &[u8], pixels: usize) -> (r: (Option<Vec<u32>>, Vec<u8>))
    requires
        rgba.len() == 4 * pixels,
    ensures
        r.0 is Some <==> uses_palette(rgba@, pixels as int),
        r.0 matches Some(p) ==> p@ == image_palette(rgba@, pixels as int),
        r.1@ == stored_pixels(rgba@, pixels as int),
{
    let palette = collect_palette(rgba, pixels);
    let mut raw: Vec<u8> = Vec::new();
    match &palette {
        Some(p) => {
            raw = index_pixels(p, rgba, pixels);
        },
        None => {
            extend(&mut raw, rgba);
        },
    }
    (palette, raw)
}

/// The chunks of a PNG file around already compressed image data.
pub open spec fn png_file(width: u32, height: u32, palette: Option<Seq<u32>>, idat: Seq<u8>) -> Seq<u8> {
    let color_type: u8 = if palette is Some { 3 } else { 6 };
    png_signature() + png_chunk(tag_ihdr(), png_header(width, height, color_type)) + (match palette {
        Some(p) => png_chunk(tag_plte(), palette_rgb(p)) + png_chunk(tag_trns(), palette_alpha(p)),
        None => Seq::empty(),
    }) + png_chunk(tag_idat(), idat) + png_chunk(tag_iend(), Seq::empty())
}

/// Writes the PNG file around compressed image data: the signature, the
/// header, the palette and its transparency when there is a palette, the
/// image data, and the end chunk.
pub fn assemble(width: u32, height: u32, palette: &Option<Vec<u32>>, compressed: &Vec<u8>) -> (output: Vec<u8>)
    ensures
        output@ == png_file(
            width,
            height,
            match palette {
                Some(p) => Some(p@),
                None => None,
            },
            compressed@,
        ),
{
    let color_type: u8 = if palette.is_some() { 3 } else { 6 };
    let mut output: Vec<u8> = Vec::new();
    let signature: [u8; 8] = [0x89, 0x50, 0x4e, 0x47, 0x0d, 0x0a, 0x1a, 0x0a];
    extend(&mut output, signature.as_slice());
    let mut header: Vec<u8> = Vec::new();
    push_be32(&mut header, width);
    push_be32(&mut header, height);
    header.push(8);
    header.push(color_type);
    header.push(0);
    header.push(0);
    header.push(0);
    assert(header@ =~= png_header(width, height, color_type));
    let ihdr: [u8; 4] = [0x49, 0x48, 0x44, 0x52];
    push_chunk(&mut output, &ihdr, header.as_slice());
    let ghost after_header = output@;
    match palette {
        Some(p) => {
            let (colors, alpha) = palette_chunks(p);
            let plte: [u8; 4] = [0x50, 0x4c, 0x54, 0x45];
            let trns: [u8; 4] = [0x74, 0x52, 0x4e, 0x53];
            push_chunk(&mut output, &plte, colors.as_slice());
            push_chunk(&mut output, &trns, alpha.as_slice());
            proof {
                assert(plte@ =~= tag_plte());
                assert(trns@ =~= tag_trns());
            }
        },
        None => {},
    }
    let idat: [u8; 4] = [0x49, 0x44, 0x41, 0x54];
    let iend: [u8; 4] = [0x49, 0x45, 0x4e, 0x44];
    let empty: Vec<u8> = Vec::new();
    push_chunk(&mut output, &idat, compressed.as_slice());
    push_chunk(&mut output, &iend, empty.as_slice());
    proof {
        assert(signature@ =~= png_signature());
        assert(ihdr@ =~= tag_ihdr());
        assert(idat@ =~= tag_idat());
        assert(iend@ =~= tag_iend());
        assert(empty@ =~= Seq::<u8>::empty());
    }
    assert(output@ =~= png_file(
        width,
        height,
        match palette {
            Some(p) => Some(p@),
            None => None,
        },
        compressed@,
    ));
    output
}

/// Encodes a `width` x `height` RGBA image as PNG. With `fast`, the
/// smallest miniz candidate is stored; otherwise that candidate's filtered
/// data is recompressed with Zopfli.
pub fn encode(width: u32, height: u32, rgba: &[u8], fast: bool) -> (png: Vec<u8>)
    requires
        encodable(width, height, rgba@),
    ensures
        png@ == spec_encode(width, height, rgba@, fast),
{
    assert(4 * width * height == 4 * (width * height)) by (nonlinear_arith);
    assert(width * height <= 4 * width * height) by (nonlinear_arith);
    assert(rgba@.len() == rgba.len());
    assert(width * height <= usize::MAX);
    let pixels = width as usize * height as usize;
    let ghost n = width * height;
    let (palette, raw) = stored_image(rgba, pixels);
    let bpp: usize = if palette.is_some() { 1 } else { 4 };
    assert(raw.len() == bpp * width * height) by (nonlinear_arith)
        requires
            bpp == 1 ==> raw.len() == width * height,
            bpp == 4 ==> raw.len() == 4 * width * height,
            bpp == 1 || bpp == 4,
    ;
    let (filtered, miniz_compressed) = filter_and_compress(&raw, width, height, bpp);
    let compressed = if fast {
        miniz_compressed
    } else {
        deflate_zopfli(
            filtered.as_slice(),
            ZOPFLI_ITERATIONS,
            ZOPFLI_ITERATIONS_WITHOUT_IMPROVEMENT,
            ZOPFLI_MAXIMUM_BLOCK_SPLITS,
        )
    };
    assert(compressed@ == png_idat(width, height, rgba@, fast));
    let output = assemble(width, height, &palette, &compressed);
    assert(output@ =~= spec_encode(width, height, rgba@, fast));
    output
}

} // verus!
