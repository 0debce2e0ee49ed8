//! Assembling the grayscale raster from per-pixel escape results.
//!
//! The escape-time evaluation itself is floating-point work that lives with
//! the caller; this module takes its results — `None` for a point that never
//! escaped within the iteration budget, `Some(i)` for a point that escaped at
//! iteration `i` — in row-major order and turns them into intensity bytes.

use vstd::prelude::*;

verus! {

/// Intensity of one pixel. A point that never escaped renders black (0); a
/// point that escaped at iteration `c` renders `255 - min(c, 255)`, so early
/// escapes are bright and slow escapes darken toward black.
pub open spec fn intensity_spec(e: Option<u32>) -> u8 {
    match e {
        Option::None => 0u8,
        Option::Some(c) => if c >= 255 {
            0u8
        } else {
            (255 - c) as u8
        },
    }
}

/// The whole raster: one intensity byte per escape result, same order.
pub open spec fn render_spec(escapes: Seq<Option<u32>>) -> Seq<u8> {
    escapes.map_values(|e: Option<u32>| intensity_spec(e))
}

pub fn intensity(e: Option<u32>) -> (b: u8)
    ensures
        b == intensity_spec(e),
{
    match e {
        None => 0,
        Some(c) => if c >= 255 {
            0
        } else {
            (255 - c) as u8
        },
    }
}

/// Fill the pixel buffer from the escape results, walking the raster row by
/// row and column by column exactly as the buffer is laid out: the byte at
/// `row * width + column` comes from the escape result at that same index.
pub fn render(pixels: &mut Vec<u8>, escapes: &Vec<Option<u32>>, width: usize, height: usize)
    requires
        old(pixels).len() == width * height,
        escapes.len() == width * height,
    ensures
        final(pixels)@ == render_spec(escapes@),
{
    let mut row: usize = 0;
    while row < height
        invariant
            pixels.len() == width * height,
            escapes.len() == width * height,
            row <= height,
            forall|i: int|
                0 <= i < row * width ==> pixels@[i] == intensity_spec(escapes@[i]),
        decreases height - row,
    {
        let mut column: usize = 0;
        while column < width
            invariant
                pixels.len() == width * height,
                escapes.len() == width * height,
                row < height,
                column <= width,
                forall|i: int|
                    0 <= i < row * width + column ==> pixels@[i] == intensity_spec(escapes@[i]),
            decreases width - column,
        {
            proof {
                assert(row * width + column < height * width) by (nonlinear_arith)
                    requires
                        row < height,
                        column < width,
                ;
            }
            let index: usize = row * width + column;
            pixels[index] = intensity(escapes[index]);
            column = column + 1;
        }
        proof {
            assert(row * width + width == (row + 1) * width) by (nonlinear_arith);
        }
        row = row + 1;
    }
    proof {
        assert(height * width == width * height) by (nonlinear_arith);
        assert(pixels@ =~= render_spec(escapes@));
    }
}

/// Rendering of the row band `[row_start, row_end)` alone.
pub open spec fn band_spec(
    escapes: Seq<Option<u32>>,
    width: int,
    row_start: int,
    row_end: int,
) -> Seq<u8> {
    render_spec(escapes.subrange(row_start * width, row_end * width))
}

pub proof fn lemma_render_spec_concat(a: Seq<Option<u32>>, b: Seq<Option<u32>>)
    ensures
        render_spec(a + b) == render_spec(a) + render_spec(b),
{
    assert(render_spec(a + b) =~= render_spec(a) + render_spec(b));
}

/// Render one row band on its own: exactly the bytes that the rows
/// `[row_start, row_end)` contribute to the whole raster.
pub fn render_band(escapes: &Vec<Option<u32>>, width: usize, row_start: usize, row_end: usize) -> (band: Vec<
    u8,
>)
    requires
        row_start <= row_end,
        row_end * width <= escapes.len(),
    ensures
        band@ == band_spec(escapes@, width as int, row_start as int, row_end as int),
{
    proof {
        assert(row_start * width <= row_end * width) by (nonlinear_arith)
            requires
                row_start <= row_end,
                width >= 0,
        ;
    }
    let lo: usize = row_start * width;
    let hi: usize = row_end * width;
    let mut band: Vec<u8> = Vec::new();
    let mut i: usize = lo;
    while i < hi
        invariant
            lo <= i <= hi <= escapes.len(),
            band@.len() == i - lo,
            forall|j: int| lo <= j < i ==> band@[j - lo] == intensity_spec(escapes@[j]),
        decreases hi - i,
    {
        band.push(intensity(escapes[i]));
        i = i + 1;
    }
    proof {
        assert(band@ =~= band_spec(escapes@, width as int, row_start as int, row_end as int));
    }
    band
}

/// Render the raster band by band, `band_rows` rows at a time, laying the
/// bands end to end. The result is pinned to the very same bytes as the
/// sequential `render`: each band writes only its own disjoint row range, so
/// the bands may as well have been computed in parallel.
pub fn render_in_bands(escapes: &Vec<Option<u32>>, width: usize, height: usize, band_rows: usize) -> (pixels: Vec<
    u8,
>)
    requires
        escapes.len() == width * height,
        band_rows >= 1,
    ensures
        pixels@ == render_spec(escapes@),
{
    let mut pixels: Vec<u8> = Vec::new();
    let mut row: usize = 0;
    while row < height
        invariant
            row <= height,
            band_rows >= 1,
            escapes.len() == width * height,
            row * width <= escapes.len(),
            pixels@ == render_spec(escapes@.subrange(0, row * width)),
        decreases height - row,
    {
        let end: usize = if height - row < band_rows {
            height
        } else {
            row + band_rows
        };
        proof {
            assert(end * width <= height * width && row * width <= end * width)
                by (nonlinear_arith)
                requires
                    row <= end <= height,
                    width >= 0,
            ;
            assert(height * width == width * height) by (nonlinear_arith);
        }
        let mut band = render_band(escapes, width, row, end);
        proof {
            let before = escapes@.subrange(0, row * width);
            let mid = escapes@.subrange(row * width, end * width);
            assert(before + mid =~= escapes@.subrange(0, end * width));
            lemma_render_spec_concat(before, mid);
        }
        pixels.append(&mut band);
        row = end;
    }
    proof {
        assert(height * width == width * height) by (nonlinear_arith);
        assert(escapes@.subrange(0, row * width) =~= escapes@);
    }
    pixels
}

/// Bands `[a, b)` and `[b, c)` laid end to end are the band `[a, c)`.
pub proof fn lemma_band_concat(escapes: Seq<Option<u32>>, width: int, a: int, b: int, c: int)
    requires
        width >= 0,
        0 <= a <= b <= c,
        c * width <= escapes.len(),
    ensures
        band_spec(escapes, width, a, b) + band_spec(escapes, width, b, c) == band_spec(
            escapes,
            width,
            a,
            c,
        ),
{
    assert(a * width <= b * width <= c * width) by (nonlinear_arith)
        requires
            0 <= a <= b <= c,
            width >= 0,
    ;
    let first = escapes.subrange(a * width, b * width);
    let second = escapes.subrange(b * width, c * width);
    assert(first + second =~= escapes.subrange(a * width, c * width));
    lemma_render_spec_concat(first, second);
}

/// The general row-partition law: cut the rows at any nondecreasing sequence
/// of cut points running from the top row to the bottom one; rendering every
/// band on its own and laying the bands end to end yields exactly the
/// sequential whole-raster rendering. This is what makes row-parallel
/// rendering safe: each band depends only on its own rows.
pub proof fn lemma_band_partition_equivalence(
    escapes: Seq<Option<u32>>,
    width: int,
    cuts: Seq<int>,
)
    requires
        width >= 0,
        cuts.len() >= 1,
        cuts[0] == 0,
        forall|k1: int, k2: int| 0 <= k1 <= k2 < cuts.len() ==> cuts[k1] <= cuts[k2],
        cuts.last() * width == escapes.len(),
    ensures
        Seq::new(
            (cuts.len() - 1) as nat,
            |k: int| band_spec(escapes, width, cuts[k], cuts[k + 1]),
        ).flatten() == render_spec(escapes),
    decreases cuts.len(),
{
    let bands = Seq::new(
        (cuts.len() - 1) as nat,
        |k: int| band_spec(escapes, width, cuts[k], cuts[k + 1]),
    );
    if cuts.len() == 1 {
        assert(bands.len() == 0);
        assert(bands.flatten() =~= render_spec(escapes));
    } else {
        let n = cuts.len() as int;
        let mid = cuts[n - 2];
        let end = cuts[n - 1];
        assert(0 <= mid <= end);
        assert(mid * width <= end * width) by (nonlinear_arith)
            requires
                0 <= mid <= end,
                width >= 0,
        ;
        assert(0 <= mid * width) by (nonlinear_arith)
            requires
                0 <= mid,
                width >= 0,
        ;
        let prefix = escapes.subrange(0, mid * width);
        let shorter = cuts.drop_last();
        assert(shorter.last() == mid);
        lemma_band_partition_equivalence(prefix, width, shorter);
        let prefix_bands = Seq::new(
            (shorter.len() - 1) as nat,
            |k: int| band_spec(prefix, width, shorter[k], shorter[k + 1]),
        );
        // Each inner band reads the same rows whether it indexes the prefix
        // or the whole sequence.
        assert forall|k: int| 0 <= k < n - 2 implies prefix_bands[k] == bands[k] by {
            assert(0 <= cuts[k] <= cuts[k + 1] <= mid);
            assert(cuts[k] * width <= cuts[k + 1] * width <= mid * width && 0 <= cuts[k] * width)
                by (nonlinear_arith)
                requires
                    0 <= cuts[k] <= cuts[k + 1] <= mid,
                    width >= 0,
            ;
            assert(prefix.subrange(cuts[k] * width, cuts[k + 1] * width) =~= escapes.subrange(
                cuts[k] * width,
                cuts[k + 1] * width,
            ));
        }
        assert(bands =~= prefix_bands.push(band_spec(escapes, width, mid, end)));
        prefix_bands.lemma_flatten_push(band_spec(escapes, width, mid, end));
        assert(render_spec(prefix) == band_spec(escapes, width, 0, mid));
        lemma_band_concat(escapes, width, 0, mid, end);
        assert(escapes.subrange(0, end * width) =~= escapes);
    }
}

/// The determinism law: the rendering is a function of the escape results
/// alone, so two renderings of the same results are byte-for-byte identical
/// — there is no hidden state, randomness or time dependence anywhere in the
/// pipeline.
pub proof fn lemma_render_deterministic(
    escapes: Seq<Option<u32>>,
    first: Seq<u8>,
    second: Seq<u8>,
)
    requires
        first == render_spec(escapes),
        second == render_spec(escapes),
    ensures
        first == second,
{
}

} // verus!
