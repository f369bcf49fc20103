//! The band scheduler: partitions the result buffer into contiguous,
//! non-overlapping row bands, runs the per-band worker over each, and
//! splices the bands back into the caller's buffer.

use vstd::arithmetic::div_mod::{
    lemma_div_nonincreasing, lemma_div_pos_is_pos, lemma_fundamental_div_mod, lemma_mod_bound,
    lemma_multiply_divide_lt,
};
use vstd::prelude::*;

verus! {

/// Why a render refused to run or failed to finish.
#[derive(Copy, Clone, Debug, PartialEq, Eq, Structural)]
pub enum RenderError {
    /// The output buffer does not match the requested geometry, or a bound is zero.
    PreconditionViolation,
    /// A band worker faulted before finishing its rows.
    WorkerFault,
}

/// The entry of the row-major buffer `buf` at pixel (`col`, `row`).
pub open spec fn pixel_at<R>(buf: Seq<R>, width: usize, row: int, col: int) -> R {
    buf[row * width + col]
}

/// Every pixel of `buf` is an admissible output of `eval` at its own
/// (column, row) coordinates, laid out row-major over the given bounds.
pub open spec fn rendered<R, F: Fn(usize, usize) -> R>(
    eval: F,
    width: usize,
    height: usize,
    buf: Seq<R>,
) -> bool {
    &&& buf.len() == width * height
    &&& forall|row: int, col: int|
        0 <= row < height && 0 <= col < width ==> call_ensures(
            eval,
            ((col as usize), (row as usize)),
            #[trigger] pixel_at(buf, width, row, col),
        )
}

/// A pixel's row-major index lies inside the buffer of its bounds.
proof fn lemma_row_major_in_range(width: int, height: int, row: int, col: int)
    requires
        0 <= col < width,
        0 <= row < height,
    ensures
        0 <= row * width + col,
        row * width + col < height * width,
{
    assert(row * width + col < height * width) by (nonlinear_arith)
        requires
            0 <= col < width,
            0 <= row < height,
    ;
    assert(0 <= row * width + col) by (nonlinear_arith)
        requires
            0 <= col,
            0 <= row,
            0 <= width,
    ;
}

/// Compute one band: the `band_height` rows starting at row `top`, each
/// `width` pixels wide, evaluated at their global (column, row) pixel
/// coordinates and returned row-major.
pub fn render_rows<R, F: Fn(usize, usize) -> R>(
    width: usize,
    top: usize,
    band_height: usize,
    eval: F,
) -> (band: Vec<R>)
    requires
        top + band_height <= usize::MAX,
        forall|c: usize, r: usize|
            c < width && top <= r < top + band_height ==> #[trigger] call_requires(eval, (c, r)),
    ensures
        band@.len() == band_height * width,
        forall|row: int, col: int|
            0 <= row < band_height && 0 <= col < width ==> call_ensures(
                eval,
                ((col as usize), ((top + row) as usize)),
                #[trigger] pixel_at(band@, width, row, col),
            ),
{
    let mut band: Vec<R> = Vec::new();
    let mut row: usize = 0;
    while row < band_height
        invariant
            row <= band_height,
            top + band_height <= usize::MAX,
            band@.len() == row * width,
            forall|c: usize, r: usize|
                c < width && top <= r < top + band_height ==> #[trigger] call_requires(
                    eval,
                    (c, r),
                ),
            forall|r: int, c: int|
                0 <= r < row && 0 <= c < width ==> call_ensures(
                    eval,
                    ((c as usize), ((top + r) as usize)),
                    #[trigger] pixel_at(band@, width, r, c),
                ),
        decreases band_height - row,
    {
        let mut col: usize = 0;
        while col < width
            invariant
                col <= width,
                row < band_height,
                top + band_height <= usize::MAX,
                band@.len() == row * width + col,
                forall|c: usize, r: usize|
                    c < width && top <= r < top + band_height ==> #[trigger] call_requires(
                        eval,
                        (c, r),
                    ),
                forall|r: int, c: int|
                    0 <= r < row && 0 <= c < width ==> call_ensures(
                        eval,
                        ((c as usize), ((top + r) as usize)),
                        #[trigger] pixel_at(band@, width, r, c),
                    ),
                forall|c: int|
                    0 <= c < col ==> call_ensures(
                        eval,
                        ((c as usize), ((top + row) as usize)),
                        #[trigger] pixel_at(band@, width, row as int, c),
                    ),
            decreases width - col,
        {
            let ghost prev = band@;
            let v = eval(col, top + row);
            band.push(v);
            proof {
                assert forall|r: int, c: int|
                    0 <= r < row && 0 <= c < width implies call_ensures(
                    eval,
                    ((c as usize), ((top + r) as usize)),
                    #[trigger] pixel_at(band@, width, r, c),
                ) by {
                    lemma_row_major_in_range(width as int, row as int, r, c);
                    assert(r * width + c < row * width);
                    assert(pixel_at(band@, width, r, c) == pixel_at(prev, width, r, c));
                }
                assert forall|c: int| 0 <= c < col + 1 implies call_ensures(
                    eval,
                    ((c as usize), ((top + row) as usize)),
                    #[trigger] pixel_at(band@, width, row as int, c),
                ) by {
                    lemma_row_major_in_range(width as int, (row + 1) as int, row as int, c);
                    if c < col {
                        assert(pixel_at(band@, width, row as int, c) == pixel_at(
                            prev,
                            width,
                            row as int,
                            c,
                        ));
                    } else {
                        assert(pixel_at(band@, width, row as int, c) == v);
                    }
                }
            }
            col = col + 1;
        }
        proof {
            assert(row * width + width == (row + 1) * width) by (nonlinear_arith);
        }
        row = row + 1;
    }
    band
}

/// An earlier pixel's row-major index stays below a later row's start.
proof fn lemma_row_major_lt(width: int, row: int, col: int, later_row: int)
    requires
        0 <= col < width,
        0 <= row < later_row,
    ensures
        row * width + col < later_row * width,
{
    assert(row * width + col < later_row * width) by (nonlinear_arith)
        requires
            0 <= col < width,
            0 <= row < later_row,
    ;
}

/// Rows in each band: the image height divided by the band count,
/// rounded up, so that `bands` bands of this height cover every row and
/// one fewer band would not.
pub fn rows_per_band(height: usize, bands: usize) -> (r: usize)
    requires
        height >= 1,
        bands >= 1,
    ensures
        r >= 1,
        height <= r * bands,
        (r - 1) * bands < height,
{
    let q = (height - 1) / bands;
    proof {
        lemma_fundamental_div_mod((height - 1) as int, bands as int);
        lemma_mod_bound((height - 1) as int, bands as int);
        lemma_div_pos_is_pos((height - 1) as int, bands as int);
        lemma_div_nonincreasing((height - 1) as int, bands as int);
        let h = height as int;
        let b = bands as int;
        let qq = (h - 1) / b;
        let rem = (h - 1) % b;
        assert(h - 1 == b * qq + rem);
        assert((qq + 1) * b == b * qq + b) by (nonlinear_arith);
        assert(qq * b == b * qq) by (nonlinear_arith);
    }
    q + 1
}

/// Render the image into `out`: check the geometry against the buffer,
/// split the rows into at most `bands` contiguous bands of equal height
/// (the last may be shorter), run the band worker over each, and splice
/// its rows back. The buffer is rewritten exactly when `Ok` comes back;
/// on an error — a zero bound or band count, or a buffer whose length is
/// not width times height — it is left untouched.
pub fn render<R: Copy, F: Fn(usize, usize) -> R + Copy>(
    out: &mut Vec<R>,
    bounds: (usize, usize),
    bands: usize,
    eval: F,
) -> (res: Result<(), RenderError>)
    requires
        forall|c: usize, r: usize|
            c < bounds.0 && r < bounds.1 ==> #[trigger] call_requires(eval, (c, r)),
    ensures
        match res {
            Ok(()) => {
                &&& bounds.0 > 0
                &&& bounds.1 > 0
                &&& bands > 0
                &&& old(out)@.len() == bounds.0 * bounds.1
                &&& rendered(eval, bounds.0, bounds.1, final(out)@)
            },
            Err(e) => {
                &&& e == RenderError::PreconditionViolation
                &&& !(bounds.0 > 0 && bounds.1 > 0 && bands > 0 && old(out)@.len() == bounds.0
                    * bounds.1)
                &&& final(out)@ == old(out)@
            },
        },
{
    let width = bounds.0;
    let height = bounds.1;
    let n = out.len();
    if width == 0 || height == 0 || bands == 0 {
        return Err(RenderError::PreconditionViolation);
    }
    let total = match width.checked_mul(height) {
        Some(t) => t,
        None => {
            return Err(RenderError::PreconditionViolation);
        },
    };
    if n != total {
        return Err(RenderError::PreconditionViolation);
    }
    let band_rows = rows_per_band(height, bands);
    let mut top: usize = 0;
    while top < height
        invariant
            1 <= width,
            1 <= height,
            1 <= band_rows,
            top <= height,
            total == width * height,
            out@.len() == width * height,
            forall|c: usize, r: usize|
                c < width && r < height ==> #[trigger] call_requires(eval, (c, r)),
            forall|row: int, col: int|
                0 <= row < top && 0 <= col < width ==> call_ensures(
                    eval,
                    ((col as usize), (row as usize)),
                    #[trigger] pixel_at(out@, width, row, col),
                ),
        decreases height - top,
    {
        let bh = if height - top < band_rows {
            height - top
        } else {
            band_rows
        };
        let band = render_rows(width, top, bh, eval);
        let mut r: usize = 0;
        while r < bh
            invariant
                1 <= width,
                1 <= height,
                1 <= bh,
                top + bh <= height,
                r <= bh,
                total == width * height,
                out@.len() == width * height,
                band@.len() == bh * width,
                forall|row: int, col: int|
                    0 <= row < bh && 0 <= col < width ==> call_ensures(
                        eval,
                        ((col as usize), ((top + row) as usize)),
                        #[trigger] pixel_at(band@, width, row, col),
                    ),
                forall|row: int, col: int|
                    0 <= row < top + r && 0 <= col < width ==> call_ensures(
                        eval,
                        ((col as usize), (row as usize)),
                        #[trigger] pixel_at(out@, width, row, col),
                    ),
            decreases bh - r,
        {
            let mut c: usize = 0;
            while c < width
                invariant
                    1 <= width,
                    1 <= height,
                    1 <= bh,
                    top + bh <= height,
                    r < bh,
                    c <= width,
                    total == width * height,
                    out@.len() == width * height,
                    band@.len() == bh * width,
                    forall|row: int, col: int|
                        0 <= row < bh && 0 <= col < width ==> call_ensures(
                            eval,
                            ((col as usize), ((top + row) as usize)),
                            #[trigger] pixel_at(band@, width, row, col),
                        ),
                    forall|row: int, col: int|
                        0 <= row < top + r && 0 <= col < width ==> call_ensures(
                            eval,
                            ((col as usize), (row as usize)),
                            #[trigger] pixel_at(out@, width, row, col),
                        ),
                    forall|col: int|
                        0 <= col < c ==> call_ensures(
                            eval,
                            ((col as usize), ((top + r) as usize)),
                            #[trigger] pixel_at(out@, width, (top + r) as int, col),
                        ),
                decreases width - c,
            {
                proof {
                    lemma_row_major_in_range(width as int, height as int, (top + r) as int, c as int);
                    lemma_row_major_in_range(width as int, bh as int, r as int, c as int);
                    assert(band.len() == band@.len());
                }
                let idx = (top + r) * width + c;
                let v = band[r * width + c];
                let ghost prev = out@;
                out[idx] = v;
                proof {
                    let w = width as int;
                    let gr = (top + r) as int;
                    assert forall|row: int, col: int|
                        0 <= row < top + r && 0 <= col < w implies call_ensures(
                        eval,
                        ((col as usize), (row as usize)),
                        #[trigger] pixel_at(out@, width, row, col),
                    ) by {
                        lemma_row_major_lt(w, row, col, gr);
                        lemma_row_major_in_range(w, height as int, row, col);
                        assert(gr * w <= gr * w + c);
                        assert(pixel_at(out@, width, row, col) == pixel_at(prev, width, row, col));
                    }
                    assert forall|col: int| 0 <= col < c + 1 implies call_ensures(
                        eval,
                        ((col as usize), (gr as usize)),
                        #[trigger] pixel_at(out@, width, gr, col),
                    ) by {
                        lemma_row_major_in_range(w, height as int, gr, col);
                        if col < c {
                            assert(pixel_at(out@, width, gr, col) == pixel_at(prev, width, gr, col));
                        } else {
                            assert(pixel_at(band@, width, r as int, col) == band@[r as int * w + col]);
                            assert(pixel_at(out@, width, gr, col) == v);
                        }
                    }
                }
                c = c + 1;
            }
            r = r + 1;
        }
        proof {
            assert forall|row: int, col: int|
                0 <= row < top + bh && 0 <= col < width implies call_ensures(
                eval,
                ((col as usize), (row as usize)),
                #[trigger] pixel_at(out@, width, row, col),
            ) by {
                if row >= top {
                    assert(pixel_at(out@, width, row, col) == pixel_at(
                        out@,
                        width,
                        (row - top) + top,
                        col,
                    ));
                }
            }
        }
        top = top + bh;
    }
    Ok(())
}

/// Law: a deterministic evaluator — one whose every admissible output at
/// a pixel is the value of the function `m` there — admits exactly one
/// image over given bounds. Two buffers it rendered are therefore equal,
/// however many bands each pass used and however often the render ran.
pub proof fn lemma_render_deterministic<R, F: Fn(usize, usize) -> R>(
    eval: F,
    m: spec_fn(int, int) -> R,
    width: usize,
    height: usize,
    a: Seq<R>,
    b: Seq<R>,
)
    requires
        forall|args: (usize, usize), r: R| #[trigger] call_ensures(eval, args, r) ==> r == m(
            args.0 as int,
            args.1 as int,
        ),
        rendered(eval, width, height, a),
        rendered(eval, width, height, b),
    ensures
        a =~= b,
{
    let w = width as int;
    assert forall|idx: int| 0 <= idx < a.len() implies a[idx] == b[idx] by {
        assert(w >= 1) by (nonlinear_arith)
            requires
                0 <= w,
                0 <= idx,
                idx < w * (height as int),
        ;
        lemma_fundamental_div_mod(idx, w);
        lemma_mod_bound(idx, w);
        lemma_div_pos_is_pos(idx, w);
        lemma_multiply_divide_lt(idx, w, height as int);
        let row = idx / w;
        let col = idx % w;
        assert(row * w + col == idx) by (nonlinear_arith)
            requires
                idx == w * row + col,
        ;
        assert(a[idx] == pixel_at(a, width, row, col));
        assert(b[idx] == pixel_at(b, width, row, col));
        assert(a[idx] == m(col, row));
        assert(b[idx] == m(col, row));
    }
}

} // verus!
