//! Fixed-size raw RGB video: rows of pixel bytes, padded to a full frame.

use vstd::prelude::*;

verus! {

// 1 square == 3x3 pixels -> 2 bytes
pub const FPS: usize = 1;
pub const SQUARE: usize = 120;
pub const HEIGHT: usize = 1080;
pub const WIDTH: usize = 1920;
/// Bytes in a row of `rgb24` pixels.
pub const BWIDTH: usize = WIDTH * 3;
pub const UWIDTH: usize = WIDTH * 2 / SQUARE;
pub const UFRAME: usize = UWIDTH * HEIGHT / SQUARE;

/// The bytes of the rows, one row after the other.
pub open spec fn flatten_rows(rows: Seq<[u8; BWIDTH]>) -> Seq<u8>
    decreases rows.len(),
{
    if rows.len() == 0 {
        Seq::empty()
    } else {
        flatten_rows(rows.drop_last()) + rows.last()@
    }
}

/// The concatenated rows lay each row's bytes, unchanged and in order, at
/// `BWIDTH` bytes per row: byte `j` of row `r` is byte `r * BWIDTH + j`.
pub proof fn lemma_flatten_rows_layout(rows: Seq<[u8; BWIDTH]>)
    ensures
        flatten_rows(rows).len() == rows.len() * BWIDTH,
        forall|r: int, j: int|
            0 <= r < rows.len() && 0 <= j < BWIDTH ==> flatten_rows(rows)[r * BWIDTH + j]
                == #[trigger] rows[r]@[j],
    decreases rows.len(),
{
    if rows.len() > 0 {
        let init = rows.drop_last();
        lemma_flatten_rows_layout(init);
        let n = rows.len() as int;
        assert((n - 1) * BWIDTH + BWIDTH == n * BWIDTH) by (nonlinear_arith);
        assert forall|r: int, j: int|
            0 <= r < rows.len() && 0 <= j < BWIDTH implies flatten_rows(rows)[r * BWIDTH + j]
                == #[trigger] rows[r]@[j] by {
            if r < n - 1 {
                assert(r * BWIDTH + j < (n - 1) * BWIDTH) by (nonlinear_arith)
                    requires r < n - 1, 0 <= j < BWIDTH;
                assert(init[r] == rows[r]);
            } else {
                assert(r * BWIDTH + j == (n - 1) * BWIDTH + j);
            }
            assert(0 <= r * BWIDTH + j) by (nonlinear_arith)
                requires 0 <= r, 0 <= j;
        }
    }
}

/// The number of all-zero rows that complete `rows` rows to a frame of
/// `HEIGHT` rows.
pub open spec fn padding_rows(rows: int) -> int {
    if rows < HEIGHT {
        HEIGHT - rows
    } else {
        0
    }
}

/// The raw `rgb24` video stream for `data`: its rows, one after the other,
/// followed by black rows up to `HEIGHT` rows in all.
pub fn raw_video(data: &Vec<[u8; BWIDTH]>) -> (out: Vec<u8>)
    ensures
        out@ == flatten_rows(data@) + Seq::new(
            (padding_rows(data@.len() as int) * BWIDTH) as nat,
            |i: int| 0u8,
        ),
        out@.len() == (if data@.len() < HEIGHT { HEIGHT as int } else { data@.len() as int })
            * BWIDTH,
        forall|r: int, j: int|
            0 <= r < data@.len() && 0 <= j < BWIDTH ==> out@[r * BWIDTH + j]
                == #[trigger] data@[r]@[j],
        forall|t: int| data@.len() * BWIDTH <= t < out@.len() ==> #[trigger] out@[t] == 0,
{
    let mut out: Vec<u8> = Vec::new();
    let n = data.len();
    let mut r: usize = 0;
    while r < n
        invariant
            n == data@.len(),
            r <= n,
            out@ == flatten_rows(data@.take(r as int)),
            out@.len() == r * BWIDTH,
        decreases n - r,
    {
        let row: &[u8; BWIDTH] = &data[r];
        let ghost before = out@;
        let mut j: usize = 0;
        while j < BWIDTH
            invariant
                j <= BWIDTH,
                row@.len() == BWIDTH,
                out@ == before + row@.take(j as int),
            decreases BWIDTH - j,
        {
            out.push(row[j]);
            proof {
                assert(before + row@.take(j + 1) =~= (before + row@.take(j as int)).push(row@[j as int]));
            }
            j += 1;
        }
        proof {
            assert(row@.take(BWIDTH as int) =~= row@);
            assert(data@.take(r + 1).drop_last() =~= data@.take(r as int));
            assert(r * BWIDTH + BWIDTH == (r + 1) * BWIDTH) by (nonlinear_arith);
        }
        r += 1;
    }
    proof {
        assert(data@.take(n as int) =~= data@);
    }
    let ghost body = out@;
    let mut h: usize = n;
    while h < HEIGHT
        invariant
            n == data@.len(),
            n <= h,
            n < HEIGHT ==> h <= HEIGHT,
            n >= HEIGHT ==> h == n,
            out@ == body + Seq::new(((h - n) * BWIDTH) as nat, |i: int| 0u8),
        decreases HEIGHT - h,
    {
        let mut j: usize = 0;
        let ghost before = out@;
        while j < BWIDTH
            invariant
                j <= BWIDTH,
                out@ == before + Seq::new(j as nat, |i: int| 0u8),
            decreases BWIDTH - j,
        {
            out.push(0u8);
            proof {
                assert(before + Seq::new((j + 1) as nat, |i: int| 0u8)
                    =~= (before + Seq::new(j as nat, |i: int| 0u8)).push(0u8));
            }
            j += 1;
        }
        proof {
            assert(((h + 1 - n) * BWIDTH) == (h - n) * BWIDTH + BWIDTH) by (nonlinear_arith);
            assert(body + Seq::new(((h + 1 - n) * BWIDTH) as nat, |i: int| 0u8)
                =~= before + Seq::new(BWIDTH as nat, |i: int| 0u8));
        }
        h += 1;
    }
    proof {
        let pad = padding_rows(n as int);
        assert(h - n == pad);
        assert(n * BWIDTH + pad * BWIDTH == (n + pad) * BWIDTH) by (nonlinear_arith);
        lemma_flatten_rows_layout(data@);
        assert forall|r: int, j: int|
            0 <= r < data@.len() && 0 <= j < BWIDTH implies out@[r * BWIDTH + j]
                == #[trigger] data@[r]@[j] by {
            assert(r * BWIDTH + j < n * BWIDTH) by (nonlinear_arith)
                requires r < n, 0 <= j < BWIDTH;
            assert(0 <= r * BWIDTH + j) by (nonlinear_arith)
                requires 0 <= r, 0 <= j;
        }
    }
    out
}

} // verus!
