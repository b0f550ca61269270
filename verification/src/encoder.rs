//! The text picture of a file's square pattern: one character per pixel,
//! a line per pixel row, and a `-` line after each frame.

use vstd::prelude::*;
use crate::bits::{Bits, msb0_bits};
use crate::iter::{SquarePatternError, SquarePatternIter, square_pattern_error, square_pattern_spec};
use crate::metadata::Metadata;

verus! {

/// `'1'`, the character of a set pixel.
pub const PIXEL_ON: u8 = 0x31;
/// `'0'`, the character of a clear pixel.
pub const PIXEL_OFF: u8 = 0x30;
/// `'\n'`, which ends a line.
pub const NEWLINE: u8 = 0x0a;
/// `'-'`, the line that ends a frame.
pub const FRAME_MARK: u8 = 0x2d;

/// The character that shows a pixel: `1` for a set bit, `0` otherwise.
pub open spec fn pixel_char(b: bool) -> u8 {
    if b {
        PIXEL_ON
    } else {
        PIXEL_OFF
    }
}

/// The text written for the `k`-th pixel (counting from 1): its character,
/// then a line break if it ends a pixel row of `row_len` pixels, then a `-`
/// line if it also ends a frame of `frame_len` pixels.
pub open spec fn pixel_text(b: bool, k: int, row_len: int, frame_len: int) -> Seq<u8> {
    seq![pixel_char(b)] + if k % row_len == 0 {
        seq![NEWLINE] + if k % frame_len == 0 {
            seq![FRAME_MARK, NEWLINE]
        } else {
            Seq::empty()
        }
    } else {
        Seq::empty()
    }
}

/// The text written for a sequence of pixels.
pub open spec fn render(pixels: Seq<bool>, row_len: int, frame_len: int) -> Seq<u8>
    decreases pixels.len(),
{
    if pixels.len() == 0 {
        Seq::empty()
    } else {
        render(pixels.drop_last(), row_len, frame_len) + pixel_text(
            pixels.last(),
            pixels.len() as int,
            row_len,
            frame_len,
        )
    }
}

/// Where the text for pixel `k` (counting from 0) starts: after the `k`
/// earlier pixel characters, one line break for each of the `k / row_len`
/// full rows before it, and a two-character `-` line for each of the
/// `k / frame_len` full frames before it.
pub open spec fn pixel_offset(k: int, row_len: int, frame_len: int) -> int {
    k + k / row_len + 2 * (k / frame_len)
}

/// In `text`, pixel `k` of `pixels` (counting from 0) is written as `1` or
/// `0` at [`pixel_offset`]; if its count `k + 1` completes a row of
/// `row_len` pixels a line break follows it, and if the count also completes
/// a frame of `frame_len` pixels the line `-` follows that.
pub open spec fn pixel_written(
    text: Seq<u8>,
    pixels: Seq<bool>,
    k: int,
    row_len: int,
    frame_len: int,
) -> bool {
    let at = pixel_offset(k, row_len, frame_len);
    &&& 0 <= at < text.len()
    &&& text[at] == (if pixels[k] {
        PIXEL_ON
    } else {
        PIXEL_OFF
    })
    &&& (k + 1) % row_len == 0 ==> at + 1 < text.len() && text[at + 1] == NEWLINE
    &&& (k + 1) % frame_len == 0 ==> {
        &&& at + 3 < text.len()
        &&& text[at + 2] == FRAME_MARK
        &&& text[at + 3] == NEWLINE
    }
}

/// The layout of the text, when frames are whole numbers of rows: `n` pixels
/// give `n + n / row_len + 2 * (n / frame_len)` bytes, and every pixel is
/// written where [`pixel_written`] says, followed by the line break and `-`
/// line that its count calls for.
pub proof fn lemma_render_layout(pixels: Seq<bool>, row_len: int, frame_len: int)
    requires
        row_len >= 1,
        frame_len >= 1,
        frame_len % row_len == 0,
    ensures
        render(pixels, row_len, frame_len).len() == pixel_offset(
            pixels.len() as int,
            row_len,
            frame_len,
        ),
        forall|k: int|
            0 <= k < pixels.len() ==> #[trigger] pixel_written(
                render(pixels, row_len, frame_len),
                pixels,
                k,
                row_len,
                frame_len,
            ),
    decreases pixels.len(),
{
    let n = pixels.len() as int;
    if n > 0 {
        let init = pixels.drop_last();
        lemma_render_layout(init, row_len, frame_len);
        let before = render(init, row_len, frame_len);
        let piece = pixel_text(pixels.last(), n, row_len, frame_len);
        let text = render(pixels, row_len, frame_len);
        assert(text == before + piece);
        lemma_div_step(n, row_len);
        lemma_div_step(n, frame_len);
        lemma_multiple_of_multiple(n, row_len, frame_len);
        assert(before.len() == pixel_offset(n - 1, row_len, frame_len));
        assert forall|k: int| 0 <= k < pixels.len() implies #[trigger] pixel_written(
            text,
            pixels,
            k,
            row_len,
            frame_len,
        ) by {
            if k < n - 1 {
                assert(init[k] == pixels[k]);
                assert(pixel_written(before, init, k, row_len, frame_len));
            }
        }
    }
}

/// Counting one more item adds one to the quotient by `d` exactly when the
/// new count is a multiple of `d`.
proof fn lemma_div_step(n: int, d: int)
    requires
        n >= 1,
        d >= 1,
    ensures
        n / d == (n - 1) / d + if n % d == 0 {
            1int
        } else {
            0int
        },
        (n - 1) / d >= 0,
{
    let q = (n - 1) / d;
    let r = (n - 1) % d;
    vstd::arithmetic::div_mod::lemma_fundamental_div_mod(n - 1, d);
    assert(q >= 0) by (nonlinear_arith)
        requires n - 1 == d * q + r, 0 <= r < d, n >= 1, d >= 1;
    if r + 1 == d {
        assert(n == (q + 1) * d + 0) by (nonlinear_arith)
            requires n - 1 == d * q + r, r + 1 == d;
        vstd::arithmetic::div_mod::lemma_fundamental_div_mod_converse(n, d, q + 1, 0);
    } else {
        assert(n == q * d + (r + 1)) by (nonlinear_arith)
            requires n - 1 == d * q + r;
        vstd::arithmetic::div_mod::lemma_fundamental_div_mod_converse(n, d, q, r + 1);
    }
}

/// A multiple of a multiple of `r` is a multiple of `r`.
proof fn lemma_multiple_of_multiple(n: int, r: int, f: int)
    requires
        r >= 1,
        f >= 1,
        f % r == 0,
    ensures
        n % f == 0 ==> n % r == 0,
{
    if n % f == 0 {
        vstd::arithmetic::div_mod::lemma_fundamental_div_mod(n, f);
        vstd::arithmetic::div_mod::lemma_fundamental_div_mod(f, r);
        let a = n / f;
        let b = f / r;
        assert(n == (a * b) * r + 0) by (nonlinear_arith)
            requires n == f * a + 0, f == r * b + 0;
        vstd::arithmetic::div_mod::lemma_fundamental_div_mod_converse(n, r, a * b, 0);
    }
}

/// Writes the pixels as text, `row_len` pixels to a line and a `-` line
/// after every `frame_len` pixels.
///
/// A row length is needed as soon as there is a pixel, and a frame length as
/// soon as a row is complete.
pub fn render_pixels(pixels: &Vec<bool>, row_len: u64, frame_len: u64) -> (text: Vec<u8>)
    requires
        pixels@.len() > 0 ==> row_len > 0,
        row_len > 0 && pixels@.len() >= row_len ==> frame_len > 0,
    ensures
        text@ == render(pixels@, row_len as int, frame_len as int),
        row_len > 0 && frame_len > 0 && frame_len % row_len == 0 ==> {
            &&& text@.len() == pixel_offset(pixels@.len() as int, row_len as int, frame_len as int)
            &&& forall|k: int|
                0 <= k < pixels@.len() ==> #[trigger] pixel_written(
                    text@,
                    pixels@,
                    k,
                    row_len as int,
                    frame_len as int,
                )
        },
{
    let mut text: Vec<u8> = Vec::new();
    let n = pixels.len();
    let mut i: usize = 0;
    while i < n
        invariant
            n == pixels@.len(),
            i <= n,
            n > 0 ==> row_len > 0,
            row_len > 0 && n >= row_len ==> frame_len > 0,
            text@ == render(pixels@.take(i as int), row_len as int, frame_len as int),
        decreases n - i,
    {
        let ghost before = text@;
        let b = pixels[i];
        let count: u64 = (i + 1) as u64;
        if b {
            text.push(PIXEL_ON);
        } else {
            text.push(PIXEL_OFF);
        }
        if count % row_len == 0 {
            proof {
                lemma_multiple_at_least(count as int, row_len as int);
            }
            text.push(NEWLINE);
            if count % frame_len == 0 {
                text.push(FRAME_MARK);
                text.push(NEWLINE);
            }
        }
        proof {
            let next = pixels@.take(i + 1);
            assert(next.drop_last() =~= pixels@.take(i as int));
            assert(text@ =~= before + pixel_text(b, i + 1, row_len as int, frame_len as int));
        }
        i += 1;
    }
    proof {
        assert(pixels@.take(n as int) =~= pixels@);
        if row_len > 0 && frame_len > 0 && frame_len % row_len == 0 {
            lemma_render_layout(pixels@, row_len as int, frame_len as int);
        }
    }
    text
}

/// Draws `bytes` (most significant bit of each byte first) as the square
/// pattern that `meta` describes, and writes it as text: one character per
/// pixel, a line per pixel row of the frame, a `-` line after each frame.
pub fn pattern_text(bytes: &[u8], meta: &Metadata) -> (r: Result<Vec<u8>, SquarePatternError>)
    requires
        bytes@.len() <= usize::MAX / 64,
        square_pattern_error(bytes@.len() * 8int, meta.ss as int, meta.w as int) is None
            && bytes@.len() > 0 ==> meta.sw >= 1,
        square_pattern_error(bytes@.len() * 8int, meta.ss as int, meta.w as int) is None
            && bytes@.len() > 0 && bytes@.len() * 8 * meta.ss * meta.ss >= meta.ss * meta.sw
            ==> meta.sh >= 1,
    ensures
        match r {
            Ok(text) => {
                &&& square_pattern_error(bytes@.len() * 8int, meta.ss as int, meta.w as int) is None
                &&& text@ == render(
                    square_pattern_spec(msb0_bits(bytes@), meta.ss as int, (meta.w / meta.ss) as int),
                    meta.ss * meta.sw,
                    meta.ss * meta.sw * meta.ss * meta.sh,
                )
                &&& meta.sw >= 1 && meta.sh >= 1 ==> {
                    let pixels = square_pattern_spec(
                        msb0_bits(bytes@),
                        meta.ss as int,
                        (meta.w / meta.ss) as int,
                    );
                    let row_len = meta.ss * meta.sw;
                    let frame_len = meta.ss * meta.sw * meta.ss * meta.sh;
                    &&& text@.len() == pixel_offset(pixels.len() as int, row_len, frame_len)
                    &&& forall|k: int|
                        0 <= k < pixels.len() ==> #[trigger] pixel_written(
                            text@,
                            pixels,
                            k,
                            row_len,
                            frame_len,
                        )
                }
            },
            Err(e) => square_pattern_error(bytes@.len() * 8int, meta.ss as int, meta.w as int) == Some(e),
        },
{
    let bits = Bits::from_bytes(bytes);
    let mut sp = match bits.square_pattern(meta.ss as usize, meta.w as usize) {
        Ok(sp) => sp,
        Err(e) => return Err(e),
    };
    let pixels = sp.collect_remaining();
    proof {
        lemma_u16_product(meta.ss as int, meta.sw as int);
        lemma_u16_product(meta.ss as int, meta.sh as int);
        lemma_u32_product(meta.ss * meta.sw, meta.ss * meta.sh);
        assert((meta.ss * meta.sw) * (meta.ss * meta.sh) == meta.ss * meta.sw * meta.ss * meta.sh)
            by (nonlinear_arith);
        let n = bytes@.len() * 8;
        assert(pixels@.len() == n * meta.ss * meta.ss);
        assert(n > 0 ==> n * meta.ss * meta.ss > 0) by (nonlinear_arith)
            requires meta.ss >= 1, n >= 0;
        assert(meta.sw >= 1 && meta.sh >= 1 ==> meta.ss * meta.sw * meta.ss * meta.sh > 0)
            by (nonlinear_arith)
            requires meta.ss >= 1;
        assert(meta.sw >= 1 ==> meta.ss * meta.sw > 0) by (nonlinear_arith)
            requires meta.ss >= 1;
        assert(n == 0 ==> n * meta.ss * meta.ss == 0) by (nonlinear_arith);
        assert(meta.sw == 0 ==> meta.ss * meta.sw == 0) by (nonlinear_arith);
        assert(meta.sh == 0 ==> meta.ss * meta.sw * meta.ss * meta.sh == 0) by (nonlinear_arith);
    }
    let row_len: u64 = meta.ss as u64 * meta.sw as u64;
    let frame_len: u64 = row_len * (meta.ss as u64 * meta.sh as u64);
    proof {
        if pixels@.len() > 0 {
            assert(bytes@.len() > 0);
            assert(meta.sw >= 1);
            assert(row_len > 0);
        }
        if row_len > 0 && pixels@.len() >= row_len {
            assert(bytes@.len() > 0);
            assert(bytes@.len() * 8 * meta.ss * meta.ss >= meta.ss * meta.sw);
            assert(meta.sh >= 1);
            assert(frame_len > 0);
        }
        if meta.sw >= 1 && meta.sh >= 1 {
            assert((meta.ss * meta.sw * meta.ss * meta.sh) % (meta.ss * meta.sw) == 0) by {
                vstd::arithmetic::div_mod::lemma_fundamental_div_mod_converse(
                    meta.ss * meta.sw * meta.ss * meta.sh,
                    meta.ss * meta.sw,
                    meta.ss * meta.sh,
                    0,
                );
            }
        }
    }
    Ok(render_pixels(&pixels, row_len, frame_len))
}

/// Two 16-bit factors give a product that fits in 32 bits.
proof fn lemma_u16_product(a: int, b: int)
    requires
        0 <= a <= 0xffff,
        0 <= b <= 0xffff,
    ensures
        0 <= a * b <= 0xfffe0001,
{
    assert(0 <= a * b <= 0xfffe0001) by (nonlinear_arith)
        requires 0 <= a <= 0xffff, 0 <= b <= 0xffff;
}

/// Two such products multiply to a number that fits in 64 bits.
proof fn lemma_u32_product(a: int, b: int)
    requires
        0 <= a <= 0xfffe0001,
        0 <= b <= 0xfffe0001,
    ensures
        0 <= a * b <= u64::MAX,
{
    assert(0 <= a * b <= 0xfffe0001 * 0xfffe0001) by (nonlinear_arith)
        requires 0 <= a <= 0xfffe0001, 0 <= b <= 0xfffe0001;
}

/// A positive multiple of `d` is at least `d`.
proof fn lemma_multiple_at_least(x: int, d: int)
    requires
        x >= 1,
        d >= 1,
        x % d == 0,
    ensures
        x >= d,
{
    vstd::arithmetic::div_mod::lemma_fundamental_div_mod(x, d);
    assert(x >= d) by (nonlinear_arith)
        requires x == d * (x / d) + 0, x >= 1, d >= 1;
}

} // verus!
