//! The square pattern: a vector of bits drawn as squares of pixels.
//!
//! A frame is `sw` squares wide and each square is `ss` pixels on a side.
//! Bits fill the squares row by row; the pattern lists the pixels row by row,
//! so each bit is repeated `ss` times in each of `ss` consecutive pixel rows.

use vstd::prelude::*;
use vstd::arithmetic::div_mod::{
    lemma_div_by_self, lemma_div_is_ordered, lemma_fundamental_div_mod,
    lemma_fundamental_div_mod_converse,
};
use crate::bits::{Bits, bits_view};

verus! {

/// Pixel `k` of the pattern drawn from `bits` with squares of side `ss` and
/// `sw` squares per row: the bit of the square that covers that pixel.
pub open spec fn pattern_pixel(bits: Seq<bool>, ss: int, sw: int, k: int) -> bool {
    bits[(k / (sw * ss * ss)) * sw + (k % (sw * ss)) / ss]
}

/// The whole pattern: `ss * ss` pixels for each bit.
pub open spec fn square_pattern_spec(bits: Seq<bool>, ss: int, sw: int) -> Seq<bool> {
    Seq::new((bits.len() * ss * ss) as nat, |k: int| pattern_pixel(bits, ss, sw, k))
}

/// Why a pattern cannot be drawn.
#[derive(Debug, PartialEq, Eq, Structural)]
pub enum SquarePatternError {
    /// The square length is 0.
    InvalidSquare,
    /// The frame width (first) is not a positive multiple of the square
    /// length (second).
    InvalidWidth(usize, usize),
    /// The number of bits (first) times the square length (second) is not a
    /// multiple of the frame width (third): the last row of squares would be
    /// incomplete.
    InvalidBitVecLength(usize, usize, usize),
}

/// The error, if any, with which a pattern of `len` bits, squares of side
/// `ss` and frames `w` pixels wide is refused.
pub open spec fn square_pattern_error(len: int, ss: int, w: int) -> Option<SquarePatternError> {
    if ss < 1 {
        Some(SquarePatternError::InvalidSquare)
    } else if w % ss != 0 || w < ss {
        Some(SquarePatternError::InvalidWidth(w as usize, ss as usize))
    } else if (len * ss) % w != 0 {
        Some(SquarePatternError::InvalidBitVecLength(len as usize, ss as usize, w as usize))
    } else {
        None
    }
}

/// What starting the walk over `bits` with squares of side `sq_length` on
/// frames `fr_width` pixels wide gives: the walk at the first pixel of the
/// pattern, or the error that the parameters call for.
pub open spec fn square_pattern_result(
    r: Result<SquarePattern, SquarePatternError>,
    bits: Seq<bool>,
    sq_length: usize,
    fr_width: usize,
) -> bool {
    match r {
        Ok(sp) => {
            &&& square_pattern_error(bits.len() as int, sq_length as int, fr_width as int) is None
            &&& sp.wf()
            &&& sp.bits() == bits
            &&& sp.square_len() == sq_length
            &&& sp.squares_per_row() == fr_width / sq_length
            &&& sp.position() == 0
            &&& sp.remaining() == square_pattern_spec(bits, sq_length as int, (fr_width / sq_length) as int)
            &&& sq_length >= 1 && fr_width >= sq_length && fr_width % sq_length == 0
            &&& bits.len() % ((fr_width / sq_length) as nat) == 0
        },
        Err(e) => square_pattern_error(bits.len() as int, sq_length as int, fr_width as int) == Some(e),
    }
}

/// One call of [`SquarePattern::next`] takes the walk from `before` to
/// `after` and returns `r`: the pixel at the current position, moving one
/// pixel on, or `None` at the end of the pattern, staying there.
pub open spec fn next_step(before: SquarePattern, after: SquarePattern, r: Option<bool>) -> bool {
    &&& after.wf()
    &&& after.bits() == before.bits()
    &&& after.square_len() == before.square_len()
    &&& after.squares_per_row() == before.squares_per_row()
    &&& (r is None <==> before.position() == before.pattern().len())
    &&& r is None ==> after.position() == before.position()
    &&& r is Some ==> {
        &&& r == Some(before.pattern()[before.position()])
        &&& after.position() == before.position() + 1
    }
}

/// Walks the pixels of the square pattern of a bit vector, one at a time.
pub struct SquarePattern {
    /// the vector of bits to repeat
    bitvec: Bits,
    /// the side length of the square
    ss: usize,
    /// the number of squares per row
    sw: usize,
    /// index of the current bit
    idx: usize,
    /// the current row in a square
    row: usize,
    /// the current column in a square
    col: usize,
}

impl SquarePattern {
    /// The bits being drawn.
    pub closed spec fn bits(&self) -> Seq<bool> {
        bits_view(self.bitvec)
    }

    /// The side of a square, in pixels.
    pub closed spec fn square_len(&self) -> int {
        self.ss as int
    }

    /// The number of squares in a row of the frame.
    pub closed spec fn squares_per_row(&self) -> int {
        self.sw as int
    }

    /// The whole pattern, from its first pixel.
    pub open spec fn pattern(&self) -> Seq<bool> {
        square_pattern_spec(self.bits(), self.square_len(), self.squares_per_row())
    }

    /// How many pixels have been handed out.
    pub closed spec fn position(&self) -> int {
        walk_position(self.idx as int, self.row as int, self.col as int, self.ss as int, self.sw as int)
    }

    /// The pixels still to come.
    pub open spec fn remaining(&self) -> Seq<bool> {
        self.pattern().skip(self.position())
    }

    /// The walk is in a consistent state.
    pub closed spec fn wf(&self) -> bool {
        let len = self.bits().len() as int;
        &&& self.ss >= 1
        &&& self.sw >= 1
        &&& len % (self.sw as int) == 0
        &&& self.idx <= len
        &&& self.row < self.ss
        &&& self.col < self.ss
        &&& self.idx == len ==> self.row == 0 && self.col == 0
    }

    /// Starts the walk over the square pattern of `bitvec`, with squares of
    /// side `sq_length` on frames `fr_width` pixels wide.
    pub fn new(bitvec: Bits, sq_length: usize, fr_width: usize) -> (r: Result<
        Self,
        SquarePatternError,
    >)
        ensures
            square_pattern_result(r, bits_view(bitvec), sq_length, fr_width),
    {
        if sq_length < 1 {
            return Err(SquarePatternError::InvalidSquare);
        }
        if fr_width % sq_length != 0 || fr_width < sq_length {
            return Err(SquarePatternError::InvalidWidth(fr_width, sq_length));
        }
        let len = bitvec.len();
        let sw = fr_width / sq_length;
        proof {
            lemma_div_is_ordered(sq_length as int, fr_width as int, sq_length as int);
            lemma_div_by_self(sq_length as int);
            lemma_fundamental_div_mod(fr_width as int, sq_length as int);
            assert(fr_width == sw * sq_length) by (nonlinear_arith)
                requires fr_width == sq_length * sw + 0;
            lemma_row_divisibility(len as int, sq_length as int, sw as int);
        }
        // (len * sq_length) % fr_width, computed without the product
        if len % sw != 0 {
            return Err(SquarePatternError::InvalidBitVecLength(len, sq_length, fr_width));
        }
        let sp = Self { bitvec, ss: sq_length, sw, idx: 0, row: 0, col: 0 };
        proof {
            lemma_fundamental_div_mod_converse(0, sw as int, 0, 0);
            assert(sp.remaining() =~= sp.pattern());
        }
        proof {
            lemma_square_pattern_accepts(len as int, sq_length as int, fr_width as int);
        }
        Ok(sp)
    }

    /// Hands out the next pixel of the pattern, or `None` once every pixel
    /// has been handed out (and from then on).
    pub fn next(&mut self) -> (r: Option<bool>)
        requires
            old(self).wf(),
        ensures
            final(self).wf(),
            final(self).bits() == old(self).bits(),
            final(self).square_len() == old(self).square_len(),
            final(self).squares_per_row() == old(self).squares_per_row(),
            next_step(*old(self), *final(self), r),
            r is None <==> old(self).remaining().len() == 0,
            r is None ==> final(self).position() == old(self).position(),
            r is Some ==> {
                &&& r == Some(old(self).remaining()[0])
                &&& final(self).position() == old(self).position() + 1
                &&& final(self).remaining() == old(self).remaining().drop_first()
            },
    {
        let ghost len = self.bits().len() as int;
        let ghost ss = self.ss as int;
        let ghost sw = self.sw as int;
        let ghost pos = self.position();
        proof {
            lemma_position_bound(len, ss, sw, self.idx as int, self.row as int, self.col as int);
        }
        if self.idx >= self.bitvec.len() {
            proof {
                assert(self.pattern().len() == len * ss * ss);
            }
            return None;
        }
        let bit = self.bitvec.get(self.idx);
        let ghost q = self.idx / self.sw;
        let ghost c = self.idx % self.sw;
        let ghost row = self.row as int;
        let ghost col = self.col as int;
        proof {
            lemma_pixel_at(self.bits(), ss, sw, q as int, row, c as int, col);
            assert(self.remaining()[0] == bit);
            lemma_step(q as int, c as int, row, col, ss, sw);
        }
        self.col += 1;
        if self.col == self.ss {
            self.col = 0;
            self.idx += 1;
            if self.idx % self.sw == 0 {
                self.row += 1;
                if self.row != self.ss {
                    self.idx -= self.sw;
                } else {
                    self.row = 0;
                }
            }
        }
        proof {
            assert(self.position() == pos + 1);
            assert(self.remaining() =~= old(self).remaining().drop_first());
        }
        Some(bit)
    }

    /// Hands out every pixel still to come, in order.
    pub fn collect_remaining(&mut self) -> (v: Vec<bool>)
        requires
            old(self).wf(),
        ensures
            final(self).wf(),
            final(self).bits() == old(self).bits(),
            final(self).square_len() == old(self).square_len(),
            final(self).squares_per_row() == old(self).squares_per_row(),
            v@ == old(self).remaining(),
            final(self).remaining().len() == 0,
    {
        let mut out: Vec<bool> = Vec::new();
        loop
            invariant
                self.wf(),
                self.bits() == old(self).bits(),
                self.square_len() == old(self).square_len(),
                self.squares_per_row() == old(self).squares_per_row(),
                out@ + self.remaining() == old(self).remaining(),
            decreases self.remaining().len(),
        {
            let ghost before = self.remaining();
            match self.next() {
                Some(b) => {
                    proof {
                        assert(out@.push(b) + self.remaining() =~= out@ + before);
                    }
                    out.push(b);
                },
                None => {
                    proof {
                        assert(out@ =~= old(self).remaining());
                    }
                    return out;
                },
            }
        }
    }
}

/// Turns a bit vector into the walk over its square pattern.
pub trait SquarePatternIter: Sized {
    /// Starts the walk with squares of side `sq_length` on frames `fr_width`
    /// pixels wide.
    fn square_pattern(self, sq_length: usize, fr_width: usize) -> Result<
        SquarePattern,
        SquarePatternError,
    >;
}

impl SquarePatternIter for Bits {
    fn square_pattern(self, sq_length: usize, fr_width: usize) -> (r: Result<
        SquarePattern,
        SquarePatternError,
    >)
        ensures
            square_pattern_result(r, bits_view(self), sq_length, fr_width),
    {
        SquarePattern::new(self, sq_length, fr_width)
    }
}

/// A consistent walk stands within its pattern, and what remains is the
/// pattern from there on.
pub proof fn lemma_position_within(sp: SquarePattern)
    requires
        sp.wf(),
    ensures
        0 <= sp.position() <= sp.pattern().len(),
        sp.remaining().len() == sp.pattern().len() - sp.position(),
        forall|j: int|
            0 <= j < sp.remaining().len() ==> #[trigger] sp.remaining()[j] == sp.pattern()[sp.position()
                + j],
{
    lemma_position_bound(
        sp.bits().len() as int,
        sp.ss as int,
        sp.sw as int,
        sp.idx as int,
        sp.row as int,
        sp.col as int,
    );
}

/// The pixel that call `k` of `next` on a fresh walk returns: pixel `k` of
/// the pattern while there is one, `None` after it.
pub open spec fn walk_output(pattern: Seq<bool>, k: int) -> Option<bool> {
    if k < pattern.len() {
        Some(pattern[k])
    } else {
        None
    }
}

/// A walk started at the first pixel hands out the pattern pixel by pixel,
/// then `None` for ever. Here `walk[j]` is the walk before call `j` of
/// [`SquarePattern::next`], `outs[j]` what that call returned, and
/// `walk[j + 1]` the walk after it.
pub proof fn lemma_walk(walk: Seq<SquarePattern>, outs: Seq<Option<bool>>)
    requires
        walk.len() == outs.len() + 1,
        walk[0].wf(),
        walk[0].position() == 0,
        forall|j: int| #![trigger outs[j]]
            0 <= j < outs.len() ==> next_step(walk[j], walk[j + 1], outs[j]),
    ensures
        forall|k: int| #![trigger outs[k]]
            0 <= k < outs.len() ==> outs[k] == walk_output(walk[0].pattern(), k),
{
    lemma_walk_prefix(walk, outs, outs.len() as int);
}

proof fn lemma_walk_prefix(walk: Seq<SquarePattern>, outs: Seq<Option<bool>>, j: int)
    requires
        walk.len() == outs.len() + 1,
        walk[0].wf(),
        walk[0].position() == 0,
        forall|j: int| #![trigger outs[j]]
            0 <= j < outs.len() ==> next_step(walk[j], walk[j + 1], outs[j]),
        0 <= j <= outs.len(),
    ensures
        walk[j].wf(),
        walk[j].pattern() == walk[0].pattern(),
        walk[j].position() == if j < walk[0].pattern().len() {
            j
        } else {
            walk[0].pattern().len() as int
        },
        forall|k: int| #![trigger outs[k]]
            0 <= k < j ==> outs[k] == walk_output(walk[0].pattern(), k),
    decreases j,
{
    if j > 0 {
        lemma_walk_prefix(walk, outs, j - 1);
        assert(next_step(walk[j - 1], walk[j], outs[j - 1]));
    }
}

/// Squares of side 1 draw the bits themselves, in order.
pub proof fn lemma_unit_squares_keep_bits(bits: Seq<bool>, sw: int)
    requires
        sw >= 1,
        (bits.len() as int) % sw == 0,
    ensures
        square_pattern_spec(bits, 1, sw) == bits,
{
    assert forall|k: int| 0 <= k < bits.len() implies #[trigger] pattern_pixel(bits, 1, sw, k)
        == bits[k] by {
        lemma_fundamental_div_mod(k, sw);
        assert(sw * 1 * 1 == sw && sw * 1 == sw);
        lemma_fundamental_div_mod_converse(k % sw, 1, k % sw, 0);
        assert((k / sw) * sw + k % sw == k) by (nonlinear_arith)
            requires k == sw * (k / sw) + k % sw;
    }
    assert(square_pattern_spec(bits, 1, sw) =~= bits);
}

/// The index in the pattern of the pixel in pixel row `dy`, column `dx` of
/// the square of bit `i`.
pub open spec fn square_pixel_index(ss: int, sw: int, i: int, dy: int, dx: int) -> int {
    (i / sw) * (sw * ss * ss) + dy * (sw * ss) + (i % sw) * ss + dx
}

/// Each bit is drawn as a whole square: every pixel of the `ss`×`ss` square
/// of bit `i` lies within the pattern and shows bit `i`.
pub proof fn lemma_bit_is_square(bits: Seq<bool>, ss: int, sw: int, i: int, dy: int, dx: int)
    requires
        ss >= 1,
        sw >= 1,
        (bits.len() as int) % sw == 0,
        0 <= i < bits.len(),
        0 <= dy < ss,
        0 <= dx < ss,
    ensures
        0 <= square_pixel_index(ss, sw, i, dy, dx) < square_pattern_spec(bits, ss, sw).len(),
        square_pattern_spec(bits, ss, sw)[square_pixel_index(ss, sw, i, dy, dx)] == bits[i],
{
    lemma_position_bound(bits.len() as int, ss, sw, i, dy, dx);
    lemma_pixel_at(bits, ss, sw, i / sw, dy, i % sw, dx);
}

/// The pattern is a picture `sw * ss` pixels wide, listed row by row: the
/// pixel in pixel row `y`, column `x` is the bit whose square covers it, bit
/// `(y / ss) * sw + x / ss`; the picture has `ss` pixel rows for each row of
/// `sw` bits.
pub proof fn lemma_pattern_as_picture(bits: Seq<bool>, ss: int, sw: int, y: int, x: int)
    requires
        ss >= 1,
        sw >= 1,
        (bits.len() as int) % sw == 0,
        0 <= y < ((bits.len() as int) / sw) * ss,
        0 <= x < sw * ss,
    ensures
        0 <= y * (sw * ss) + x < square_pattern_spec(bits, ss, sw).len(),
        square_pattern_spec(bits, ss, sw).len() == (((bits.len() as int) / sw) * ss) * (sw * ss),
        0 <= (y / ss) * sw + x / ss < bits.len(),
        square_pattern_spec(bits, ss, sw)[y * (sw * ss) + x] == bits[(y / ss) * sw + x / ss],
{
    let len = bits.len() as int;
    let nl = len / sw;
    lemma_fundamental_div_mod(len, sw);
    assert(len == nl * sw) by (nonlinear_arith)
        requires len == sw * nl + 0;
    let q = y / ss;
    let dy = y % ss;
    let c = x / ss;
    let dx = x % ss;
    lemma_fundamental_div_mod(y, ss);
    lemma_fundamental_div_mod(x, ss);
    assert(y == q * ss + dy && x == c * ss + dx) by (nonlinear_arith)
        requires y == ss * q + dy, x == ss * c + dx;
    assert(0 <= q < nl) by (nonlinear_arith)
        requires y == q * ss + dy, 0 <= dy < ss, 0 <= y < nl * ss, ss >= 1;
    assert(0 <= c < sw) by (nonlinear_arith)
        requires x == c * ss + dx, 0 <= dx < ss, 0 <= x < sw * ss, ss >= 1;
    assert(y * (sw * ss) + x == q * (sw * ss * ss) + dy * (sw * ss) + c * ss + dx)
        by (nonlinear_arith)
        requires y == q * ss + dy, x == c * ss + dx;
    lemma_pixel_at(bits, ss, sw, q, dy, c, dx);
    assert(square_pattern_spec(bits, ss, sw).len() == (nl * ss) * (sw * ss)) by (nonlinear_arith)
        requires square_pattern_spec(bits, ss, sw).len() == len * ss * ss, len == nl * sw;
    assert(0 <= y * (sw * ss) + x < (nl * ss) * (sw * ss)) by (nonlinear_arith)
        requires 0 <= y < nl * ss, 0 <= x < sw * ss, sw >= 1, ss >= 1;
    assert(0 <= q * sw + c < len) by (nonlinear_arith)
        requires 0 <= q < nl, 0 <= c < sw, len == nl * sw;
}

/// Which patterns can be drawn, in plain arithmetic: the square has a side
/// of at least 1, the frame width is a whole number `w / ss >= 1` of
/// squares, and the bits fill whole rows of `w / ss` squares. The width is
/// checked before the number of bits.
pub proof fn lemma_square_pattern_accepts(len: int, ss: int, w: int)
    requires
        len >= 0,
        ss >= 0,
        w >= 0,
    ensures
        square_pattern_error(len, ss, w) is None <==> (ss >= 1 && w >= ss && w % ss == 0 && len % (
        w / ss) == 0),
        square_pattern_error(len, ss, w) == Some(SquarePatternError::InvalidSquare) <==> ss == 0,
        square_pattern_error(len, ss, w) is Some && ss >= 1 && w >= ss && w % ss == 0
            ==> square_pattern_error(len, ss, w) == Some(
            SquarePatternError::InvalidBitVecLength(len as usize, ss as usize, w as usize),
        ),
{
    if ss >= 1 && w >= ss && w % ss == 0 {
        let sw = w / ss;
        lemma_div_is_ordered(ss, w, ss);
        lemma_div_by_self(ss);
        lemma_fundamental_div_mod(w, ss);
        assert(w == sw * ss) by (nonlinear_arith)
            requires w == ss * sw + 0;
        lemma_row_divisibility(len, ss, sw);
    }
}

/// Each pixel belongs to the square of a bit: pixel `k` is pixel row `dy`,
/// column `dx` of the square of bit `i` for the `i`, `dy`, `dx` below, and
/// shows that bit.
pub proof fn lemma_pixel_in_square(bits: Seq<bool>, ss: int, sw: int, k: int)
    requires
        ss >= 1,
        sw >= 1,
        (bits.len() as int) % sw == 0,
        0 <= k < square_pattern_spec(bits, ss, sw).len(),
    ensures
        ({
            let i = (k / (sw * ss * ss)) * sw + (k % (sw * ss)) / ss;
            let dy = (k % (sw * ss * ss)) / (sw * ss);
            let dx = k % ss;
            &&& 0 <= i < bits.len()
            &&& 0 <= dy < ss
            &&& 0 <= dx < ss
            &&& square_pixel_index(ss, sw, i, dy, dx) == k
            &&& square_pattern_spec(bits, ss, sw)[k] == bits[i]
        }),
{
    let len = bits.len() as int;
    let rl = sw * ss;
    let bl = sw * ss * ss;
    assert(rl >= 1 && bl >= 1 && bl == rl * ss) by (nonlinear_arith)
        requires rl == sw * ss, bl == sw * ss * ss, sw >= 1, ss >= 1;
    let q = k / bl;
    let rem = k % bl;
    let dy = rem / rl;
    let x = rem % rl;
    let c = x / ss;
    let dx = x % ss;
    lemma_fundamental_div_mod(k, bl);
    lemma_fundamental_div_mod(rem, rl);
    lemma_fundamental_div_mod(x, ss);
    lemma_fundamental_div_mod(len, sw);
    let nl = len / sw;
    assert(k == q * bl + rem && 0 <= rem < bl) by (nonlinear_arith)
        requires k == bl * q + rem, 0 <= rem < bl;
    assert(rem == dy * rl + x && 0 <= x < rl) by (nonlinear_arith)
        requires rem == rl * dy + x, 0 <= x < rl;
    assert(x == c * ss + dx && 0 <= dx < ss) by (nonlinear_arith)
        requires x == ss * c + dx, 0 <= dx < ss;
    assert(0 <= dy < ss) by (nonlinear_arith)
        requires rem == dy * rl + x, 0 <= rem < bl, 0 <= x < rl, bl == rl * ss, rl >= 1;
    assert(0 <= c < sw) by (nonlinear_arith)
        requires x == c * ss + dx, 0 <= x < rl, 0 <= dx < ss, rl == sw * ss, ss >= 1;
    assert(len == nl * sw && len * ss * ss == nl * bl) by (nonlinear_arith)
        requires len == sw * nl + 0, bl == sw * ss * ss;
    assert(0 <= q < nl) by (nonlinear_arith)
        requires k == q * bl + rem, 0 <= rem < bl, 0 <= k < nl * bl, bl >= 1;
    let i = q * sw + c;
    assert(0 <= i < len) by (nonlinear_arith)
        requires i == q * sw + c, 0 <= q < nl, 0 <= c < sw, len == nl * sw;
    lemma_fundamental_div_mod_converse(i, sw, q, c);
    assert(k == (q * ss + dy) * rl + x) by (nonlinear_arith)
        requires k == q * bl + rem, rem == dy * rl + x, bl == rl * ss;
    lemma_fundamental_div_mod_converse(k, rl, q * ss + dy, x);
    assert(k == ((q * ss + dy) * sw + c) * ss + dx) by (nonlinear_arith)
        requires k == (q * ss + dy) * rl + x, x == c * ss + dx, rl == sw * ss;
    lemma_fundamental_div_mod_converse(k, ss, (q * ss + dy) * sw + c, dx);
    assert(square_pixel_index(ss, sw, i, dy, dx) == q * bl + dy * rl + c * ss + dx);
}

/// The squares of distinct bits do not overlap, and within a square distinct
/// pixel rows and columns give distinct pixels.
pub proof fn lemma_squares_are_disjoint(
    ss: int,
    sw: int,
    i1: int,
    dy1: int,
    dx1: int,
    i2: int,
    dy2: int,
    dx2: int,
)
    requires
        ss >= 1,
        sw >= 1,
        i1 >= 0,
        i2 >= 0,
        0 <= dy1 < ss,
        0 <= dx1 < ss,
        0 <= dy2 < ss,
        0 <= dx2 < ss,
        square_pixel_index(ss, sw, i1, dy1, dx1) == square_pixel_index(ss, sw, i2, dy2, dx2),
    ensures
        i1 == i2,
        dy1 == dy2,
        dx1 == dx2,
{
    lemma_index_parts(ss, sw, i1, dy1, dx1);
    lemma_index_parts(ss, sw, i2, dy2, dx2);
    lemma_fundamental_div_mod(i1, sw);
    lemma_fundamental_div_mod(i2, sw);
}

/// The bit, pixel row and column of a square pixel can be read back from its
/// index.
proof fn lemma_index_parts(ss: int, sw: int, i: int, dy: int, dx: int)
    requires
        ss >= 1,
        sw >= 1,
        i >= 0,
        0 <= dy < ss,
        0 <= dx < ss,
    ensures
        ({
            let k = square_pixel_index(ss, sw, i, dy, dx);
            let inner = k % (sw * ss * ss);
            &&& k / (sw * ss * ss) == i / sw
            &&& inner / (sw * ss) == dy
            &&& (inner % (sw * ss)) / ss == i % sw
            &&& (inner % (sw * ss)) % ss == dx
        }),
{
    let rl = sw * ss;
    let bl = sw * ss * ss;
    let q = i / sw;
    let c = i % sw;
    lemma_fundamental_div_mod(i, sw);
    assert(q >= 0 && 0 <= c < sw) by (nonlinear_arith)
        requires i == sw * q + c, 0 <= c < sw, i >= 0, sw >= 1;
    let k = square_pixel_index(ss, sw, i, dy, dx);
    assert(0 <= c * ss + dx < rl) by (nonlinear_arith)
        requires 0 <= c < sw, 0 <= dx < ss, rl == sw * ss;
    assert(0 <= dy * rl + c * ss + dx < bl) by (nonlinear_arith)
        requires 0 <= dy < ss, 0 <= c * ss + dx < rl, rl == sw * ss, bl == sw * ss * ss;
    lemma_fundamental_div_mod_converse(k, bl, q, dy * rl + c * ss + dx);
    lemma_fundamental_div_mod_converse(dy * rl + c * ss + dx, rl, dy, c * ss + dx);
    lemma_fundamental_div_mod_converse(c * ss + dx, ss, c, dx);
}

/// The pixel index that a walk state points at: the pixels of the full rows
/// of squares before the current one, the full pixel rows of the current row
/// of squares, then the pixels of the current pixel row.
spec fn walk_position(idx: int, row: int, col: int, ss: int, sw: int) -> int {
    (idx / sw) * (sw * ss * ss) + row * (sw * ss) + (idx % sw) * ss + col
}

/// The pixel at row `row`, column `col` of the square of bit `q * sw + c` is
/// that bit.
proof fn lemma_pixel_at(bits: Seq<bool>, ss: int, sw: int, q: int, row: int, c: int, col: int)
    requires
        ss >= 1,
        sw >= 1,
        q >= 0,
        0 <= row < ss,
        0 <= c < sw,
        0 <= col < ss,
    ensures
        pattern_pixel(bits, ss, sw, q * (sw * ss * ss) + row * (sw * ss) + c * ss + col)
            == bits[q * sw + c],
{
    let rl = sw * ss;
    let bl = sw * ss * ss;
    let k = q * bl + row * rl + c * ss + col;
    assert(0 <= c * ss + col < rl) by (nonlinear_arith)
        requires 0 <= c < sw, 0 <= col < ss, rl == sw * ss;
    assert(0 <= row * rl + c * ss + col < bl) by (nonlinear_arith)
        requires 0 <= row < ss, 0 <= c * ss + col < rl, rl == sw * ss, bl == sw * ss * ss;
    lemma_fundamental_div_mod_converse(k, bl, q, row * rl + c * ss + col);
    assert(k == (q * ss + row) * rl + (c * ss + col)) by (nonlinear_arith)
        requires k == q * bl + row * rl + c * ss + col, rl == sw * ss, bl == sw * ss * ss;
    lemma_fundamental_div_mod_converse(k, rl, q * ss + row, c * ss + col);
    lemma_fundamental_div_mod_converse(c * ss + col, ss, c, col);
}

/// One step of the walk moves the position forward by one pixel: to the next
/// column of the square, to the next square in the pixel row, back to the
/// first square for the next pixel row, or on to the next row of squares.
proof fn lemma_step(q: int, c: int, row: int, col: int, ss: int, sw: int)
    requires
        ss >= 1,
        sw >= 1,
        q >= 0,
        0 <= row < ss,
        0 <= c < sw,
        0 <= col < ss,
    ensures
        ({
            let idx = q * sw + c;
            let p = walk_position(idx, row, col, ss, sw);
            &&& col + 1 < ss ==> walk_position(idx, row, col + 1, ss, sw) == p + 1
            &&& col + 1 == ss && c + 1 < sw ==> {
                &&& (idx + 1) % sw != 0
                &&& walk_position(idx + 1, row, 0, ss, sw) == p + 1
            }
            &&& col + 1 == ss && c + 1 == sw ==> {
                &&& (idx + 1) % sw == 0
                &&& idx + 1 >= sw
                &&& (row + 1 < ss ==> walk_position(idx + 1 - sw, row + 1, 0, ss, sw) == p + 1)
                &&& (row + 1 == ss ==> walk_position(idx + 1, 0, 0, ss, sw) == p + 1)
            }
        }),
{
    let idx = q * sw + c;
    let rl = sw * ss;
    let bl = sw * ss * ss;
    lemma_fundamental_div_mod_converse(idx, sw, q, c);
    if c + 1 < sw {
        lemma_fundamental_div_mod_converse(idx + 1, sw, q, c + 1);
        assert((c + 1) * ss == c * ss + ss) by (nonlinear_arith);
    } else {
        assert(idx + 1 == (q + 1) * sw + 0) by (nonlinear_arith)
            requires idx == q * sw + c, c + 1 == sw;
        lemma_fundamental_div_mod_converse(idx + 1, sw, q + 1, 0);
        lemma_fundamental_div_mod_converse(idx + 1 - sw, sw, q, 0);
        assert(c * ss + ss == rl) by (nonlinear_arith)
            requires c + 1 == sw, rl == sw * ss;
        assert(idx + 1 >= sw) by (nonlinear_arith)
            requires idx + 1 == (q + 1) * sw, q >= 0, sw >= 1;
        assert((row + 1) * rl == row * rl + rl) by (nonlinear_arith);
        assert((q + 1) * bl == q * bl + bl) by (nonlinear_arith);
        assert(row + 1 == ss ==> row * rl + rl == bl) by (nonlinear_arith)
            requires rl == sw * ss, bl == sw * ss * ss;
        assert((idx + 1 - sw) % sw == 0);
        assert(((idx + 1 - sw) % sw) * ss == 0);
        assert(walk_position(idx + 1 - sw, row + 1, 0, ss, sw) == q * bl + (row + 1) * rl);
        assert(walk_position(idx, row, col, ss, sw) == q * bl + row * rl + c * ss + col);
    }
}

/// Where a consistent walk state stands against the end of the pattern.
proof fn lemma_position_bound(len: int, ss: int, sw: int, idx: int, row: int, col: int)
    requires
        ss >= 1,
        sw >= 1,
        len >= 0,
        len % sw == 0,
        0 <= idx <= len,
        0 <= row < ss,
        0 <= col < ss,
        idx == len ==> row == 0 && col == 0,
    ensures
        0 <= walk_position(idx, row, col, ss, sw),
        idx < len ==> walk_position(idx, row, col, ss, sw) < len * ss * ss,
        idx == len ==> walk_position(idx, row, col, ss, sw) == len * ss * ss,
        idx == (idx / sw) * sw + idx % sw,
        0 <= idx % sw < sw,
        idx / sw >= 0,
{
    let q = idx / sw;
    let c = idx % sw;
    let nl = len / sw;
    lemma_fundamental_div_mod(idx, sw);
    lemma_fundamental_div_mod(len, sw);
    assert(idx == q * sw + c && len == nl * sw) by (nonlinear_arith)
        requires idx == sw * q + c, len == sw * nl + 0;
    assert(q >= 0 && nl >= 0) by (nonlinear_arith)
        requires idx == q * sw + c, len == nl * sw, idx >= 0, len >= 0, 0 <= c < sw, sw >= 1;
    assert(0 <= q * (sw * ss * ss) + row * (sw * ss) + c * ss + col) by (nonlinear_arith)
        requires q >= 0, row >= 0, c >= 0, col >= 0, sw >= 1, ss >= 1;
    if idx < len {
        assert(q < nl) by (nonlinear_arith)
            requires idx == q * sw + c, len == nl * sw, idx < len, 0 <= c, sw >= 1;
        assert(q * (sw * ss * ss) + row * (sw * ss) + c * ss + col < len * ss * ss)
            by (nonlinear_arith)
            requires
                q < nl, len == nl * sw, 0 <= row < ss, 0 <= c < sw, 0 <= col < ss, q >= 0,
                sw >= 1, ss >= 1;
    } else {
        assert(c == 0 && q == nl) by (nonlinear_arith)
            requires idx == q * sw + c, len == nl * sw, idx == len, 0 <= c < sw, sw >= 1;
        assert(q * (sw * ss * ss) == len * ss * ss) by (nonlinear_arith)
            requires q == nl, len == nl * sw;
    }
}

/// With frames `sw * ss` pixels wide, `len * ss` is a multiple of the frame
/// width exactly when `len` is a multiple of `sw`.
proof fn lemma_row_divisibility(len: int, ss: int, sw: int)
    requires
        len >= 0,
        ss >= 1,
        sw >= 1,
    ensures
        ((len * ss) % (sw * ss) == 0) <==> (len % sw == 0),
{
    let q = len / sw;
    let r = len % sw;
    lemma_fundamental_div_mod(len, sw);
    assert(len == q * sw + r && 0 <= r < sw) by (nonlinear_arith)
        requires len == sw * q + r, 0 <= r < sw;
    assert(len * ss == q * (sw * ss) + r * ss && 0 <= r * ss < sw * ss) by (nonlinear_arith)
        requires len == q * sw + r, 0 <= r < sw, ss >= 1;
    lemma_fundamental_div_mod_converse(len * ss, sw * ss, q, r * ss);
    assert(r * ss == 0 <==> r == 0) by (nonlinear_arith)
        requires ss >= 1, r >= 0;
}

} // verus!
