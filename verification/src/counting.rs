//! How many set and clear pixels a square pattern has.

use vstd::prelude::*;
use vstd::arithmetic::div_mod::{lemma_fundamental_div_mod, lemma_fundamental_div_mod_converse};
use crate::iter::{lemma_pixel_in_square, square_pattern_spec, square_pixel_index};

verus! {

/// The number of set bits in `s`.
pub open spec fn count_set(s: Seq<bool>) -> nat
    decreases s.len(),
{
    if s.len() == 0 {
        0
    } else {
        count_set(s.drop_last()) + if s.last() {
            1nat
        } else {
            0nat
        }
    }
}

/// Each element of `s` repeated `r` times in place.
spec fn repeat_each(s: Seq<bool>, r: int) -> Seq<bool> {
    Seq::new((s.len() * r) as nat, |k: int| s[k / r])
}

/// The whole of `s` (of length `n`), `j` times over.
spec fn repeat_whole(s: Seq<bool>, n: int, j: int) -> Seq<bool> {
    Seq::new((j * n) as nat, |t: int| s[t % n])
}

/// The rows of `sw` bits of `bits`, each repeated `ss` times.
spec fn repeat_rows(bits: Seq<bool>, ss: int, sw: int) -> Seq<bool> {
    Seq::new((bits.len() * ss) as nat, |t: int| bits[((t / sw) / ss) * sw + t % sw])
}

/// Every bit is drawn as `ss * ss` pixels: the pattern has `ss * ss` set
/// pixels for each set bit and `ss * ss` clear pixels for each clear bit.
pub proof fn lemma_pattern_counts(bits: Seq<bool>, ss: int, sw: int)
    requires
        ss >= 1,
        sw >= 1,
        (bits.len() as int) % sw == 0,
    ensures
        count_set(square_pattern_spec(bits, ss, sw)) == ss * ss * count_set(bits),
        square_pattern_spec(bits, ss, sw).len() - count_set(square_pattern_spec(bits, ss, sw))
            == ss * ss * (bits.len() - count_set(bits)),
{
    let pattern = square_pattern_spec(bits, ss, sw);
    let rows = repeat_rows(bits, ss, sw);
    assert(pattern.len() == rows.len() * ss) by (nonlinear_arith)
        requires pattern.len() == bits.len() * ss * ss, rows.len() == bits.len() * ss;
    assert forall|k: int| 0 <= k < pattern.len() implies #[trigger] pattern[k] == rows[k / ss] by {
        lemma_pattern_is_expanded_rows(bits, ss, sw, k);
    }
    assert(pattern =~= repeat_each(rows, ss));
    lemma_count_repeat_each(rows, ss);
    lemma_count_repeat_rows(bits, ss, sw);
    lemma_count_bounded(bits);
    assert(ss * (ss * count_set(bits)) == ss * ss * count_set(bits)) by (nonlinear_arith);
    assert(bits.len() * ss * ss - ss * ss * count_set(bits) == ss * ss * (bits.len()
        - count_set(bits))) by (nonlinear_arith);
}

/// Pixel `k` of the pattern is element `k / ss` of the repeated rows.
proof fn lemma_pattern_is_expanded_rows(bits: Seq<bool>, ss: int, sw: int, k: int)
    requires
        ss >= 1,
        sw >= 1,
        (bits.len() as int) % sw == 0,
        0 <= k < square_pattern_spec(bits, ss, sw).len(),
    ensures
        0 <= k / ss < repeat_rows(bits, ss, sw).len(),
        square_pattern_spec(bits, ss, sw)[k] == repeat_rows(bits, ss, sw)[k / ss],
{
    lemma_pixel_in_square(bits, ss, sw, k);
    let i = (k / (sw * ss * ss)) * sw + (k % (sw * ss)) / ss;
    let dy = (k % (sw * ss * ss)) / (sw * ss);
    let dx = k % ss;
    let q = i / sw;
    let c = i % sw;
    lemma_fundamental_div_mod(i, sw);
    assert(q >= 0 && 0 <= c < sw) by (nonlinear_arith)
        requires i == sw * q + c, 0 <= c < sw, i >= 0, sw >= 1;
    assert(square_pixel_index(ss, sw, i, dy, dx) == q * (sw * ss * ss) + dy * (sw * ss) + c * ss + dx);
    let t = (q * ss + dy) * sw + c;
    assert(k == t * ss + dx) by (nonlinear_arith)
        requires
            k == q * (sw * ss * ss) + dy * (sw * ss) + c * ss + dx,
            t == (q * ss + dy) * sw + c;
    lemma_fundamental_div_mod_converse(k, ss, t, dx);
    lemma_fundamental_div_mod_converse(t, sw, q * ss + dy, c);
    lemma_fundamental_div_mod_converse(q * ss + dy, ss, q, dy);
    assert(i == q * sw + c) by (nonlinear_arith)
        requires i == sw * q + c;
    let n = bits.len() as int;
    assert(0 <= t < n * ss) by (nonlinear_arith)
        requires k == t * ss + dx, 0 <= dx < ss, 0 <= k < n * ss * ss, ss >= 1, q >= 0, dy >= 0, c >= 0,
            t == (q * ss + dy) * sw + c, sw >= 1;
}

/// Set bits add up over a concatenation.
proof fn lemma_count_concat(a: Seq<bool>, b: Seq<bool>)
    ensures
        count_set(a + b) == count_set(a) + count_set(b),
    decreases b.len(),
{
    if b.len() == 0 {
        assert(a + b =~= a);
    } else {
        lemma_count_concat(a, b.drop_last());
        assert((a + b).drop_last() =~= a + b.drop_last());
    }
}

/// There are no more set bits than bits.
proof fn lemma_count_bounded(s: Seq<bool>)
    ensures
        count_set(s) <= s.len(),
    decreases s.len(),
{
    if s.len() > 0 {
        lemma_count_bounded(s.drop_last());
    }
}

/// `n` copies of one bit.
proof fn lemma_count_const(n: nat, b: bool)
    ensures
        count_set(Seq::new(n, |k: int| b)) == if b {
            n
        } else {
            0
        },
    decreases n,
{
    if n > 0 {
        lemma_count_const((n - 1) as nat, b);
        assert(Seq::new(n, |k: int| b).drop_last() =~= Seq::new((n - 1) as nat, |k: int| b));
    }
}

/// Repeating each bit `r` times multiplies the set bits by `r`.
proof fn lemma_count_repeat_each(s: Seq<bool>, r: int)
    requires
        r >= 1,
    ensures
        count_set(repeat_each(s, r)) == r * count_set(s),
    decreases s.len(),
{
    let m = s.len() as int;
    if m == 0 {
        assert(repeat_each(s, r).len() == 0) by (nonlinear_arith)
            requires repeat_each(s, r).len() == m * r, m == 0;
        assert(count_set(s) == 0);
        assert(r * count_set(s) == 0) by (nonlinear_arith)
            requires count_set(s) == 0;
    } else {
        let init = s.drop_last();
        lemma_count_repeat_each(init, r);
        let tail = Seq::new(r as nat, |k: int| s.last());
        assert(repeat_each(s, r).len() == repeat_each(init, r).len() + r) by (nonlinear_arith)
            requires
                repeat_each(s, r).len() == m * r,
                repeat_each(init, r).len() == (m - 1) * r;
        assert forall|k: int| 0 <= k < repeat_each(s, r).len() implies #[trigger] repeat_each(
            s,
            r,
        )[k] == (repeat_each(init, r) + tail)[k] by {
            lemma_fundamental_div_mod(k, r);
            if k < (m - 1) * r {
                assert(k / r < m - 1) by (nonlinear_arith)
                    requires k == r * (k / r) + k % r, 0 <= k % r, k < (m - 1) * r, r >= 1;
                assert(k / r >= 0) by (nonlinear_arith)
                    requires k == r * (k / r) + k % r, k % r < r, k >= 0, r >= 1;
            } else {
                assert(k == (m - 1) * r + (k - (m - 1) * r));
                assert(k < m * r) by (nonlinear_arith)
                    requires k < repeat_each(s, r).len(), repeat_each(s, r).len() == m * r;
                assert(0 <= k - (m - 1) * r < r) by (nonlinear_arith)
                    requires (m - 1) * r <= k, k < m * r;
                lemma_fundamental_div_mod_converse(k, r, m - 1, k - (m - 1) * r);
            }
        }
        assert(repeat_each(s, r) =~= repeat_each(init, r) + tail);
        lemma_count_concat(repeat_each(init, r), tail);
        lemma_count_const(r as nat, s.last());
        assert(r * count_set(s) == r * count_set(init) + if s.last() {
            r
        } else {
            0
        }) by (nonlinear_arith)
            requires
                count_set(s) == count_set(init) + if s.last() {
                    1nat
                } else {
                    0nat
                };
    }
}

/// Repeating a sequence of `n` bits `j` times multiplies the set bits by
/// `j`.
proof fn lemma_count_repeat_whole(s: Seq<bool>, n: int, j: int)
    requires
        n >= 1,
        s.len() == n,
        j >= 0,
    ensures
        count_set(repeat_whole(s, n, j)) == j * count_set(s),
    decreases j,
{
    if j == 0 {
        assert(j * n == 0 && j * count_set(s) == 0) by (nonlinear_arith)
            requires j == 0;
        assert(repeat_whole(s, n, j) =~= Seq::<bool>::empty());
    } else {
        lemma_count_repeat_whole(s, n, j - 1);
        assert(repeat_whole(s, n, j).len() == repeat_whole(s, n, j - 1).len() + n)
            by (nonlinear_arith)
            requires
                repeat_whole(s, n, j).len() == j * n,
                repeat_whole(s, n, j - 1).len() == (j - 1) * n;
        assert forall|t: int| 0 <= t < repeat_whole(s, n, j).len() implies #[trigger] repeat_whole(
            s,
            n,
            j,
        )[t] == (repeat_whole(s, n, j - 1) + s)[t] by {
            if t >= (j - 1) * n {
                lemma_fundamental_div_mod_converse(t, n, j - 1, t - (j - 1) * n);
            }
        }
        assert(repeat_whole(s, n, j) =~= repeat_whole(s, n, j - 1) + s);
        lemma_count_concat(repeat_whole(s, n, j - 1), s);
        assert(j * count_set(s) == (j - 1) * count_set(s) + count_set(s)) by (nonlinear_arith);
    }
}

/// Repeating each row of `sw` bits `ss` times multiplies the set bits by
/// `ss`.
proof fn lemma_count_repeat_rows(bits: Seq<bool>, ss: int, sw: int)
    requires
        ss >= 1,
        sw >= 1,
        (bits.len() as int) % sw == 0,
    ensures
        count_set(repeat_rows(bits, ss, sw)) == ss * count_set(bits),
    decreases bits.len(),
{
    let n = bits.len() as int;
    if n == 0 {
        assert(n * ss == 0) by (nonlinear_arith)
            requires n == 0;
        assert(count_set(bits) == 0);
        assert(ss * count_set(bits) == 0) by (nonlinear_arith)
            requires count_set(bits) == 0;
        assert(repeat_rows(bits, ss, sw) =~= Seq::<bool>::empty());
    } else {
        lemma_fundamental_div_mod(n, sw);
        let l = n / sw;
        assert(n == l * sw && l >= 1) by (nonlinear_arith)
            requires n == sw * l + 0, n >= 1, sw >= 1;
        let p = n - sw;
        assert(p == (l - 1) * sw) by (nonlinear_arith)
            requires n == l * sw, p == n - sw;
        let head = bits.take(p);
        let last_row = bits.skip(p);
        lemma_fundamental_div_mod_converse(p, sw, l - 1, 0);
        lemma_count_repeat_rows(head, ss, sw);
        let block = repeat_whole(last_row, sw, ss);
        assert(repeat_rows(bits, ss, sw).len() == repeat_rows(head, ss, sw).len() + block.len())
            by (nonlinear_arith)
            requires
                repeat_rows(bits, ss, sw).len() == n * ss,
                repeat_rows(head, ss, sw).len() == p * ss,
                block.len() == ss * sw,
                p == n - sw;
        assert forall|t: int| 0 <= t < repeat_rows(bits, ss, sw).len() implies #[trigger] repeat_rows(
            bits,
            ss,
            sw,
        )[t] == (repeat_rows(head, ss, sw) + block)[t] by {
            lemma_fundamental_div_mod(t, sw);
            let a = t / sw;
            let b = t % sw;
            lemma_fundamental_div_mod(a, ss);
            if t < p * ss {
                assert(a < (l - 1) * ss) by (nonlinear_arith)
                    requires t == sw * a + b, 0 <= b, t < p * ss, p == (l - 1) * sw, sw >= 1;
                assert(a >= 0) by (nonlinear_arith)
                    requires t == sw * a + b, b < sw, t >= 0, sw >= 1;
                assert((a / ss) * sw + b < p) by (nonlinear_arith)
                    requires
                        a == ss * (a / ss) + a % ss,
                        0 <= a % ss,
                        a < (l - 1) * ss,
                        0 <= b < sw,
                        p == (l - 1) * sw,
                        ss >= 1;
                assert((a / ss) * sw + b >= 0) by (nonlinear_arith)
                    requires a == ss * (a / ss) + a % ss, a % ss < ss, a >= 0, b >= 0, ss >= 1,
                        sw >= 1;
            } else {
                let u = t - p * ss;
                assert(0 <= u < ss * sw) by (nonlinear_arith)
                    requires
                        u == t - p * ss,
                        t >= p * ss,
                        t < n * ss,
                        p == n - sw;
                lemma_fundamental_div_mod(u, sw);
                let a2 = u / sw;
                let b2 = u % sw;
                assert(0 <= a2 < ss) by (nonlinear_arith)
                    requires u == sw * a2 + b2, 0 <= b2 < sw, 0 <= u < ss * sw, sw >= 1;
                assert(t == sw * ((l - 1) * ss + a2) + b2) by (nonlinear_arith)
                    requires u == sw * a2 + b2, u == t - p * ss, p == (l - 1) * sw;
                lemma_fundamental_div_mod_converse(t, sw, (l - 1) * ss + a2, b2);
                lemma_fundamental_div_mod_converse((l - 1) * ss + a2, ss, l - 1, a2);
                assert((l - 1) * sw + b2 == p + b2);
            }
        }
        assert(repeat_rows(bits, ss, sw) =~= repeat_rows(head, ss, sw) + block);
        lemma_count_concat(repeat_rows(head, ss, sw), block);
        lemma_count_repeat_whole(last_row, sw, ss);
        assert(bits =~= head + last_row);
        lemma_count_concat(head, last_row);
        assert(ss * count_set(bits) == ss * count_set(head) + ss * count_set(last_row))
            by (nonlinear_arith)
            requires count_set(bits) == count_set(head) + count_set(last_row);
    }
}

} // verus!
