//! Symbol folding: a raw symbol becomes a small folded symbol plus a few tail
//! chunks of `radix` bits each, kept in a side stream of bytes (one chunk per
//! byte, lowest chunk first).
use crate::bits::pow2_u64;
use crate::estimators::{floor_log2, lemma_floor_log2_bound};
use crate::MAX_RAW_SYMBOL;
use vstd::arithmetic::div_mod::*;
use vstd::arithmetic::mul::*;
use vstd::arithmetic::power2::*;
use vstd::prelude::*;

verus! {

/// The largest fidelity.
pub const MAX_FIDELITY: usize = 11;

/// The largest radix.
pub const MAX_RADIX: usize = 8;

/// Width of the low field of a quasi-folded word, which holds the number of tail bits.
pub const QUASI_COUNT_BITS: u64 = 8;

/// Fidelity and radix within their ranges.
pub open spec fn valid_params(fidelity: nat, radix: nat) -> bool {
    1 <= fidelity <= MAX_FIDELITY && 1 <= radix <= MAX_RADIX
}

/// The folding threshold `2^(F+R-1)`: symbols below it are singletons.
pub open spec fn threshold(fidelity: nat, radix: nat) -> nat {
    pow2((fidelity + radix - 1) as nat)
}

/// The folding offset `2^(F-1) * (2^R - 1)`: the width of the range of folded
/// symbols of each bucket.
pub open spec fn offset(fidelity: nat, radix: nat) -> nat {
    pow2((fidelity - 1) as nat) * ((pow2(radix) - 1) as nat)
}

/// The number of cuts of `radix` bits that bring `s` below `2^fidelity`.
pub open spec fn cut_count(s: nat, fidelity: nat, radix: nat) -> nat
    decreases s,
{
    if radix == 0 || s < pow2(fidelity) {
        0
    } else {
        proof {
            lemma_pow2_pos(fidelity);
            lemma2_to64();
            lemma_pow2_strictly_increases(0, radix);
            lemma_div_decreases(s as int, pow2(radix) as int);
        }
        1 + cut_count(s / pow2(radix), fidelity, radix)
    }
}

/// What is left of `s` after those cuts.
pub open spec fn cut_top(s: nat, fidelity: nat, radix: nat) -> nat
    decreases s,
{
    if radix == 0 || s < pow2(fidelity) {
        s
    } else {
        proof {
            lemma_pow2_pos(fidelity);
            lemma2_to64();
            lemma_pow2_strictly_increases(0, radix);
            lemma_div_decreases(s as int, pow2(radix) as int);
        }
        cut_top(s / pow2(radix), fidelity, radix)
    }
}

/// The chunks that those cuts remove, lowest first.
pub open spec fn cut_tail(s: nat, fidelity: nat, radix: nat) -> Seq<u8>
    decreases s,
{
    if radix == 0 || s < pow2(fidelity) {
        Seq::empty()
    } else {
        proof {
            lemma_pow2_pos(fidelity);
            lemma2_to64();
            lemma_pow2_strictly_increases(0, radix);
            lemma_div_decreases(s as int, pow2(radix) as int);
        }
        seq![(s % pow2(radix)) as u8] + cut_tail(s / pow2(radix), fidelity, radix)
    }
}

/// The number of tail chunks that folding `s` writes: none for a singleton,
/// else as many as bring it below `2^F`, that is `⌈(b - F) / R⌉` for a
/// symbol of `b` bits (see `lemma_chunks_ceiling`).
pub open spec fn fold_chunks(s: nat, fidelity: nat, radix: nat) -> nat {
    if s < threshold(fidelity, radix) {
        0
    } else {
        cut_count(s, fidelity, radix)
    }
}

/// What is left of `s` once its tail chunks are cut: its top `F` bits at most.
pub open spec fn fold_top(s: nat, fidelity: nat, radix: nat) -> nat {
    if s < threshold(fidelity, radix) {
        s
    } else {
        cut_top(s, fidelity, radix)
    }
}

/// The tail chunks of `s`, lowest first, in the order they are appended.
pub open spec fn fold_tail(s: nat, fidelity: nat, radix: nat) -> Seq<u8> {
    if s < threshold(fidelity, radix) {
        Seq::empty()
    } else {
        cut_tail(s, fidelity, radix)
    }
}

/// The folded symbol of `s`: its top, shifted by one offset per tail chunk.
pub open spec fn folded_symbol(s: nat, fidelity: nat, radix: nat) -> nat {
    fold_top(s, fidelity, radix) + fold_chunks(s, fidelity, radix) * offset(fidelity, radix)
}

/// The number of tail chunks of the raw symbols that fold to `x`.
pub open spec fn unfold_chunks(x: nat, fidelity: nat, radix: nat) -> nat {
    if x < threshold(fidelity, radix) {
        0
    } else if radix == 1 {
        ((x - threshold(fidelity, radix)) / (offset(fidelity, radix) as int) + 1) as nat
    } else {
        x / offset(fidelity, radix)
    }
}

/// The top of the raw symbols that fold to `x`.
pub open spec fn unfold_top(x: nat, fidelity: nat, radix: nat) -> int {
    x - unfold_chunks(x, fidelity, radix) * offset(fidelity, radix)
}

/// The quasi-folded word of folded symbol `x`: its top above a low byte that
/// holds the number of tail bits.
pub open spec fn quasi_folded(x: nat, fidelity: nat, radix: nat) -> int {
    unfold_top(x, fidelity, radix) * pow2(QUASI_COUNT_BITS as nat) + unfold_chunks(
        x,
        fidelity,
        radix,
    ) * radix
}

/// Pops `k` chunks from the end of `fs` into `acc`; returns the value and what
/// is left of the stream.
pub open spec fn unfold_stream(acc: nat, fs: Seq<u8>, k: nat, radix: nat) -> (nat, Seq<u8>)
    decreases k,
{
    if k == 0 {
        (acc, fs)
    } else {
        unfold_stream((acc * pow2(radix) + fs.last()) as nat, fs.drop_last(), (k - 1) as nat, radix)
    }
}

/// Unfolding the quasi-folded word `q` against the stream `fs`: the raw symbol
/// and the stream without the chunks read, or `None` when the stream is too
/// short or the result is not a raw symbol.
pub open spec fn unfold_quasi(q: nat, radix: nat, fs: Seq<u8>) -> Option<(nat, Seq<u8>)> {
    let top = q / pow2(QUASI_COUNT_BITS as nat);
    let k = (q % pow2(QUASI_COUNT_BITS as nat)) / radix;
    if k <= fs.len() && unfold_stream(top, fs, k, radix).0 <= MAX_RAW_SYMBOL {
        Some(unfold_stream(top, fs, k, radix))
    } else {
        None
    }
}

/// The threshold is the offset plus `2^(F-1)`.
pub proof fn lemma_threshold_offset(fidelity: nat, radix: nat)
    requires
        valid_params(fidelity, radix),
    ensures
        threshold(fidelity, radix) == pow2((fidelity - 1) as nat) * pow2(radix),
        threshold(fidelity, radix) == offset(fidelity, radix) + pow2((fidelity - 1) as nat),
        offset(fidelity, radix) >= 1,
        threshold(fidelity, radix) <= pow2(18),
        offset(fidelity, radix) < pow2(18),
        pow2(radix) >= 2,
        pow2(radix) <= 256,
{
    lemma_pow2_adds((fidelity - 1) as nat, radix);
    assert((fidelity - 1) as nat + radix == (fidelity + radix - 1) as nat);
    lemma2_to64();
    lemma_pow2_strictly_increases(0, radix);
    if radix < 8 {
        lemma_pow2_strictly_increases(radix, 8);
    }
    if fidelity + radix - 1 < 18 {
        lemma_pow2_strictly_increases((fidelity + radix - 1) as nat, 18);
    }
    let a = pow2((fidelity - 1) as nat) as int;
    let b = pow2(radix) as int;
    lemma_pow2_pos((fidelity - 1) as nat);
    assert(a * (b - 1) == a * b - a) by (nonlinear_arith);
    assert(a * (b - 1) >= 1) by (nonlinear_arith)
        requires
            a >= 1,
            b >= 2,
    ;
}

/// Facts on cutting `s` below `2^F`.
pub proof fn lemma_cut_basics(s: nat, fidelity: nat, radix: nat)
    requires
        valid_params(fidelity, radix),
    ensures
        cut_tail(s, fidelity, radix).len() == cut_count(s, fidelity, radix),
        forall|i: int|
            0 <= i < cut_tail(s, fidelity, radix).len() ==> #[trigger] cut_tail(
                s,
                fidelity,
                radix,
            )[i] < pow2(radix),
        cut_top(s, fidelity, radix) < pow2(fidelity),
        cut_count(s, fidelity, radix) == 0 <==> s < pow2(fidelity),
        cut_count(s, fidelity, radix) == 0 ==> cut_top(s, fidelity, radix) == s,
        s < pow2(fidelity + cut_count(s, fidelity, radix) * radix),
        cut_count(s, fidelity, radix) > 0 ==> pow2(
            (fidelity + (cut_count(s, fidelity, radix) - 1) * radix) as nat,
        ) <= s,
        cut_count(s, fidelity, radix) > 0 && radix == 1 ==> cut_top(s, fidelity, radix) >= pow2(
            (fidelity - 1) as nat,
        ),
        cut_count(s, fidelity, radix) == 1 ==> cut_top(s, fidelity, radix) == s / pow2(radix),
    decreases s,
{
    lemma_threshold_offset(fidelity, radix);
    lemma_pow2_pos(fidelity);
    let b = pow2(radix);
    let c = cut_count(s, fidelity, radix);
    if s < pow2(fidelity) {
        assert(fidelity + 0 * radix == fidelity);
    } else {
        let s2 = s / b;
        lemma_fundamental_div_mod(s as int, b as int);
        lemma_mod_pos_bound(s as int, b as int);
        lemma_div_decreases(s as int, b as int);
        lemma_cut_basics(s2, fidelity, radix);
        let c2 = cut_count(s2, fidelity, radix);
        let tail = cut_tail(s, fidelity, radix);
        let tail2 = cut_tail(s2, fidelity, radix);
        assert(tail == seq![(s % b) as u8] + tail2);
        assert forall|i: int| 0 <= i < tail.len() implies #[trigger] tail[i] < b by {
            if i > 0 {
                assert(tail[i] == tail2[i - 1]);
            }
        }
        // s < b * (s2 + 1) <= b * 2^(F + c2 R) = 2^(F + c R)
        let e2 = fidelity + c2 * radix;
        assert(fidelity + c * radix == e2 + radix) by (nonlinear_arith)
            requires
                c == c2 + 1,
                e2 == fidelity + c2 * radix,
        ;
        lemma_pow2_adds(e2 as nat, radix);
        let p2 = pow2(e2 as nat);
        assert(s2 < p2);
        lemma_mul_inequality(s2 as int + 1, p2 as int, b as int);
        assert((s2 + 1) * b == b * s2 + b) by (nonlinear_arith);
        assert(s < p2 * b);
        if c2 == 0 {
            assert((fidelity + (c - 1) * radix) as nat == fidelity);
        } else {
            let f2 = (fidelity + (c2 - 1) * radix) as nat;
            assert((fidelity + (c - 1) * radix) as nat == f2 + radix) by (nonlinear_arith)
                requires
                    c == c2 + 1,
                    c2 >= 1,
                    f2 == fidelity + (c2 - 1) * radix,
            ;
            lemma_pow2_adds(f2, radix);
            let q2 = pow2(f2);
            assert(q2 * b <= s) by (nonlinear_arith)
                requires
                    q2 <= s2,
                    s == b * s2 + s % b,
                    s % b >= 0,
                    b >= 0,
            ;
        }
        if radix == 1 {
            lemma_pow2_unfold(fidelity);
            lemma2_to64();
            assert(s2 >= pow2((fidelity - 1) as nat)) by {
                lemma_div_is_ordered(pow2(fidelity) as int, s as int, 2);
                lemma_div_by_multiple(pow2((fidelity - 1) as nat) as int, 2);
            }
        }
    }
}

/// Folding a symbol that is not a singleton cuts it at least once.
proof fn lemma_threshold_cut(fidelity: nat, radix: nat)
    requires
        valid_params(fidelity, radix),
    ensures
        pow2(fidelity) <= threshold(fidelity, radix),
{
    if fidelity < (fidelity + radix - 1) as nat {
        lemma_pow2_strictly_increases(fidelity, (fidelity + radix - 1) as nat);
    }
}

/// Basic facts on folding.
pub proof fn lemma_fold_basics(s: nat, fidelity: nat, radix: nat)
    requires
        valid_params(fidelity, radix),
    ensures
        fold_chunks(s, fidelity, radix) == 0 <==> s < threshold(fidelity, radix),
        fold_chunks(s, fidelity, radix) == 0 ==> fold_top(s, fidelity, radix) == s,
        fold_tail(s, fidelity, radix).len() == fold_chunks(s, fidelity, radix),
        forall|i: int|
            0 <= i < fold_tail(s, fidelity, radix).len() ==> #[trigger] fold_tail(
                s,
                fidelity,
                radix,
            )[i] < pow2(radix),
{
    lemma_cut_basics(s, fidelity, radix);
    lemma_threshold_cut(fidelity, radix);
}

/// A symbol of `b` bits that is not a singleton writes `⌈(b - F) / R⌉` chunks.
pub proof fn lemma_chunks_ceiling(s: nat, fidelity: nat, radix: nat)
    requires
        valid_params(fidelity, radix),
        s >= threshold(fidelity, radix),
    ensures
        fold_chunks(s, fidelity, radix) == (floor_log2(s) + 1 - fidelity + radix - 1) / (
        radix as int),
{
    lemma_cut_basics(s, fidelity, radix);
    lemma_threshold_cut(fidelity, radix);
    lemma_floor_log2_bound(s);
    let k = cut_count(s, fidelity, radix);
    let bits = floor_log2(s) + 1;
    // 2^(F + (k-1)R) <= s < 2^bits, so F + (k-1)R < bits.
    let lo = (fidelity + (k - 1) * radix) as nat;
    if lo >= bits {
        if lo > floor_log2(s) + 1 {
            lemma_pow2_strictly_increases((floor_log2(s) + 1) as nat, lo);
        }
    }
    // 2^(bits-1) <= s < 2^(F + kR), so bits <= F + kR.
    let hi = (fidelity + k * radix) as nat;
    if floor_log2(s) >= hi {
        if floor_log2(s) > hi {
            lemma_pow2_strictly_increases(hi, floor_log2(s));
        }
    }
    assert(k >= 1);
    let num = bits - fidelity + radix - 1;
    let rem = bits - fidelity - 1 - (k - 1) * radix;
    assert(num == k * radix + rem) by (nonlinear_arith)
        requires
            num == bits - fidelity + radix - 1,
            rem == bits - fidelity - 1 - (k - 1) * radix,
    ;
    assert(0 <= rem < radix) by (nonlinear_arith)
        requires
            rem == bits - fidelity - 1 - (k - 1) * radix,
            lo == fidelity + (k - 1) * radix,
            lo < bits,
            bits <= fidelity + k * radix,
            hi == fidelity + k * radix,
            k >= 1,
    ;
    lemma_fundamental_div_mod_converse(num, radix as int, k as int, rem);
}

/// Each step of unfolding keeps or grows the value.
pub proof fn lemma_unfold_grows(acc: nat, fs: Seq<u8>, k: nat, radix: nat)
    ensures
        unfold_stream(acc, fs, k, radix).0 >= acc,
    decreases k,
{
    if k > 0 {
        lemma_pow2_pos(radix);
        let b = pow2(radix);
        assert(acc * b >= acc) by (nonlinear_arith)
            requires
                b >= 1,
        ;
        lemma_unfold_grows(
            (acc * pow2(radix) + fs.last()) as nat,
            fs.drop_last(),
            (k - 1) as nat,
            radix,
        );
    }
}

/// One more chunk after `k` of them.
pub proof fn lemma_unfold_split(acc: nat, fs: Seq<u8>, k: nat, radix: nat)
    ensures
        unfold_stream(acc, fs, k + 1, radix) == ({
            let (a, g) = unfold_stream(acc, fs, k, radix);
            ((a * pow2(radix) + g.last()) as nat, g.drop_last())
        }),
    decreases k,
{
    let acc2 = (acc * pow2(radix) + fs.last()) as nat;
    assert(unfold_stream(acc, fs, k + 1, radix) == unfold_stream(acc2, fs.drop_last(), k, radix));
    if k > 0 {
        lemma_unfold_split(acc2, fs.drop_last(), (k - 1) as nat, radix);
        assert(unfold_stream(acc, fs, k, radix) == unfold_stream(
            acc2,
            fs.drop_last(),
            (k - 1) as nat,
            radix,
        ));
    }
}

/// Unfolding `k` chunks leaves the stream without its last `k` elements.
pub proof fn lemma_unfold_rest(acc: nat, fs: Seq<u8>, k: nat, radix: nat)
    requires
        k <= fs.len(),
    ensures
        unfold_stream(acc, fs, k, radix).1 == fs.take(fs.len() - k),
    decreases k,
{
    if k == 0 {
        assert(fs.take(fs.len() as int) =~= fs);
    } else {
        lemma_unfold_rest(
            (acc * pow2(radix) + fs.last()) as nat,
            fs.drop_last(),
            (k - 1) as nat,
            radix,
        );
        assert(fs.drop_last().take(fs.drop_last().len() - (k - 1)) =~= fs.take(fs.len() - k));
    }
}

/// Unfolding the chunks that cutting wrote gives the value back and leaves
/// the stream as it was before.
proof fn lemma_unfold_cut_stream(s: nat, fidelity: nat, radix: nat, p: Seq<u8>)
    requires
        valid_params(fidelity, radix),
    ensures
        unfold_stream(
            cut_top(s, fidelity, radix),
            p + cut_tail(s, fidelity, radix),
            cut_count(s, fidelity, radix),
            radix,
        ) == (s, p),
    decreases s,
{
    lemma_threshold_offset(fidelity, radix);
    let b = pow2(radix);
    if s < pow2(fidelity) {
        assert(p + Seq::<u8>::empty() =~= p);
    } else {
        lemma_pow2_pos(fidelity);
        let s2 = s / b;
        let d = (s % b) as u8;
        lemma_fundamental_div_mod(s as int, b as int);
        lemma_mod_pos_bound(s as int, b as int);
        lemma_div_decreases(s as int, b as int);
        let p2 = p.push(d);
        lemma_unfold_cut_stream(s2, fidelity, radix, p2);
        let tail2 = cut_tail(s2, fidelity, radix);
        assert(p + cut_tail(s, fidelity, radix) =~= p2 + tail2);
        lemma_unfold_split(cut_top(s2, fidelity, radix), p2 + tail2, cut_count(s2, fidelity, radix), radix);
        assert(p2.drop_last() =~= p);
        assert(s2 * b + d == s) by (nonlinear_arith)
            requires
                s == b * s2 + s % b,
                d == s % b,
        ;
    }
}

/// Unfolding the tail that folding wrote gives the raw symbol back and leaves
/// the stream as it was before.
pub proof fn lemma_unfold_fold_stream(s: nat, fidelity: nat, radix: nat, p: Seq<u8>)
    requires
        valid_params(fidelity, radix),
    ensures
        unfold_stream(
            fold_top(s, fidelity, radix),
            p + fold_tail(s, fidelity, radix),
            fold_chunks(s, fidelity, radix),
            radix,
        ) == (s, p),
{
    if s < threshold(fidelity, radix) {
        assert(p + Seq::<u8>::empty() =~= p);
    } else {
        lemma_unfold_cut_stream(s, fidelity, radix, p);
    }
}

/// The folded symbol of `s` tells its number of chunks and its top back.
pub proof fn lemma_unfold_symbol(s: nat, fidelity: nat, radix: nat)
    requires
        valid_params(fidelity, radix),
    ensures
        unfold_chunks(folded_symbol(s, fidelity, radix), fidelity, radix) == fold_chunks(
            s,
            fidelity,
            radix,
        ),
        unfold_top(folded_symbol(s, fidelity, radix), fidelity, radix) == fold_top(
            s,
            fidelity,
            radix,
        ),
{
    lemma_threshold_offset(fidelity, radix);
    lemma_threshold_cut(fidelity, radix);
    lemma_cut_basics(s, fidelity, radix);
    let t = threshold(fidelity, radix);
    let o = offset(fidelity, radix);
    let h = pow2((fidelity - 1) as nat);
    let x = folded_symbol(s, fidelity, radix);
    let k = fold_chunks(s, fidelity, radix);
    let top = fold_top(s, fidelity, radix);
    if s < t {
        assert(k * o == 0) by (nonlinear_arith)
            requires
                k == 0,
        ;
    } else {
        let b = pow2(radix);
        lemma_pow2_unfold(fidelity);
        assert(pow2(fidelity) == 2 * h);
        assert(k >= 1);
        if k == 1 {
            // top = s / 2^R >= t / 2^R = 2^(F-1)
            lemma_div_is_ordered(t as int, s as int, b as int);
            lemma_div_by_multiple(h as int, b as int);
        }
        if radix == 1 {
            assert(b == 2) by {
                lemma2_to64();
            }
            assert(x - t == (k - 1) * o + (top - h)) by (nonlinear_arith)
                requires
                    x == top + k * o,
                    t == o + h,
                    o == h,
            ;
            assert((k - 1) * o >= 0) by (nonlinear_arith)
                requires
                    k >= 1,
                    o >= 1,
            ;
            lemma_fundamental_div_mod_converse(x - t, o as int, k - 1, top - h);
        } else {
            assert(b >= 4) by {
                lemma2_to64();
                if radix > 2 {
                    lemma_pow2_strictly_increases(2, radix);
                }
            }
            assert(2 * h <= o) by (nonlinear_arith)
                requires
                    o == h * (b - 1),
                    b >= 4,
                    h >= 1,
            ;
            if k == 1 {
                assert(x >= t) by (nonlinear_arith)
                    requires
                        x == top + k * o,
                        k == 1,
                        top >= h,
                        t == o + h,
                ;
            } else {
                assert(x >= t) by (nonlinear_arith)
                    requires
                        x == top + k * o,
                        top >= 0,
                        k >= 2,
                        o == h * (b - 1),
                        t == h * b,
                        b >= 4,
                        h >= 1,
                ;
            }
            lemma_fundamental_div_mod_converse(x as int, o as int, k as int, top as int);
        }
    }
}

/// Folding of a raw symbol: facts that the codec needs.
pub proof fn lemma_fold_symbol_bounds(s: nat, fidelity: nat, radix: nat)
    requires
        valid_params(fidelity, radix),
        s <= MAX_RAW_SYMBOL,
    ensures
        fold_chunks(s, fidelity, radix) * radix <= 54,
        fold_chunks(s, fidelity, radix) <= 47,
        folded_symbol(s, fidelity, radix) < 0x100_0000,
        quasi_folded(folded_symbol(s, fidelity, radix), fidelity, radix) == fold_top(
            s,
            fidelity,
            radix,
        ) * pow2(QUASI_COUNT_BITS as nat) + fold_chunks(s, fidelity, radix) * radix,
{
    lemma_cut_basics(s, fidelity, radix);
    lemma_threshold_cut(fidelity, radix);
    lemma_unfold_symbol(s, fidelity, radix);
    lemma_threshold_offset(fidelity, radix);
    lemma2_to64();
    crate::bits::lemma_pow2_facts();
    let k = fold_chunks(s, fidelity, radix);
    let top = fold_top(s, fidelity, radix);
    let o = offset(fidelity, radix);
    if fidelity < 18 {
        lemma_pow2_strictly_increases(fidelity, 18);
    }
    assert(top < pow2(18));
    if k > 0 {
        let e = (fidelity + (k - 1) * radix) as nat;
        if e >= 48 {
            lemma_pow2_strictly_increases(48, e);
        }
        assert(k <= 47) by (nonlinear_arith)
            requires
                e == fidelity + (k - 1) * radix,
                e < 48,
                fidelity >= 1,
                radix >= 1,
                k >= 1,
        ;
        assert(k * radix <= 54) by (nonlinear_arith)
            requires
                e == fidelity + (k - 1) * radix,
                e < 48,
                fidelity >= 1,
                radix <= 8,
                k >= 1,
        ;
        assert(k * o <= 47 * pow2(18)) by (nonlinear_arith)
            requires
                k <= 47,
                o < pow2(18),
        ;
    } else {
        assert(k * o == 0 && k * radix == 0) by (nonlinear_arith)
            requires
                k == 0,
        ;
    }
}

/// Below the threshold a symbol is its own folded symbol, folding writes no
/// tail chunk, and unfolding gives it back without reading the stream.
pub proof fn lemma_singleton_identity(s: nat, fidelity: nat, radix: nat, p: Seq<u8>)
    requires
        valid_params(fidelity, radix),
        s < threshold(fidelity, radix),
    ensures
        folded_symbol(s, fidelity, radix) == s,
        fold_tail(s, fidelity, radix) == Seq::<u8>::empty(),
        unfold_quasi(quasi_folded(s, fidelity, radix) as nat, radix, p) == Some((s, p)),
{
    lemma_threshold_offset(fidelity, radix);
    crate::bits::lemma_pow2_facts();
    lemma2_to64();
    lemma_fold_basics(s, fidelity, radix);
    lemma_fold_round_trip(s, fidelity, radix, p);
    assert(p + Seq::<u8>::empty() =~= p);
}

/// For every raw symbol, unfolding the quasi-folded word of its folded symbol
/// against the stream that folding appended to gives the symbol back and
/// leaves the stream as it was before.
pub proof fn lemma_fold_round_trip(s: nat, fidelity: nat, radix: nat, p: Seq<u8>)
    requires
        valid_params(fidelity, radix),
        s <= MAX_RAW_SYMBOL,
    ensures
        unfold_quasi(
            quasi_folded(folded_symbol(s, fidelity, radix), fidelity, radix) as nat,
            radix,
            p + fold_tail(s, fidelity, radix),
        ) == Some((s, p)),
{
    lemma_fold_symbol_bounds(s, fidelity, radix);
    lemma_fold_basics(s, fidelity, radix);
    lemma_unfold_fold_stream(s, fidelity, radix, p);
    lemma_threshold_offset(fidelity, radix);
    crate::bits::lemma_pow2_facts();
    let top = fold_top(s, fidelity, radix);
    let k = fold_chunks(s, fidelity, radix);
    let q = quasi_folded(folded_symbol(s, fidelity, radix), fidelity, radix);
    assert(q == top * pow2(8) + k * radix);
    lemma_fundamental_div_mod_converse(q, pow2(8) as int, top as int, (k * radix) as int);
    assert((k * radix) / radix == k) by {
        lemma_div_by_multiple(k as int, radix as int);
    }
}

/// Folds `sym`, appending its tail chunks to `folded_bits`, and returns its
/// folded symbol.
pub fn fold_symbol(sym: u64, fidelity: usize, radix: usize, folded_bits: &mut Vec<u8>) -> (x: u64)
    requires
        valid_params(fidelity as nat, radix as nat),
        sym <= MAX_RAW_SYMBOL,
    ensures
        x == folded_symbol(sym as nat, fidelity as nat, radix as nat),
        final(folded_bits)@ == old(folded_bits)@ + fold_tail(
            sym as nat,
            fidelity as nat,
            radix as nat,
        ),
{
    proof {
        lemma_threshold_offset(fidelity as nat, radix as nat);
        lemma_fold_symbol_bounds(sym as nat, fidelity as nat, radix as nat);
        lemma_threshold_cut(fidelity as nat, radix as nat);
        crate::bits::lemma_pow2_facts();
        lemma2_to64();
    }
    let thr = pow2_u64((fidelity + radix - 1) as u64);
    if sym < thr {
        assert(folded_bits@ + Seq::<u8>::empty() =~= folded_bits@);
        assert(0 * offset(fidelity as nat, radix as nat) == 0);
        return sym;
    }
    let limit = pow2_u64(fidelity as u64);
    let base = pow2_u64(radix as u64);
    let mut s = sym;
    let mut c: u64 = 0;
    while s >= limit
        invariant
            valid_params(fidelity as nat, radix as nat),
            limit == pow2(fidelity as nat),
            base == pow2(radix as nat),
            c <= 47,
            cut_top(s as nat, fidelity as nat, radix as nat) == cut_top(
                sym as nat,
                fidelity as nat,
                radix as nat,
            ),
            cut_count(sym as nat, fidelity as nat, radix as nat) == c + cut_count(
                s as nat,
                fidelity as nat,
                radix as nat,
            ),
            cut_count(sym as nat, fidelity as nat, radix as nat) <= 47,
            old(folded_bits)@ + cut_tail(sym as nat, fidelity as nat, radix as nat) == folded_bits@
                + cut_tail(s as nat, fidelity as nat, radix as nat),
        decreases s,
    {
        proof {
            lemma_threshold_offset(fidelity as nat, radix as nat);
            lemma_pow2_pos(fidelity as nat);
            lemma_div_decreases(s as int, base as int);
        }
        let d = (s % base) as u8;
        let ghost before = folded_bits@;
        folded_bits.push(d);
        let ghost tail = cut_tail((s / base) as nat, fidelity as nat, radix as nat);
        assert(before + cut_tail(s as nat, fidelity as nat, radix as nat) =~= folded_bits@ + tail);
        s = s / base;
        c = c + 1;
    }
    proof {
        lemma_threshold_offset(fidelity as nat, radix as nat);
        lemma_cut_basics(s as nat, fidelity as nat, radix as nat);
        assert(folded_bits@ + Seq::<u8>::empty() =~= folded_bits@);
        let o = offset(fidelity as nat, radix as nat);
        assert(c * o <= 47 * pow2(18)) by (nonlinear_arith)
            requires
                c <= 47,
                o < pow2(18),
        ;
    }
    let o = pow2_u64((fidelity - 1) as u64) * (base - 1);
    s + c * o
}

/// Unfolds the quasi-folded word `quasi`, reading tail chunks from the end of
/// `folded_bits[..cursor]`. Returns the raw symbol and the new cursor, or
/// `None` when the stream is too short or the result is not a raw symbol.
pub fn unfold_symbol(quasi: u64, radix: usize, folded_bits: &Vec<u8>, cursor: usize) -> (r: Option<
    (u64, usize),
>)
    requires
        1 <= radix <= MAX_RADIX,
        cursor <= folded_bits.len(),
    ensures
        match unfold_quasi(quasi as nat, radix as nat, folded_bits@.take(cursor as int)) {
            Some((v, rest)) => r matches Some((v2, c2)) && v2 == v && c2 <= cursor && rest
                == folded_bits@.take(c2 as int),
            None => r is None,
        },
{
    proof {
        crate::bits::lemma_pow2_facts();
        lemma_threshold_offset(1, radix as nat);
    }
    let ghost fs = folded_bits@.take(cursor as int);
    let top = quasi / 256;
    let k = ((quasi % 256) / (radix as u64)) as usize;
    if k > cursor {
        return None;
    }
    proof {
        lemma_unfold_rest(top as nat, fs, k as nat, radix as nat);
        lemma_unfold_grows(top as nat, fs, k as nat, radix as nat);
    }
    if top > MAX_RAW_SYMBOL {
        return None;
    }
    let base = pow2_u64(radix as u64);
    let mut acc = top;
    let mut pos = cursor;
    let mut i: usize = 0;
    while i < k
        invariant
            0 <= i <= k <= cursor <= folded_bits.len(),
            pos == cursor - i,
            pow2(QUASI_COUNT_BITS as nat) == 256,
            top == quasi / 256,
            k == (quasi % 256) / (radix as u64),
            base == pow2(radix as nat),
            2 <= base <= 256,
            acc <= MAX_RAW_SYMBOL,
            fs == folded_bits@.take(cursor as int),
            unfold_stream(top as nat, fs, k as nat, radix as nat) == unfold_stream(
                acc as nat,
                folded_bits@.take(pos as int),
                (k - i) as nat,
                radix as nat,
            ),
        decreases k - i,
    {
        let ghost cur = folded_bits@.take(pos as int);
        assert(cur.last() == folded_bits[pos - 1]);
        assert(cur.drop_last() =~= folded_bits@.take(pos - 1));
        let d = folded_bits[pos - 1];
        let ghost acc_old = acc;
        let ghost i_old = i;
        assert(acc * base <= MAX_RAW_SYMBOL * 256) by (nonlinear_arith)
            requires
                acc <= MAX_RAW_SYMBOL,
                base <= 256,
        ;
        acc = acc * base + d as u64;
        pos = pos - 1;
        i = i + 1;
        assert(unfold_stream(acc_old as nat, cur, (k - i_old) as nat, radix as nat) == unfold_stream(
            acc as nat,
            folded_bits@.take(pos as int),
            (k - i) as nat,
            radix as nat,
        ));
        proof {
            lemma_unfold_grows(
                acc as nat,
                folded_bits@.take(pos as int),
                (k - i) as nat,
                radix as nat,
            );
        }
        if acc > MAX_RAW_SYMBOL {
            return None;
        }
    }
    Some((acc, pos))
}

} // verus!
