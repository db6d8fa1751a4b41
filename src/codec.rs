//! The arithmetic of one rANS step on a 64-bit state kept in `[2^32, 2^64)`,
//! with 32 bits moved to or from the normalized stream when needed.
use vstd::arithmetic::div_mod::*;
use vstd::arithmetic::mul::*;
use vstd::arithmetic::power2::*;
use vstd::prelude::*;

verus! {

/// The largest log2 of a frame size.
pub const MAX_LOG2_FRAME_SIZE: usize = 28;

/// A state within `[2^32, 2^64)`.
pub open spec fn valid_state(state: nat) -> bool {
    pow2(32) <= state < pow2(64)
}

/// Whether encoding a symbol of frequency `freq` must first move 32 bits of
/// `state` out: the state is at or above the symbol's upper bound
/// `freq * 2^(64 - log2_frame)`.
pub open spec fn needs_renorm(state: nat, freq: nat, log2_frame: nat) -> bool {
    state >= freq * pow2((64 - log2_frame) as nat)
}

/// The upper bound of a symbol of frequency `freq`.
pub open spec fn upper_bound(freq: nat, log2_frame: nat) -> nat {
    freq * pow2((64 - log2_frame) as nat)
}

/// The state after renormalisation, before the symbol is encoded.
pub open spec fn renormed(state: nat, freq: nat, log2_frame: nat) -> nat {
    if needs_renorm(state, freq, log2_frame) {
        state / pow2(32)
    } else {
        state
    }
}

/// The state after encoding a symbol of frequency `freq` and cumulative
/// frequency `cumul` in a frame of size `2^log2_frame`.
pub open spec fn encoded_state(state: nat, freq: nat, cumul: nat, log2_frame: nat) -> nat {
    let s = renormed(state, freq, log2_frame);
    (s / freq) * pow2(log2_frame) + cumul + s % freq
}

/// The slot of `state` in a frame of size `2^log2_frame`.
pub open spec fn slot_of(state: nat, log2_frame: nat) -> nat {
    state % pow2(log2_frame)
}

/// The state after decoding a symbol of frequency `freq` and cumulative
/// frequency `cumul`, before 32 bits are pulled back in.
pub open spec fn decoded_state(state: nat, freq: nat, cumul: nat, log2_frame: nat) -> int {
    (state / pow2(log2_frame)) * freq + slot_of(state, log2_frame) - cumul
}

/// Decoding the state that encoding produced undoes the encoding step.
pub proof fn lemma_step_round_trip(state: nat, freq: nat, cumul: nat, log2_frame: nat)
    requires
        valid_state(state),
        1 <= log2_frame <= MAX_LOG2_FRAME_SIZE,
        1 <= freq,
        cumul + freq <= pow2(log2_frame),
    ensures
        valid_state(encoded_state(state, freq, cumul, log2_frame)),
        cumul <= slot_of(encoded_state(state, freq, cumul, log2_frame), log2_frame) < cumul
            + freq,
        decoded_state(encoded_state(state, freq, cumul, log2_frame), freq, cumul, log2_frame)
            == renormed(state, freq, log2_frame),
        needs_renorm(state, freq, log2_frame) ==> renormed(state, freq, log2_frame) < pow2(32)
            && renormed(state, freq, log2_frame) * pow2(32) + state % pow2(32) == state,
        !needs_renorm(state, freq, log2_frame) ==> renormed(state, freq, log2_frame) >= pow2(32),
{
    let l = log2_frame;
    let m = pow2(l) as int;
    let a = pow2((32 - l) as nat) as int;
    let b = pow2((64 - l) as nat) as int;
    let lo = pow2(32) as int;
    let w = pow2(64) as int;
    lemma_pow2_adds(l, (32 - l) as nat);
    lemma_pow2_adds(l, (64 - l) as nat);
    lemma_pow2_adds((32 - l) as nat, 32);
    assert(l + (32 - l) as nat == 32);
    assert(l + (64 - l) as nat == 64);
    assert((32 - l) as nat + 32 == (64 - l) as nat);
    assert(m * a == lo);
    assert(m * b == w);
    assert(a * lo == b);
    lemma_pow2_pos(l);
    lemma_pow2_pos((32 - l) as nat);
    lemma2_to64();
    lemma2_to64_rest();
    let f = freq as int;
    let st = state as int;
    let s1 = renormed(state, freq, log2_frame) as int;
    // f * a <= s1 < f * b
    assert(f * a <= m * a) by (nonlinear_arith)
        requires
            f <= m,
            a >= 1,
    ;
    assert(f * b >= lo) by (nonlinear_arith)
        requires
            f >= 1,
            b == a * lo,
            a >= 1,
            lo >= 1,
    ;
    if needs_renorm(state, freq, log2_frame) {
        assert(f * b == (f * a) * lo) by (nonlinear_arith)
            requires
                b == a * lo,
        ;
        lemma_div_is_ordered((f * a) * lo, st, lo);
        lemma_div_by_multiple(f * a, lo);
        lemma_fundamental_div_mod(st, lo);
        lemma_mod_pos_bound(st, lo);
        assert(s1 < lo) by (nonlinear_arith)
            requires
                st == lo * s1 + st % lo,
                st % lo >= 0,
                st < lo * lo,
                lo > 0,
        ;
        assert(s1 * lo + st % lo == st) by (nonlinear_arith)
            requires
                st == lo * s1 + st % lo,
        ;
    }
    assert(f * a <= s1 < f * b);
    let q = s1 / f;
    let r = s1 % f;
    lemma_fundamental_div_mod(s1, f);
    lemma_mod_pos_bound(s1, f);
    assert(q >= a) by {
        lemma_div_is_ordered(f * a, s1, f);
        lemma_mul_is_commutative(f, a);
        lemma_div_by_multiple(a, f);
    }
    assert(q < b) by (nonlinear_arith)
        requires
            s1 == f * q + r,
            r >= 0,
            s1 < f * b,
            f >= 1,
    ;
    let s2 = encoded_state(state, freq, cumul, log2_frame) as int;
    assert(s2 == q * m + (cumul + r));
    assert(s2 >= lo) by (nonlinear_arith)
        requires
            s2 == q * m + (cumul + r),
            q >= a,
            m >= 1,
            cumul + r >= 0,
            m * a == lo,
    ;
    lemma_mul_inequality(q, b - 1, m);
    assert((b - 1) * m == b * m - m) by (nonlinear_arith);
    lemma_mul_is_commutative(m, b);
    lemma_fundamental_div_mod_converse(s2, m, q, cumul + r);
    assert(decoded_state(s2 as nat, freq, cumul, log2_frame) == q * f + r) by {
        lemma_mul_is_commutative(q, f);
    }
}

/// Decoding any slot of a frame keeps the state positive and below `2^64`,
/// and pulling 32 bits back in then gives a valid state.
pub proof fn lemma_decode_bounds(state: nat, freq: nat, cumul: nat, log2_frame: nat, word: nat)
    requires
        valid_state(state),
        1 <= log2_frame <= MAX_LOG2_FRAME_SIZE,
        freq <= pow2(log2_frame),
        cumul <= slot_of(state, log2_frame) < cumul + freq,
        word < pow2(32),
    ensures
        1 <= decoded_state(state, freq, cumul, log2_frame) < pow2(64),
        decoded_state(state, freq, cumul, log2_frame) < pow2(32) ==> valid_state(
            (decoded_state(state, freq, cumul, log2_frame) * pow2(32) + word) as nat,
        ),
{
    let l = log2_frame;
    let m = pow2(l) as int;
    let a = pow2((32 - l) as nat) as int;
    let b = pow2((64 - l) as nat) as int;
    let lo = pow2(32) as int;
    let w = pow2(64) as int;
    lemma_pow2_adds(l, (32 - l) as nat);
    lemma_pow2_adds(l, (64 - l) as nat);
    assert(l + (32 - l) as nat == 32);
    assert(l + (64 - l) as nat == 64);
    lemma_pow2_pos(l);
    lemma_pow2_pos((32 - l) as nat);
    lemma2_to64();
    lemma2_to64_rest();
    let st = state as int;
    let q = st / m;
    let slot = st % m;
    lemma_fundamental_div_mod(st, m);
    lemma_mod_pos_bound(st, m);
    assert(q >= a) by {
        lemma_div_is_ordered(m * a, st, m);
        lemma_mul_is_commutative(m, a);
        lemma_div_by_multiple(a, m);
    }
    assert(q < b) by (nonlinear_arith)
        requires
            st == m * q + slot,
            slot >= 0,
            st < w,
            m * b == w,
            m >= 1,
    ;
    assert(a >= 1);
    let d = decoded_state(state, freq, cumul, log2_frame);
    assert(d == q * freq + (slot - cumul));
    assert(d >= 1) by (nonlinear_arith)
        requires
            d == q * freq + (slot - cumul),
            q >= 1,
            freq >= 1,
            slot - cumul >= 0,
    ;
    assert(d < (q + 1) * freq) by (nonlinear_arith)
        requires
            d == q * freq + (slot - cumul),
            slot - cumul < freq,
    ;
    lemma_mul_upper_bound(q + 1, b, freq as int, m);
    lemma_mul_is_commutative(m, b);
    if d < lo {
        assert(d * lo + word < w) by (nonlinear_arith)
            requires
                d < lo,
                word < lo,
                w == lo * lo,
        ;
        assert(d * lo + word >= lo) by (nonlinear_arith)
            requires
                d >= 1,
                word >= 0,
                lo >= 0,
        ;
    }
}

} // verus!
