//! Scaling of symbol counts to a power-of-two frame.
use crate::error::AnsError;
use vstd::arithmetic::div_mod::*;
use vstd::prelude::*;

verus! {

/// The sum of a sequence of counts.
pub open spec fn seq_sum(s: Seq<usize>) -> int
    decreases s.len(),
{
    if s.len() == 0 {
        0
    } else {
        seq_sum(s.drop_last()) + s.last()
    }
}

/// The number of non-zero counts.
pub open spec fn support_count(s: Seq<usize>) -> nat
    decreases s.len(),
{
    if s.len() == 0 {
        0
    } else {
        support_count(s.drop_last()) + if s.last() > 0 {
            1nat
        } else {
            0nat
        }
    }
}

/// There are at most as many non-zero counts as counts, and at least one if
/// some count is non-zero.
pub proof fn lemma_support_count_bounds(s: Seq<usize>, i: int)
    ensures
        support_count(s) <= s.len(),
        0 <= i < s.len() && s[i] > 0 ==> support_count(s) > 0,
    decreases s.len(),
{
    if s.len() > 0 {
        lemma_support_count_bounds(s.drop_last(), i);
    }
}

/// A sum changes by the difference of the updated element.
pub proof fn lemma_seq_sum_update(s: Seq<usize>, i: int, v: usize)
    requires
        0 <= i < s.len(),
    ensures
        seq_sum(s.update(i, v)) == seq_sum(s) - s[i] + v,
    decreases s.len(),
{
    if i < s.len() - 1 {
        lemma_seq_sum_update(s.drop_last(), i, v);
        assert(s.update(i, v).drop_last() =~= s.drop_last().update(i, v));
    } else {
        assert(s.update(i, v).drop_last() =~= s.drop_last());
    }
}

/// Sums are non-negative.
pub proof fn lemma_seq_sum_nonneg(s: Seq<usize>)
    ensures
        seq_sum(s) >= 0,
    decreases s.len(),
{
    if s.len() > 0 {
        lemma_seq_sum_nonneg(s.drop_last());
    }
}

/// An element is at most the sum.
pub proof fn lemma_seq_sum_elem(s: Seq<usize>, i: int)
    requires
        0 <= i < s.len(),
    ensures
        s[i] <= seq_sum(s),
    decreases s.len(),
{
    lemma_seq_sum_nonneg(s.drop_last());
    if i < s.len() - 1 {
        lemma_seq_sum_elem(s.drop_last(), i);
    }
}

/// The sum of a prefix one longer.
pub proof fn lemma_seq_sum_take(s: Seq<usize>, i: int)
    requires
        0 <= i < s.len(),
    ensures
        seq_sum(s.take(i + 1)) == seq_sum(s.take(i)) + s[i],
{
    assert(s.take(i + 1).drop_last() =~= s.take(i));
}

/// The frequency given to a symbol of count `raw` when `left` slots and
/// `m_left` counts are left and `later` symbols still need a slot each:
/// `round(raw * left / m_left)`, at least one and at most `left - later`.
pub open spec fn scaled_freq(raw: nat, left: nat, m_left: nat, later: nat) -> nat {
    let divisor = if m_left == 0 {
        2
    } else {
        2 * m_left
    };
    let scaled = (2 * raw * left + m_left) / divisor;
    if scaled < 1 {
        1
    } else if scaled > left - later {
        (left - later) as nat
    } else {
        scaled as nat
    }
}

/// The frequencies, slots left and counts left after the first `i` symbols
/// of `order` have been scaled.
pub open spec fn scaled_prefix(freqs: Seq<usize>, order: Seq<usize>, m: nat, new_m: nat, i: nat) -> (
    Seq<usize>,
    nat,
    nat,
)
    decreases i,
{
    if i == 0 {
        (Seq::new(freqs.len(), |t: int| 0usize), new_m, m)
    } else {
        let (approx, left, m_left) = scaled_prefix(freqs, order, m, new_m, (i - 1) as nat);
        let idx = order[i - 1];
        let raw = freqs[idx as int] as nat;
        let a = scaled_freq(raw, left, m_left, (order.len() - i) as nat);
        (
            approx.update(idx as int, a as usize),
            (left - a) as nat,
            if m_left >= raw {
                (m_left - raw) as nat
            } else {
                0
            },
        )
    }
}

/// The result of scaling: every symbol of `order` scaled in turn, and what is
/// left of the frame added to the last one.
pub open spec fn scaled_freqs(freqs: Seq<usize>, order: Seq<usize>, m: nat, new_m: nat) -> Seq<usize> {
    if order.len() == 0 {
        freqs
    } else {
        let (approx, left, _) = scaled_prefix(freqs, order, m, new_m, order.len());
        let last = order[order.len() - 1] as int;
        let core = approx.update(last, (approx[last] + left) as usize);
        Seq::new(freqs.len(), |t: int| if core[t] == 0 { freqs[t] } else { core[t] })
    }
}

/// The sum of the counts of the symbols `order[i..]`.
pub open spec fn order_sum(freqs: Seq<usize>, order: Seq<usize>, i: int) -> nat
    decreases order.len() - i,
{
    if i >= order.len() || i < 0 {
        0
    } else {
        freqs[order[i] as int] as nat + order_sum(freqs, order, i + 1)
    }
}

/// A suffix of at least one count each sums to at least its length.
proof fn lemma_order_sum_lower(freqs: Seq<usize>, order: Seq<usize>, i: int)
    requires
        0 <= i <= order.len(),
        forall|j: int| 0 <= j < order.len() ==> order[j] < freqs.len() && freqs[#[trigger] order[j] as int] >= 1,
    ensures
        order_sum(freqs, order, i) >= order.len() - i,
    decreases order.len() - i,
{
    if i < order.len() {
        lemma_order_sum_lower(freqs, order, i + 1);
    }
}

/// Scaling counts to a frame equal to their sum leaves them as they are.
pub proof fn lemma_scale_to_own_sum(freqs: Seq<usize>, order: Seq<usize>, m: nat)
    requires
        order.no_duplicates(),
        forall|j: int| 0 <= j < order.len() ==> order[j] < freqs.len() && freqs[#[trigger] order[j] as int] >= 1,
        m == order_sum(freqs, order, 0),
    ensures
        scaled_freqs(freqs, order, m, m) == freqs,
{
    if order.len() > 0 {
        lemma_scale_prefix_own_sum(freqs, order, m, order.len());
        let (approx, left, _) = scaled_prefix(freqs, order, m, m, order.len());
        let last = order[order.len() - 1] as int;
        assert(left == 0);
        let core = approx.update(last, (approx[last] + left) as usize);
        assert(core =~= approx);
        assert forall|t: int| 0 <= t < freqs.len() implies (if core[t] == 0 {
            freqs[t]
        } else {
            core[t]
        }) == freqs[t] by {
            if exists|j: int| 0 <= j < order.len() && order[j] == t {
                let j = choose|j: int| 0 <= j < order.len() && order[j] == t;
                assert(core[order[j] as int] == freqs[order[j] as int]);
            }
        }
        assert(scaled_freqs(freqs, order, m, m) =~= freqs);
    }
}

/// After scaling the first `i` symbols to their own sum, each keeps its count,
/// the others are still zero, and what is left of the frame and of the counts
/// is the sum of the rest.
proof fn lemma_scale_prefix_own_sum(freqs: Seq<usize>, order: Seq<usize>, m: nat, i: nat)
    requires
        order.no_duplicates(),
        forall|j: int| 0 <= j < order.len() ==> order[j] < freqs.len() && freqs[#[trigger] order[j] as int] >= 1,
        m == order_sum(freqs, order, 0),
        i <= order.len(),
    ensures
        ({
            let (approx, left, m_left) = scaled_prefix(freqs, order, m, m, i);
            &&& approx.len() == freqs.len()
            &&& left == order_sum(freqs, order, i as int)
            &&& m_left == left
            &&& forall|j: int| 0 <= j < i ==> approx[#[trigger] order[j] as int] == freqs[order[j] as int]
            &&& forall|t: int|
                0 <= t < freqs.len() && !(exists|j: int| 0 <= j < i && order[j] == t) ==> #[trigger] approx[t]
                    == 0
        }),
    decreases i,
{
    if i > 0 {
        lemma_scale_prefix_own_sum(freqs, order, m, (i - 1) as nat);
        let (approx, left, m_left) = scaled_prefix(freqs, order, m, m, (i - 1) as nat);
        let idx = order[i - 1];
        let raw = freqs[idx as int] as nat;
        let later = (order.len() - i) as nat;
        assert(left == raw + order_sum(freqs, order, i as int));
        lemma_order_sum_lower(freqs, order, i as int);
        // round(raw * left / left) == raw
        assert((2 * raw * left + left) / (2 * left) == raw) by {
            assert(2 * raw * left + left == raw * (2 * left) + left) by (nonlinear_arith);
            lemma_fundamental_div_mod_converse(
                (2 * raw * left + left) as int,
                (2 * left) as int,
                raw as int,
                left as int,
            );
        }
        assert(scaled_freq(raw, left, m_left, later) == raw);
        let (approx2, left2, m_left2) = scaled_prefix(freqs, order, m, m, i);
        assert forall|j: int| 0 <= j < i implies approx2[#[trigger] order[j] as int] == freqs[order[j] as int] by {
            if j < i - 1 {
                assert(order[j] != order[i - 1]);
            }
        }
        assert forall|t: int|
            0 <= t < freqs.len() && !(exists|j: int| 0 <= j < i && order[j] == t) implies #[trigger] approx2[t]
            == 0 by {
            assert(t != idx);
            assert(!(exists|j: int| 0 <= j < i - 1 && order[j] == t));
        }
    }
}

/// Scales the counts `freqs` to frequencies that sum to exactly `new_m`,
/// visiting the symbols in the order `sorted_indices` (meant to be by
/// ascending count, so that rare symbols are rounded first); indices that are
/// not listed keep their counts.
///
/// Each symbol gets `max(1, round(count * left / m_left))`, where `left` is
/// what is left of the frame and `m_left` what is left of the counts (`m` at
/// the start), but never so much that a later symbol would be left without a
/// slot; what is left at the end goes to the last symbol. `n`, the total
/// count, is not needed: rounding goes by `m`. Fails with `FrameTooSmall`
/// exactly when more symbols are listed than there are slots.
pub fn scale_freqs(freqs: &[usize], sorted_indices: &[usize], n: usize, m: usize, new_m: isize) -> (r:
    Result<Vec<usize>, AnsError>)
    requires
        1 <= new_m <= 0x1000_0000,
        sorted_indices@.no_duplicates(),
        forall|j: int|
            0 <= j < sorted_indices@.len() ==> #[trigger] sorted_indices@[j] < freqs@.len(),
    ensures
        r is Err <==> sorted_indices@.len() > new_m,
        r is Err ==> r == Err::<Vec<usize>, AnsError>(AnsError::FrameTooSmall),
        r matches Ok(v) ==> {
            &&& v@.len() == freqs@.len()
            &&& v@ == scaled_freqs(freqs@, sorted_indices@, m as nat, new_m as nat)
            &&& forall|j: int|
                0 <= j < sorted_indices@.len() ==> v@[#[trigger] sorted_indices@[j] as int] >= 1
            &&& forall|i: int|
                0 <= i < freqs@.len() && !sorted_indices@.contains(i as usize) ==> #[trigger] v@[i]
                    == freqs@[i]
            &&& sorted_indices@.len() > 0 && (forall|i: int|
                0 <= i < freqs@.len() && #[trigger] freqs@[i] > 0 ==> sorted_indices@.contains(
                    i as usize,
                )) ==> seq_sum(v@) == new_m
        },
{
    let count = sorted_indices.len();
    if count > new_m as usize {
        return Err(AnsError::FrameTooSmall);
    }
    let mut approx: Vec<usize> = Vec::new();
    let mut k: usize = 0;
    while k < freqs.len()
        invariant
            k <= freqs@.len(),
            approx@.len() == k,
            forall|t: int| 0 <= t < k ==> #[trigger] approx@[t] == 0,
            seq_sum(approx@) == 0,
            approx@ == Seq::new(k as nat, |t: int| 0usize),
        decreases freqs@.len() - k,
    {
        let ghost before = approx@;
        approx.push(0);
        assert(approx@.drop_last() =~= before);
        assert(approx@ =~= Seq::new((k + 1) as nat, |t: int| 0usize));
        k = k + 1;
    }
    if count == 0 {
        let v = overlay(approx, freqs);
        assert(v@ =~= freqs@);
        return Ok(v);
    }
    let total = new_m as usize;
    assert(approx@ =~= Seq::new(freqs@.len(), |t: int| 0usize));
    let mut left: usize = total;
    let mut m_left: usize = m;
    let mut i: usize = 0;
    while i < count
        invariant
            count == sorted_indices@.len(),
            1 <= count <= total <= 0x1000_0000,
            i <= count,
            left >= count - i,
            left <= total,
            approx@.len() == freqs@.len(),
            seq_sum(approx@) == total - left,
            sorted_indices@.no_duplicates(),
            forall|j: int|
                0 <= j < count ==> #[trigger] sorted_indices@[j] < freqs@.len(),
            forall|j: int| 0 <= j < i ==> #[trigger] approx@[sorted_indices@[j] as int] >= 1,
            forall|t: int|
                0 <= t < approx@.len() && !sorted_indices@.take(i as int).contains(t as usize)
                    ==> #[trigger] approx@[t] == 0,
            (approx@, left as nat, m_left as nat) == scaled_prefix(
                freqs@,
                sorted_indices@,
                m as nat,
                total as nat,
                i as nat,
            ),
        decreases count - i,
    {
        let idx = sorted_indices[i];
        let raw = freqs[idx];
        let divisor: u128 = if m_left == 0 {
            2
        } else {
            2 * (m_left as u128)
        };
        assert(2 * (raw as u128) * (left as u128) <= 2 * 0xFFFF_FFFF_FFFF_FFFFu128 * 0x1000_0000u128)
            by (nonlinear_arith)
            requires
                left <= 0x1000_0000,
        ;
        let scaled: u128 = (2 * (raw as u128) * (left as u128) + (m_left as u128)) / divisor;
        let later: usize = count - i - 1;
        let most: usize = left - later;
        let a: usize = if scaled < 1 {
            1
        } else if scaled > most as u128 {
            most
        } else {
            scaled as usize
        };
        assert(!sorted_indices@.take(i as int).contains(idx)) by {
            if sorted_indices@.take(i as int).contains(idx) {
                let j = choose|j: int| 0 <= j < i && sorted_indices@.take(i as int)[j] == idx;
                assert(sorted_indices@[j] == sorted_indices@[i as int]);
            }
        }
        proof {
            lemma_seq_sum_update(approx@, idx as int, a);
        }
        approx.set(idx, a);
        left = left - a;
        m_left = if m_left >= raw {
            m_left - raw
        } else {
            0
        };
        i = i + 1;
        assert forall|t: int|
            0 <= t < approx@.len() && !sorted_indices@.take(i as int).contains(
                t as usize,
            ) implies #[trigger] approx@[t] == 0 by {
            assert(t != idx) by {
                if t == idx {
                    assert(sorted_indices@.take(i as int)[i - 1] == idx);
                }
            }
            if sorted_indices@.take(i - 1).contains(t as usize) {
                let prev = sorted_indices@.take(i - 1);
                let j = choose|j: int| 0 <= j < i - 1 && #[trigger] prev[j] == t as usize;
                assert(sorted_indices@.take(i as int)[j] == t as usize);
            }
        }
    }
    let last = sorted_indices[count - 1];
    let cur = approx[last];
    proof {
        lemma_seq_sum_elem(approx@, last as int);
        lemma_seq_sum_update(approx@, last as int, (cur + left) as usize);
    }
    approx.set(last, cur + left);
    let ghost core = approx@;
    proof {
        assert(sorted_indices@.take(count as int) =~= sorted_indices@);
        assert forall|t: int| 0 <= t < core.len() && core[t] == 0 implies !sorted_indices@.contains(
            t as usize,
        ) by {
            if sorted_indices@.contains(t as usize) {
                let j = choose|j: int| 0 <= j < count && sorted_indices@[j] == t as usize;
                assert(core[sorted_indices@[j] as int] >= 1);
            }
        }
    }
    let v = overlay(approx, freqs);
    proof {
        assert forall|j: int| 0 <= j < sorted_indices@.len() implies v@[#[trigger] sorted_indices@[j] as int] >= 1 by {
            assert(core[sorted_indices@[j] as int] >= 1);
        }
        assert forall|t: int|
            0 <= t < freqs@.len() && !sorted_indices@.contains(t as usize) implies #[trigger] v@[t]
            == freqs@[t] by {
            assert(core[t] == 0);
        }
        if forall|t: int|
            0 <= t < freqs@.len() && #[trigger] freqs@[t] > 0 ==> sorted_indices@.contains(
                t as usize,
            ) {
            assert(v@ =~= core);
        }
    }
    Ok(v)
}

/// Fills the zero entries of `core` with the counts of `freqs`.
fn overlay(core: Vec<usize>, freqs: &[usize]) -> (r: Vec<usize>)
    requires
        core@.len() == freqs@.len(),
    ensures
        r@ == Seq::new(freqs@.len(), |t: int| if core@[t] == 0 { freqs@[t] } else { core@[t] }),
{
    let mut r = core;
    let ghost c0 = r@;
    let mut t: usize = 0;
    while t < r.len()
        invariant
            r@.len() == c0.len() == freqs@.len(),
            t <= r@.len(),
            forall|u: int| 0 <= u < t ==> #[trigger] r@[u] == if c0[u] == 0 { freqs@[u] } else { c0[u] },
            forall|u: int| t <= u < r@.len() ==> #[trigger] r@[u] == c0[u],
        decreases r@.len() - t,
    {
        if r[t] == 0 {
            r.set(t, freqs[t]);
        }
        t = t + 1;
    }
    assert(r@ =~= Seq::new(freqs@.len(), |u: int| if c0[u] == 0 { freqs@[u] } else { c0[u] }));
    r
}

} // verus!
