//! The per-component models that the encoder uses: for each folded symbol its
//! frequency, cumulative frequency, upper bound and quasi-folded word.
use crate::bits::pow2_u64;
use crate::codec::{upper_bound, MAX_LOG2_FRAME_SIZE};
use crate::component::{BVGraphComponent, COMPONENTS};
use crate::data_utils::{
    lemma_seq_sum_elem,
    lemma_seq_sum_nonneg,
    lemma_seq_sum_take,
    scale_freqs,
    scaled_freqs,
    seq_sum,
    support_count,
};
use crate::error::AnsError;
use crate::folding::{folded_symbol, lemma_threshold_offset, offset, quasi_folded, threshold, unfold_chunks, valid_params};
use crate::MAX_RAW_SYMBOL;
use vstd::arithmetic::div_mod::*;
use vstd::arithmetic::mul::*;
use vstd::arithmetic::power2::*;
use vstd::prelude::*;

verus! {

/// An upper bound on the number of folded symbols of a model.
pub const MAX_TABLE_LEN: usize = 0x100_0000;

/// What the encoder knows of one folded symbol.
#[derive(Clone, Copy, Debug, PartialEq, Eq, Structural)]
pub struct EncoderModelEntry {
    /// Its frequency in the frame.
    pub freq: u32,
    /// The sum of the frequencies of the smaller folded symbols.
    pub cumul_freq: u32,
    /// `freq * 2^(64 - log2 frame size)`: a state at or above it is renormalised first.
    pub upperbound: u128,
    /// Its quasi-folded word, from which the decoder rebuilds the raw symbol.
    pub quasi_folded: u64,
}

/// The sum of the frequencies of the first `n` entries.
pub open spec fn freq_sum(t: Seq<EncoderModelEntry>, n: int) -> int
    decreases n,
{
    if n <= 0 {
        0
    } else {
        freq_sum(t, n - 1) + t[n - 1].freq
    }
}

/// `order` lists the symbols that occur in `counts`, each once, by ascending
/// count and then by index.
pub open spec fn sorted_support(counts: Seq<usize>, order: Seq<usize>) -> bool {
    &&& order.no_duplicates()
    &&& forall|j: int|
        0 <= j < order.len() ==> #[trigger] order[j] < counts.len() && counts[order[j] as int] > 0
    &&& forall|t: int| 0 <= t < counts.len() && #[trigger] counts[t] > 0 ==> order.contains(t as usize)
    &&& forall|i: int, j: int|
        0 <= i < j < order.len() ==> counts[#[trigger] order[i] as int] < counts[#[trigger] order[j] as int]
            || (counts[order[i] as int] == counts[order[j] as int] && order[i] < order[j])
}

/// Symbol `a` comes before symbol `b`: a smaller count, or an equal count and
/// a smaller index.
pub open spec fn key_lt(counts: Seq<usize>, a: usize, b: usize) -> bool {
    counts[a as int] < counts[b as int] || (counts[a as int] == counts[b as int] && a < b)
}

/// Two sequences without duplicates, strictly increasing by `key_lt` and
/// holding the same symbols, are equal.
proof fn lemma_key_sorted_unique(counts: Seq<usize>, o1: Seq<usize>, o2: Seq<usize>)
    requires
        o1.no_duplicates(),
        o2.no_duplicates(),
        forall|i: int, j: int| 0 <= i < j < o1.len() ==> key_lt(counts, #[trigger] o1[i], #[trigger] o1[j]),
        forall|i: int, j: int| 0 <= i < j < o2.len() ==> key_lt(counts, #[trigger] o2[i], #[trigger] o2[j]),
        forall|e: usize| o1.contains(e) <==> o2.contains(e),
    ensures
        o1 == o2,
    decreases o1.len(),
{
    if o1.len() == 0 {
        if o2.len() > 0 {
            assert(o2.contains(o2[0]));
        }
        assert(o1 =~= o2);
    } else {
        assert(o1.contains(o1[0]));
        assert(o2.len() > 0);
        assert(o2.contains(o2[0]));
        let a = o1[0];
        let b = o2[0];
        let ja = choose|j: int| 0 <= j < o2.len() && o2[j] == a;
        let jb = choose|j: int| 0 <= j < o1.len() && o1[j] == b;
        if a != b {
            assert(ja > 0);
            assert(jb > 0);
            assert(key_lt(counts, b, a));
            assert(key_lt(counts, a, b));
        }
        let t1 = o1.drop_first();
        let t2 = o2.drop_first();
        assert forall|e: usize| t1.contains(e) <==> t2.contains(e) by {
            if t1.contains(e) {
                let j = choose|j: int| 0 <= j < t1.len() && t1[j] == e;
                assert(o1[j + 1] == e);
                assert(e != a);
                assert(o1.contains(e));
                let k = choose|k: int| 0 <= k < o2.len() && o2[k] == e;
                assert(k != 0);
                assert(t2[k - 1] == e);
            }
            if t2.contains(e) {
                let j = choose|j: int| 0 <= j < t2.len() && t2[j] == e;
                assert(o2[j + 1] == e);
                assert(e != b);
                assert(o2.contains(e));
                let k = choose|k: int| 0 <= k < o1.len() && o1[k] == e;
                assert(k != 0);
                assert(t1[k - 1] == e);
            }
        }
        assert forall|i: int, j: int| 0 <= i < j < t1.len() implies key_lt(counts, #[trigger] t1[i], #[trigger] t1[j]) by {
            assert(t1[i] == o1[i + 1] && t1[j] == o1[j + 1]);
        }
        assert forall|i: int, j: int| 0 <= i < j < t2.len() implies key_lt(counts, #[trigger] t2[i], #[trigger] t2[j]) by {
            assert(t2[i] == o2[i + 1] && t2[j] == o2[j + 1]);
        }
        lemma_key_sorted_unique(counts, t1, t2);
        assert(o1 =~= seq![a] + t1);
        assert(o2 =~= seq![b] + t2);
    }
}

/// The support of `counts` has one ordering by ascending count and index.
pub proof fn lemma_sorted_support_unique(counts: Seq<usize>, o1: Seq<usize>, o2: Seq<usize>)
    requires
        sorted_support(counts, o1),
        sorted_support(counts, o2),
    ensures
        o1 == o2,
{
    assert forall|e: usize| o1.contains(e) <==> o2.contains(e) by {
        if o1.contains(e) {
            let j = choose|j: int| 0 <= j < o1.len() && o1[j] == e;
            assert(o1[j] < counts.len() && counts[o1[j] as int] > 0);
            assert(o2.contains(e as int as usize));
        }
        if o2.contains(e) {
            let j = choose|j: int| 0 <= j < o2.len() && o2[j] == e;
            assert(o2[j] < counts.len() && counts[o2[j] as int] > 0);
            assert(o1.contains(e as int as usize));
        }
    }
    lemma_key_sorted_unique(counts, o1, o2);
}

/// `m` is the model that `from_counts` builds from `counts` with its own
/// fidelity, radix and frame size: frequencies scaled from the counts in
/// ascending-count order, or one symbol filling the frame when nothing occurs.
pub open spec fn models_counts(m: ANSComponentModel4Encoder, counts: Seq<usize>) -> bool {
    &&& m.wf()
    &&& support_count(counts) > 0 ==> m.table@.len() == counts.len()
    &&& support_count(counts) > 0 ==> exists|order: Seq<usize>|
        #[trigger] sorted_support(counts, order) && forall|x: int|
            0 <= x < counts.len() ==> m.table@[x].freq == scaled_freqs(
                counts,
                order,
                capped_sum(counts),
                pow2(m.frame_size as nat),
            )[x]
    &&& support_count(counts) == 0 ==> m.table@.len() == 1 && m.table@[0].freq == pow2(
        m.frame_size as nat,
    )
}

/// The sum of the counts, or the largest `usize` if it does not fit.
pub open spec fn capped_sum(s: Seq<usize>) -> nat {
    if seq_sum(s) <= usize::MAX {
        seq_sum(s) as nat
    } else {
        usize::MAX as nat
    }
}

/// The model of one component.
#[derive(Clone, Debug)]
pub struct ANSComponentModel4Encoder {
    /// The entry of each folded symbol, at its index.
    pub table: Vec<EncoderModelEntry>,
    /// The log2 of the frame size.
    pub frame_size: usize,
    /// The radix of the folding.
    pub radix: usize,
    /// The fidelity of the folding.
    pub fidelity: usize,
    /// The first folded symbol that is not a singleton.
    pub folding_threshold: u64,
    /// The width of each bucket of folded symbols.
    pub folding_offset: u64,
}

impl ANSComponentModel4Encoder {
    /// The entry of folded symbol `x` is consistent with the rest of the model.
    pub open spec fn entry_ok(&self, x: int) -> bool {
        let e = self.table@[x];
        &&& e.cumul_freq == freq_sum(self.table@, x)
        &&& e.upperbound == upper_bound(e.freq as nat, self.frame_size as nat)
        &&& e.quasi_folded == quasi_folded(x as nat, self.fidelity as nat, self.radix as nat)
    }

    /// Well-formedness: valid parameters, and frequencies that sum to the frame size.
    pub open spec fn wf(&self) -> bool {
        &&& valid_params(self.fidelity as nat, self.radix as nat)
        &&& 1 <= self.frame_size <= MAX_LOG2_FRAME_SIZE
        &&& self.folding_threshold == threshold(self.fidelity as nat, self.radix as nat)
        &&& self.folding_offset == offset(self.fidelity as nat, self.radix as nat)
        &&& 1 <= self.table@.len() <= MAX_TABLE_LEN
        &&& freq_sum(self.table@, self.table@.len() as int) == pow2(self.frame_size as nat)
        &&& forall|x: int| 0 <= x < self.table@.len() ==> #[trigger] self.entry_ok(x)
    }

    /// The folded symbol of raw symbol `s` under this model's folding.
    pub open spec fn folded(&self, s: nat) -> nat {
        folded_symbol(s, self.fidelity as nat, self.radix as nat)
    }

    /// Whether raw symbol `s` can be encoded: its folded symbol has a frequency.
    pub open spec fn can_encode(&self, s: nat) -> bool {
        &&& s <= MAX_RAW_SYMBOL
        &&& self.folded(s) < self.table@.len()
        &&& self.table@[self.folded(s) as int].freq > 0
    }

    /// Returns the frequencies of the folded symbols.
    pub fn get_freqs(&self) -> (r: Vec<u32>)
        ensures
            r@.len() == self.table@.len(),
            forall|i: int| 0 <= i < r@.len() ==> r@[i] == #[trigger] self.table@[i].freq,
    {
        let mut r: Vec<u32> = Vec::new();
        let mut i: usize = 0;
        while i < self.table.len()
            invariant
                i <= self.table@.len(),
                r@.len() == i,
                forall|j: int| 0 <= j < i ==> r@[j] == #[trigger] self.table@[j].freq,
            decreases self.table@.len() - i,
        {
            r.push(self.table[i].freq);
            i = i + 1;
        }
        r
    }

    /// Builds the model of a component from the counts of its folded symbols,
    /// with the given folding parameters and frame size `2^log2_frame`.
    ///
    /// Symbol `x` gets a frequency exactly when `counts[x] > 0`. A component with
    /// no counts gets one symbol, zero, that fills the frame. Fails with
    /// `FrameTooSmall` exactly when there are more symbols than slots.
    #[verifier::rlimit(100)]
    pub fn from_counts(counts: &Vec<usize>, fidelity: usize, radix: usize, log2_frame: usize) -> (r:
        Result<Self, AnsError>)
        requires
            valid_params(fidelity as nat, radix as nat),
            1 <= log2_frame <= MAX_LOG2_FRAME_SIZE,
            counts@.len() <= MAX_TABLE_LEN,
        ensures
            r is Err <==> support_count(counts@) > pow2(log2_frame as nat),
            r is Err ==> r == Err::<Self, AnsError>(AnsError::FrameTooSmall),
            r matches Ok(m) ==> models_counts(m, counts@),
            r matches Ok(m) ==> {
                &&& m.wf()
                &&& m.fidelity == fidelity
                &&& m.radix == radix
                &&& m.frame_size == log2_frame
                &&& support_count(counts@) > 0 ==> m.table@.len() == counts@.len()
                &&& support_count(counts@) > 0 ==> forall|x: int|
                    0 <= x < counts@.len() ==> (#[trigger] m.table@[x].freq > 0 <==> counts@[x]
                        > 0)
                &&& support_count(counts@) > 0 ==> exists|order: Seq<usize>|
                    #[trigger] sorted_support(counts@, order) && forall|x: int|
                        0 <= x < counts@.len() ==> m.table@[x].freq == scaled_freqs(
                            counts@,
                            order,
                            capped_sum(counts@),
                            pow2(log2_frame as nat),
                        )[x]
                &&& support_count(counts@) == 0 ==> m.table@.len() == 1 && m.table@[0].freq
                    == pow2(log2_frame as nat)
            },
    {
        proof {
            lemma_threshold_offset(fidelity as nat, radix as nat);
            lemma2_to64();
            lemma_pow2_strictly_increases(log2_frame as nat, 32);
            if log2_frame < 28 {
                lemma_pow2_strictly_increases(log2_frame as nat, 28);
            }
        }
        let frame = pow2_u64(log2_frame as u64);
        let thr = pow2_u64((fidelity + radix - 1) as u64);
        let off = pow2_u64((fidelity - 1) as u64) * (pow2_u64(radix as u64) - 1);
        let (order, total) = support_order(counts);
        proof {
            lemma_support_count_nonzero(counts@, order@);
        }
        if order.len() == 0 {
            proof {
                lemma_pow2_adds(log2_frame as nat, (64 - log2_frame) as nat);
                assert(log2_frame as nat + (64 - log2_frame) as nat == 64);
                lemma2_to64_rest();
            }
            let e = EncoderModelEntry {
                freq: frame as u32,
                cumul_freq: 0,
                upperbound: (frame as u128) * (pow2_u64((64 - log2_frame) as u64) as u128),
                quasi_folded: 0,
            };
            let table = vec![e];
            let m = ANSComponentModel4Encoder {
                table,
                frame_size: log2_frame,
                radix,
                fidelity,
                folding_threshold: thr,
                folding_offset: off,
            };
            proof {
                assert(freq_sum(m.table@, 1) == freq_sum(m.table@, 0) + m.table@[0].freq);
                assert(m.entry_ok(0)) by {
                    assert(0nat < threshold(fidelity as nat, radix as nat));
                    assert(unfold_chunks(0, fidelity as nat, radix as nat) == 0);
                    assert(quasi_folded(0, fidelity as nat, radix as nat) == 0);
                }
            }
            return Ok(m);
        }
        let scaled = scale_freqs(counts.as_slice(), order.as_slice(), order.len(), total, frame as isize);
        let freqs = match scaled {
            Ok(f) => f,
            Err(e) => {
                return Err(e);
            },
        };
        proof {
            assert forall|t: int| 0 <= t < counts@.len() implies (#[trigger] freqs@[t] > 0 <==> counts@[t]
                > 0) by {
                if order@.contains(t as usize) {
                    let j = choose|j: int| 0 <= j < order@.len() && order@[j] == t as usize;
                    assert(freqs@[order@[j] as int] >= 1);
                    assert(counts@[order@[j] as int] > 0);
                } else {
                    assert(freqs@[t] == counts@[t]);
                }
            }
            assert(order@.len() > 0);
        }
        let table = table_of(&freqs, fidelity, radix, log2_frame, thr, off);
        assert(freqs@.take(freqs@.len() as int) =~= freqs@);
        assert(forall|t: int|
            0 <= t < counts@.len() ==> table@[t].freq == scaled_freqs(
                counts@,
                order@,
                capped_sum(counts@),
                pow2(log2_frame as nat),
            )[t]);
        Ok(
            ANSComponentModel4Encoder {
                table,
                frame_size: log2_frame,
                radix,
                fidelity,
                folding_threshold: thr,
                folding_offset: off,
            },
        )
    }
}


/// The symbols that occur in `counts`, by ascending count and then index,
/// and the sum of the counts (capped).
fn support_order(counts: &Vec<usize>) -> (r: (Vec<usize>, usize))
    ensures
        sorted_support(counts@, r.0@),
        r.0@.len() == support_count(counts@),
        r.1 == capped_sum(counts@),
{
    // The symbols that occur, by index, with their counts.
    let mut pairs: Vec<(usize, usize)> = Vec::new();
    let mut total: usize = 0;
    let mut k: usize = 0;
    while k < counts.len()
        invariant
            k <= counts@.len(),
            pairs@.len() == support_count(counts@.take(k as int)),
            total == capped_sum(counts@.take(k as int)),
            forall|j: int|
                0 <= j < pairs@.len() ==> (#[trigger] pairs@[j]).1 < k && pairs@[j].0
                    == counts@[pairs@[j].1 as int] && pairs@[j].0 > 0,
            forall|j1: int, j2: int|
                0 <= j1 < j2 < pairs@.len() ==> (#[trigger] pairs@[j1]).1 < (
                #[trigger] pairs@[j2]).1,
            forall|t: int|
                0 <= t < k && #[trigger] counts@[t] > 0 ==> pairs@.contains(
                    (counts@[t], t as usize),
                ),
        decreases counts@.len() - k,
    {
        assert(counts@.take(k + 1).drop_last() =~= counts@.take(k as int));
        proof {
            lemma_seq_sum_take(counts@, k as int);
            lemma_seq_sum_nonneg(counts@.take(k as int));
        }
        let c = counts[k];
        if c > 0 {
            let ghost before = pairs@;
            pairs.push((c, k));
            assert forall|t: int|
                0 <= t < k + 1 && #[trigger] counts@[t] > 0 implies pairs@.contains(
                (counts@[t], t as usize),
            ) by {
                if t < k {
                    let j = choose|j: int| 0 <= j < before.len() && before[j] == (counts@[t], t as usize);
                    assert(pairs@[j] == before[j]);
                } else {
                    assert(pairs@[pairs@.len() - 1] == (counts@[t], t as usize));
                }
            }
            total = if total <= usize::MAX - c {
                total + c
            } else {
                usize::MAX
            };
        }
        k = k + 1;
    }
    assert(counts@.take(counts@.len() as int) =~= counts@);
    let ghost unsorted = pairs@;
    sort_pairs(&mut pairs);
    proof {
        lemma_distinct_pairs(unsorted, pairs@, counts@);
    }
    let mut order: Vec<usize> = Vec::new();
    let mut j: usize = 0;
    while j < pairs.len()
        invariant
            j <= pairs@.len(),
            order@.len() == j,
            forall|t: int| 0 <= t < j ==> order@[t] == (#[trigger] pairs@[t]).1,
        decreases pairs@.len() - j,
    {
        order.push(pairs[j].1);
        j = j + 1;
    }
    proof {
        assert(order@.no_duplicates()) by {
            assert forall|a: int, b: int|
                0 <= a < order@.len() && 0 <= b < order@.len() && a != b implies order@[a]
                != order@[b] by {
                if order@[a] == order@[b] {
                    assert(pairs@[a] == pairs@[b]);
                }
            }
        }
        assert forall|t: int| 0 <= t < counts@.len() && #[trigger] counts@[t] > 0 implies order@.contains(
            t as usize,
        ) by {
            assert(pairs@.contains((counts@[t], t as usize)));
            let q = choose|q: int| 0 <= q < pairs@.len() && pairs@[q] == (counts@[t], t as usize);
            assert(order@[q] == t as usize);
        }
        assert forall|q: int| 0 <= q < order@.len() implies #[trigger] order@[q] < counts@.len()
            && counts@[order@[q] as int] > 0 by {
            assert(order@[q] == pairs@[q].1);
        }
    }
    proof {
        assert forall|a: int, b: int| 0 <= a < b < order@.len() implies counts@[#[trigger] order@[a] as int]
            < counts@[#[trigger] order@[b] as int] || (counts@[order@[a] as int]
            == counts@[order@[b] as int] && order@[a] < order@[b]) by {
            assert(order@[a] == pairs@[a].1 && order@[b] == pairs@[b].1);
            assert(order@[a] != order@[b]);
        }
        assert(sorted_support(counts@, order@));
    }
    (order, total)
}

/// Every symbol listed occurs, so the list is empty exactly when none does.
proof fn lemma_support_count_nonzero(counts: Seq<usize>, order: Seq<usize>)
    requires
        sorted_support(counts, order),
        order.len() == support_count(counts),
    ensures
        order.len() == 0 ==> forall|t: int| 0 <= t < counts.len() ==> counts[t] == 0,
{
    if order.len() == 0 {
        assert forall|t: int| 0 <= t < counts.len() implies counts[t] == 0 by {
            if counts[t] > 0 {
                assert(order.contains(t as usize));
            }
        }
    }
}

/// The entries of the folded symbols with frequencies `freqs`, which sum to
/// the frame size: cumulative frequencies, upper bounds and quasi-folded words.
fn table_of(
    freqs: &Vec<usize>,
    fidelity: usize,
    radix: usize,
    log2_frame: usize,
    thr: u64,
    off: u64,
) -> (table: Vec<EncoderModelEntry>)
    requires
        valid_params(fidelity as nat, radix as nat),
        1 <= log2_frame <= MAX_LOG2_FRAME_SIZE,
        freqs@.len() <= MAX_TABLE_LEN,
        seq_sum(freqs@) == pow2(log2_frame as nat),
        thr == threshold(fidelity as nat, radix as nat),
        off == offset(fidelity as nat, radix as nat),
    ensures
        table@.len() == freqs@.len(),
        freq_sum(table@, table@.len() as int) == pow2(log2_frame as nat),
        forall|t: int| 0 <= t < table@.len() ==> (#[trigger] table@[t]).freq == freqs@[t],
        forall|t: int|
            0 <= t < table@.len() ==> {
                let e = #[trigger] table@[t];
                &&& e.cumul_freq == freq_sum(table@, t)
                &&& e.upperbound == upper_bound(e.freq as nat, log2_frame as nat)
                &&& e.quasi_folded == quasi_folded(t as nat, fidelity as nat, radix as nat)
            },
{
    proof {
        lemma2_to64();
        lemma_pow2_strictly_increases(log2_frame as nat, 32);
        if log2_frame < 28 {
            lemma_pow2_strictly_increases(log2_frame as nat, 28);
        }
    }
    let frame = pow2_u64(log2_frame as u64);
    let p = pow2_u64((64 - log2_frame) as u64);
    let mut table: Vec<EncoderModelEntry> = Vec::new();
    let mut cumul: u64 = 0;
    let mut x: usize = 0;
    while x < freqs.len()
        invariant
            valid_params(fidelity as nat, radix as nat),
            1 <= log2_frame <= MAX_LOG2_FRAME_SIZE,
            frame == pow2(log2_frame as nat),
            frame <= 0x1000_0000,
            p == pow2((64 - log2_frame) as nat),
            thr == threshold(fidelity as nat, radix as nat),
            off == offset(fidelity as nat, radix as nat),
            freqs@.len() <= MAX_TABLE_LEN,
            seq_sum(freqs@) == frame,
            x <= freqs@.len(),
            table@.len() == x,
            cumul == freq_sum(table@, x as int),
            cumul == seq_sum(freqs@.take(x as int)),
            forall|t: int| 0 <= t < x ==> (#[trigger] table@[t]).freq == freqs@[t],
            forall|t: int|
                0 <= t < x ==> {
                    let e = #[trigger] table@[t];
                    &&& e.cumul_freq == freq_sum(table@, t)
                    &&& e.upperbound == upper_bound(e.freq as nat, log2_frame as nat)
                    &&& e.quasi_folded == quasi_folded(t as nat, fidelity as nat, radix as nat)
                },
        decreases freqs@.len() - x,
    {
        let f = freqs[x];
        proof {
            lemma_seq_sum_elem(freqs@, x as int);
            lemma_seq_sum_take(freqs@, x as int);
            lemma_prefix_sum_le(freqs@, x as int + 1);
            lemma_pow2_strictly_increases(log2_frame as nat, 32);
            if 64 - log2_frame < 63 {
                lemma_pow2_strictly_increases((64 - log2_frame) as nat, 63);
            }
            lemma2_to64_rest();
            assert((f as int) * (p as int) <= 0x1000_0000 * 0x8000_0000_0000_0000) by (
            nonlinear_arith)
                requires
                    f <= 0x1000_0000,
                    p <= 0x8000_0000_0000_0000,
            ;
        }
        let e = EncoderModelEntry {
            freq: f as u32,
            cumul_freq: cumul as u32,
            upperbound: (f as u128) * (p as u128),
            quasi_folded: quasi_of(x as u64, fidelity, radix, thr, off),
        };
        let ghost before = table@;
        table.push(e);
        proof {
            assert forall|t: int| 0 <= t <= x implies freq_sum(table@, t) == freq_sum(before, t)
                || t == x + 1 by {
                lemma_freq_sum_prefix(before, table@, t);
            }
            lemma_freq_sum_prefix(before, table@, x as int);
            assert(freq_sum(table@, x + 1) == freq_sum(table@, x as int) + f);
        }
        cumul = cumul + f as u64;
        x = x + 1;
    }
    assert(freqs@.take(freqs@.len() as int) =~= freqs@);
    table
}

/// A prefix of counts sums to at most the whole.
proof fn lemma_prefix_sum_le(s: Seq<usize>, i: int)
    requires
        0 <= i <= s.len(),
    ensures
        seq_sum(s.take(i)) <= seq_sum(s),
    decreases s.len(),
{
    if i == s.len() {
        assert(s.take(i) =~= s);
    } else {
        lemma_prefix_sum_le(s.drop_last(), i);
        assert(s.drop_last().take(i) =~= s.take(i));
    }
}

/// Appending entries keeps the sums of earlier prefixes.
proof fn lemma_freq_sum_prefix(a: Seq<EncoderModelEntry>, b: Seq<EncoderModelEntry>, n: int)
    requires
        0 <= n <= a.len() <= b.len(),
        forall|i: int| 0 <= i < a.len() ==> a[i] == b[i],
    ensures
        freq_sum(a, n) == freq_sum(b, n),
    decreases n,
{
    if n > 0 {
        lemma_freq_sum_prefix(a, b, n - 1);
    }
}

/// Prefix sums of frequencies grow with the prefix.
pub proof fn lemma_freq_sum_mono(t: Seq<EncoderModelEntry>, i: int, j: int)
    requires
        0 <= i <= j <= t.len(),
    ensures
        freq_sum(t, i) <= freq_sum(t, j),
    decreases j - i,
{
    if i < j {
        lemma_freq_sum_mono(t, i, j - 1);
    }
}

impl ANSComponentModel4Encoder {
    /// The slots of a symbol lie within the frame.
    pub proof fn lemma_entry_in_frame(&self, x: int)
        requires
            self.wf(),
            0 <= x < self.table@.len(),
        ensures
            self.table@[x].cumul_freq + self.table@[x].freq <= pow2(self.frame_size as nat),
            self.table@[x].freq <= pow2(self.frame_size as nat),
    {
        assert(self.entry_ok(x));
        lemma_freq_sum_mono(self.table@, x + 1, self.table@.len() as int);
    }

    /// Two symbols whose slots share a slot are the same symbol.
    pub proof fn lemma_slot_unique(&self, x: int, y: int, slot: int)
        requires
            self.wf(),
            0 <= x < self.table@.len(),
            0 <= y < self.table@.len(),
            self.table@[x].cumul_freq <= slot < self.table@[x].cumul_freq + self.table@[x].freq,
            self.table@[y].cumul_freq <= slot < self.table@[y].cumul_freq + self.table@[y].freq,
        ensures
            x == y,
    {
        assert(self.entry_ok(x));
        assert(self.entry_ok(y));
        if x < y {
            lemma_freq_sum_mono(self.table@, x + 1, y);
        } else if y < x {
            lemma_freq_sum_mono(self.table@, y + 1, x);
        }
    }
}

/// After sorting, the pairs are still distinct, each made of a count and its
/// index, and hold every symbol that occurs.
proof fn lemma_distinct_pairs(a: Seq<(usize, usize)>, b: Seq<(usize, usize)>, counts: Seq<usize>)
    requires
        a.to_multiset() == b.to_multiset(),
        forall|j1: int, j2: int| 0 <= j1 < j2 < a.len() ==> (#[trigger] a[j1]).1 < (#[trigger] a[j2]).1,
        forall|j: int|
            0 <= j < a.len() ==> (#[trigger] a[j]).1 < counts.len() && a[j].0 == counts[a[j].1 as int]
                && a[j].0 > 0,
    ensures
        b.len() == a.len(),
        b.no_duplicates(),
        forall|j: int|
            0 <= j < b.len() ==> (#[trigger] b[j]).1 < counts.len() && b[j].0 == counts[b[j].1 as int]
                && b[j].0 > 0,
        forall|p: (usize, usize)| a.contains(p) ==> b.contains(p),
{
    a.to_multiset_ensures();
    b.to_multiset_ensures();
    assert(a.no_duplicates()) by {
        assert forall|i: int, j: int| 0 <= i < a.len() && 0 <= j < a.len() && i != j implies a[i]
            != a[j] by {
            if i < j {
                assert(a[i].1 < a[j].1);
            } else {
                assert(a[j].1 < a[i].1);
            }
        }
    }
    a.lemma_multiset_has_no_duplicates();
    b.lemma_multiset_has_no_duplicates_conv();
    assert forall|j: int| 0 <= j < b.len() implies (#[trigger] b[j]).1 < counts.len() && b[j].0
        == counts[b[j].1 as int] && b[j].0 > 0 by {
        assert(b.to_multiset().count(b[j]) > 0);
        assert(a.to_multiset().count(b[j]) > 0);
        let k = choose|k: int| 0 <= k < a.len() && a[k] == b[j];
        assert(a[k] == b[j]);
    }
    assert forall|p: (usize, usize)| a.contains(p) implies b.contains(p) by {
        assert(a.to_multiset().count(p) > 0);
        assert(b.to_multiset().count(p) > 0);
    }
}

/// Relies on `slice::sort_unstable`: it permutes the pairs into ascending
/// (lexicographic) order.
#[verifier::external_body]
fn sort_pairs(v: &mut Vec<(usize, usize)>)
    ensures
        final(v)@.to_multiset() == old(v)@.to_multiset(),
        forall|i: int, j: int|
            0 <= i < j < final(v)@.len() ==> (#[trigger] final(v)@[i]).0 < (#[trigger] final(v)@[j]).0
                || (final(v)@[i].0 == final(v)@[j].0 && final(v)@[i].1 <= final(v)@[j].1),
{
    v.sort_unstable();
}

/// Returns the quasi-folded word of folded symbol `x`.
fn quasi_of(x: u64, fidelity: usize, radix: usize, thr: u64, off: u64) -> (q: u64)
    requires
        valid_params(fidelity as nat, radix as nat),
        x < MAX_TABLE_LEN,
        thr == threshold(fidelity as nat, radix as nat),
        off == offset(fidelity as nat, radix as nat),
    ensures
        q == quasi_folded(x as nat, fidelity as nat, radix as nat),
{
    proof {
        lemma_threshold_offset(fidelity as nat, radix as nat);
        lemma2_to64();
    }
    if x < thr {
        assert(unfold_chunks(x as nat, fidelity as nat, radix as nat) == 0);
        assert(0 * radix == 0);
        x * 256
    } else {
        let c = if radix == 1 {
            (x - thr) / off + 1
        } else {
            x / off
        };
        proof {
            lemma_fundamental_div_mod(x as int, off as int);
            lemma_mod_pos_bound(x as int, off as int);
            let d = (x - thr) as int;
            let o = off as int;
            lemma_fundamental_div_mod(d, o);
            lemma_mod_pos_bound(d, o);
            if radix == 1 {
                assert(c * off <= x) by (nonlinear_arith)
                    requires
                        c == d / o + 1,
                        d == o * (d / o) + d % o,
                        d % o >= 0,
                        d == x - thr,
                        o == off,
                        thr >= off,
                ;
            } else {
                assert(c * off <= x) by (nonlinear_arith)
                    requires
                        c == x / off,
                        x == off * (x / off) + x % off,
                        x % off >= 0,
                ;
            }
            assert(c <= x) by (nonlinear_arith)
                requires
                    c * off <= x,
                    off >= 1,
                    c >= 0,
            ;
        }
        assert(c * radix <= 0x100_0000 * 8) by (nonlinear_arith)
            requires
                c <= 0x100_0000,
                radix <= 8,
        ;
        let top = x - c * off;
        assert(unfold_chunks(x as nat, fidelity as nat, radix as nat) == c);
        top * 256 + c * (radix as u64)
    }
}

/// The model of every component, used by the encoder.
#[derive(Clone, Debug)]
pub struct ANSModel4Encoder {
    /// One model per component, in wire order.
    pub tables: Vec<ANSComponentModel4Encoder>,
}

impl ANSModel4Encoder {
    /// One well-formed model per component.
    pub open spec fn wf(&self) -> bool {
        &&& self.tables@.len() == COMPONENTS
        &&& forall|c: int| 0 <= c < COMPONENTS ==> (#[trigger] self.tables@[c]).wf()
    }

    /// The model of component `c`.
    pub open spec fn model(&self, c: BVGraphComponent) -> ANSComponentModel4Encoder {
        self.tables@[c.idx() as int]
    }

    /// Returns the frame mask `2^l - 1` of the component.
    pub fn get_frame_mask(&self, component: BVGraphComponent) -> (r: u64)
        requires
            self.wf(),
        ensures
            r + 1 == pow2(self.model(component).frame_size as nat),
    {
        let i = component.index();
        assert(self.tables@[i as int].wf());
        proof {
            lemma_pow2_pos(self.tables@[i as int].frame_size as nat);
        }
        pow2_u64(self.tables[i].frame_size as u64) - 1
    }

    /// Returns the log2 of the frame size of the component.
    pub fn get_log2_frame_size(&self, component: BVGraphComponent) -> (r: usize)
        requires
            self.wf(),
        ensures
            r == self.model(component).frame_size,
    {
        self.tables[component.index()].frame_size
    }

    /// Returns the radix of the component.
    pub fn get_radix(&self, component: BVGraphComponent) -> (r: usize)
        requires
            self.wf(),
        ensures
            r == self.model(component).radix,
    {
        self.tables[component.index()].radix
    }

    /// Returns the fidelity of the component.
    pub fn get_fidelity(&self, component: BVGraphComponent) -> (r: usize)
        requires
            self.wf(),
        ensures
            r == self.model(component).fidelity,
    {
        self.tables[component.index()].fidelity
    }

    /// Returns the entry of folded symbol `symbol` of the component.
    pub fn symbol(&self, symbol: usize, component: BVGraphComponent) -> (r: &EncoderModelEntry)
        requires
            self.wf(),
            symbol < self.model(component).table@.len(),
        ensures
            *r == self.model(component).table@[symbol as int],
    {
        &self.tables[component.index()].table[symbol]
    }

    /// Returns the folding offset of the component.
    pub fn get_folding_offset(&self, component: BVGraphComponent) -> (r: u64)
        requires
            self.wf(),
        ensures
            r == self.model(component).folding_offset,
    {
        self.tables[component.index()].folding_offset
    }

    /// Returns the folding threshold of the component.
    pub fn get_folding_threshold(&self, component: BVGraphComponent) -> (r: u64)
        requires
            self.wf(),
        ensures
            r == self.model(component).folding_threshold,
    {
        self.tables[component.index()].folding_threshold
    }

    /// Returns the fidelity and radix of each component, in wire order.
    pub fn get_component_args(&self) -> (r: Vec<(usize, usize)>)
        ensures
            r@.len() == self.tables@.len(),
            forall|i: int|
                0 <= i < r@.len() ==> r@[i] == ((#[trigger] self.tables@[i]).fidelity,
                self.tables@[i].radix),
    {
        let mut r: Vec<(usize, usize)> = Vec::new();
        let mut i: usize = 0;
        while i < self.tables.len()
            invariant
                i <= self.tables@.len(),
                r@.len() == i,
                forall|j: int|
                    0 <= j < i ==> r@[j] == ((#[trigger] self.tables@[j]).fidelity,
                    self.tables@[j].radix),
            decreases self.tables@.len() - i,
        {
            r.push((self.tables[i].fidelity, self.tables[i].radix));
            i = i + 1;
        }
        r
    }
}

impl ANSModel4Encoder {
    /// Returns whether raw symbol `symbol` of component `component` can be encoded.
    pub fn can_encode(&self, symbol: u64, component: BVGraphComponent) -> (r: bool)
        requires
            self.wf(),
        ensures
            r == self.model(component).can_encode(symbol as nat),
    {
        if symbol > MAX_RAW_SYMBOL {
            return false;
        }
        let c = component.index();
        assert(self.tables@[c as int].wf());
        let mut scratch: Vec<u8> = Vec::new();
        let x = crate::folding::fold_symbol(
            symbol,
            self.tables[c].fidelity,
            self.tables[c].radix,
            &mut scratch,
        );
        x < self.tables[c].table.len() as u64 && self.tables[c].table[x as usize].freq > 0
    }
}

/// Returns whether `tables` make a well-formed model: nine component models,
/// each with valid parameters, consistent entries, and frequencies that sum
/// to its frame size.
pub fn tables_are_valid(tables: &Vec<ANSComponentModel4Encoder>) -> (r: bool)
    ensures
        r == (ANSModel4Encoder { tables: *tables }).wf(),
{
    if tables.len() != COMPONENTS {
        return false;
    }
    let mut c: usize = 0;
    while c < COMPONENTS
        invariant
            tables@.len() == COMPONENTS,
            c <= COMPONENTS,
            forall|k: int| 0 <= k < c ==> (#[trigger] tables@[k]).wf(),
        decreases COMPONENTS - c,
    {
        if !tables[c].is_valid() {
            return false;
        }
        c = c + 1;
    }
    true
}

impl ANSComponentModel4Encoder {
    /// Returns whether the model is well-formed.
    pub fn is_valid(&self) -> (r: bool)
        ensures
            r == self.wf(),
    {
        let fidelity = self.fidelity;
        let radix = self.radix;
        let l = self.frame_size;
        if fidelity < 1 || fidelity > crate::folding::MAX_FIDELITY || radix < 1 || radix
            > crate::folding::MAX_RADIX || l < 1 || l > MAX_LOG2_FRAME_SIZE {
            return false;
        }
        if self.table.len() < 1 || self.table.len() > MAX_TABLE_LEN {
            return false;
        }
        proof {
            lemma_threshold_offset(fidelity as nat, radix as nat);
            lemma2_to64();
            lemma_pow2_strictly_increases(l as nat, 32);
            if 64 - l < 63 {
                lemma_pow2_strictly_increases((64 - l) as nat, 63);
            }
            lemma2_to64_rest();
        }
        let thr = pow2_u64((fidelity + radix - 1) as u64);
        let off = pow2_u64((fidelity - 1) as u64) * (pow2_u64(radix as u64) - 1);
        if self.folding_threshold != thr || self.folding_offset != off {
            return false;
        }
        let frame = pow2_u64(l as u64);
        let p = pow2_u64((64 - l) as u64);
        let mut cumul: u64 = 0;
        let mut x: usize = 0;
        while x < self.table.len()
            invariant
                valid_params(fidelity as nat, radix as nat),
                fidelity == self.fidelity,
                radix == self.radix,
                l == self.frame_size,
                1 <= l <= MAX_LOG2_FRAME_SIZE,
                1 <= self.table@.len() <= MAX_TABLE_LEN,
                frame == pow2(l as nat),
                frame <= 0x1000_0000,
                p == pow2((64 - l) as nat),
                p <= 0x8000_0000_0000_0000,
                thr == threshold(fidelity as nat, radix as nat),
                off == offset(fidelity as nat, radix as nat),
                x <= self.table@.len(),
                cumul == freq_sum(self.table@, x as int),
                cumul <= frame,
                forall|t: int| 0 <= t < x ==> #[trigger] self.entry_ok(t),
            decreases self.table@.len() - x,
        {
            let e = self.table[x];
            if e.cumul_freq as u64 != cumul {
                assert(!self.entry_ok(x as int));
                return false;
            }
            assert((e.freq as int) * (p as int) <= 0xFFFF_FFFF * 0x8000_0000_0000_0000) by (
            nonlinear_arith)
                requires
                    e.freq <= 0xFFFF_FFFF,
                    p <= 0x8000_0000_0000_0000,
            ;
            if e.upperbound != (e.freq as u128) * (p as u128) {
                assert(!self.entry_ok(x as int));
                return false;
            }
            if e.quasi_folded != quasi_of(x as u64, fidelity, radix, thr, off) {
                assert(!self.entry_ok(x as int));
                return false;
            }
            if e.freq as u64 > frame - cumul {
                proof {
                    assert(freq_sum(self.table@, x + 1) > frame);
                    lemma_freq_sum_mono(self.table@, x + 1, self.table@.len() as int);
                }
                return false;
            }
            cumul = cumul + e.freq as u64;
            x = x + 1;
        }
        cumul == frame
    }
}

} // verus!
