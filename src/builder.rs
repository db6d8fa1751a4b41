//! The model builder: it records the raw symbols of each component and, at
//! build time, picks for each component the fidelity, radix and frame size
//! that minimise an estimate of the bits spent.
use crate::bits::pow2_u64;
use crate::codec::MAX_LOG2_FRAME_SIZE;
use crate::component::{BVGraphComponent, COMPONENTS};
use crate::data_utils::{lemma_support_count_bounds, support_count};
use crate::error::AnsError;
use crate::estimators::{floor_log2, lemma_floor_log2_bound, DEFAULT_FIDELITY};
use crate::folding::{
    fold_chunks,
    fold_symbol,
    folded_symbol,
    lemma_fold_basics,
    lemma_fold_symbol_bounds,
    valid_params,
    MAX_FIDELITY,
    MAX_RADIX,
};
use crate::data_utils::scaled_freqs;
use crate::model4encoder::{
    capped_sum,
    lemma_sorted_support_unique,
    models_counts,
    sorted_support,
    ANSComponentModel4Encoder,
    ANSModel4Encoder,
    EncoderModelEntry,
    MAX_TABLE_LEN,
};
use crate::{RawSymbol, FASTER_RADIX, MAX_RAW_SYMBOL};
use vstd::arithmetic::div_mod::*;
use vstd::arithmetic::mul::*;
use vstd::arithmetic::power2::*;
use vstd::prelude::*;

verus! {

/// Collects raw symbols per component and builds the encoder's model.
#[derive(Clone, Debug)]
pub struct ANSModel4EncoderBuilder {
    /// The raw symbols pushed so far, per component in wire order.
    pub symbols: Vec<Vec<RawSymbol>>,
}

/// Every symbol is a raw symbol.
pub open spec fn all_raw(s: Seq<RawSymbol>) -> bool {
    forall|i: int| 0 <= i < s.len() ==> #[trigger] s[i] <= MAX_RAW_SYMBOL
}

/// Model `m` can encode every symbol of `s`.
pub open spec fn covers(m: ANSComponentModel4Encoder, s: Seq<RawSymbol>) -> bool {
    forall|i: int| 0 <= i < s.len() ==> m.can_encode(#[trigger] s[i] as nat)
}

/// One more occurrence of folded symbol `x` in `counts`, which grows with
/// zeros as needed.
pub open spec fn bump(counts: Seq<usize>, x: nat) -> Seq<usize> {
    if x < counts.len() {
        counts.update(x as int, (counts[x as int] + 1) as usize)
    } else {
        counts + Seq::new((x - counts.len()) as nat, |i: int| 0usize) + seq![1usize]
    }
}

/// The counts of the folded symbols of `symbols`, indexed by folded symbol.
pub open spec fn folded_counts(symbols: Seq<RawSymbol>, fidelity: nat, radix: nat) -> Seq<usize>
    decreases symbols.len(),
{
    if symbols.len() == 0 {
        Seq::empty()
    } else {
        bump(
            folded_counts(symbols.drop_last(), fidelity, radix),
            folded_symbol(symbols.last() as nat, fidelity, radix),
        )
    }
}

/// `m` is the model built, with its own fidelity, radix and frame size, from
/// the counts of the folded symbols of `symbols`.
pub open spec fn models_symbols(m: ANSComponentModel4Encoder, symbols: Seq<RawSymbol>) -> bool {
    models_counts(m, folded_counts(symbols, m.fidelity as nat, m.radix as nat))
}

impl ANSModel4EncoderBuilder {
    /// Nine lists of raw symbols.
    pub open spec fn wf(&self) -> bool {
        &&& self.symbols@.len() == COMPONENTS
        &&& forall|c: int| 0 <= c < COMPONENTS ==> all_raw(#[trigger] self.symbols@[c]@)
    }

    /// A builder with no symbols.
    pub fn new() -> (r: Self)
        ensures
            r.wf(),
            forall|c: int| 0 <= c < COMPONENTS ==> (#[trigger] r.symbols@[c])@.len() == 0,
    {
        let mut symbols: Vec<Vec<RawSymbol>> = Vec::new();
        let mut c: usize = 0;
        while c < COMPONENTS
            invariant
                c <= COMPONENTS,
                symbols@.len() == c,
                forall|k: int| 0 <= k < c ==> (#[trigger] symbols@[k])@.len() == 0,
            decreases COMPONENTS - c,
        {
            symbols.push(Vec::new());
            c = c + 1;
        }
        ANSModel4EncoderBuilder { symbols }
    }

    /// Records raw symbol `symbol` of component `component`.
    ///
    /// Fails with `ParameterError`, recording nothing, when the symbol is above
    /// the largest raw symbol.
    pub fn push_symbol(&mut self, symbol: RawSymbol, component: BVGraphComponent) -> (r: Result<
        (),
        AnsError,
    >)
        requires
            old(self).wf(),
        ensures
            final(self).wf(),
            r is Ok <==> symbol <= MAX_RAW_SYMBOL,
            r is Ok ==> final(self).symbols@.len() == COMPONENTS && forall|c: int|
                0 <= c < COMPONENTS ==> (#[trigger] final(self).symbols@[c])@ == if c
                    == component.idx() {
                    old(self).symbols@[c]@.push(symbol)
                } else {
                    old(self).symbols@[c]@
                },
            r is Err ==> r == Err::<(), AnsError>(AnsError::ParameterError) && *final(self) == *old(
                self,
            ),
    {
        if symbol > MAX_RAW_SYMBOL {
            return Err(AnsError::ParameterError);
        }
        let c = component.index();
        self.symbols[c].push(symbol);
        Ok(())
    }
}


impl ANSModel4EncoderBuilder {
    /// Builds the model of every component from the symbols pushed so far.
    ///
    /// Each component gets the model that `from_counts` builds from the counts
    /// of its folded symbols, with the fidelity, radix and frame size whose
    /// estimated cost (`symbols_cost`: the bits of its symbols plus those of
    /// its table) is least among all candidates; the model can encode every
    /// symbol pushed to it.
    pub fn build(self) -> (r: ANSModel4Encoder)
        requires
            self.wf(),
        ensures
            r.wf(),
            forall|c: int| 0 <= c < COMPONENTS ==> covers(#[trigger] r.tables@[c], self.symbols@[c]@),
            forall|c: int|
                0 <= c < COMPONENTS ==> models_symbols(#[trigger] r.tables@[c], self.symbols@[c]@),
            forall|c: int, m2: ANSComponentModel4Encoder|
                0 <= c < COMPONENTS && candidate(m2, self.symbols@[c]@) ==> symbols_cost(
                    #[trigger] r.tables@[c],
                    self.symbols@[c]@,
                ) <= #[trigger] symbols_cost(m2, self.symbols@[c]@),
    {
        let mut tables: Vec<ANSComponentModel4Encoder> = Vec::new();
        let mut c: usize = 0;
        while c < COMPONENTS
            invariant
                self.wf(),
                c <= COMPONENTS,
                tables@.len() == c,
                forall|k: int|
                    0 <= k < c ==> (#[trigger] tables@[k]).wf() && covers(tables@[k], self.symbols@[k]@)
                        && models_symbols(tables@[k], self.symbols@[k]@),
                forall|k: int, m2: ANSComponentModel4Encoder|
                    0 <= k < c && candidate(m2, self.symbols@[k]@) ==> symbols_cost(
                        #[trigger] tables@[k],
                        self.symbols@[k]@,
                    ) <= #[trigger] symbols_cost(m2, self.symbols@[k]@),
            decreases COMPONENTS - c,
        {
            assert(all_raw(self.symbols@[c as int]@));
            let m = build_component(&self.symbols[c]);
            tables.push(m);
            c = c + 1;
        }
        ANSModel4Encoder { tables }
    }
}

/// Picks, over every fidelity and radix, the model of least estimated cost.
fn build_component(symbols: &Vec<RawSymbol>) -> (r: ANSComponentModel4Encoder)
    requires
        all_raw(symbols@),
    ensures
        r.wf(),
        covers(r, symbols@),
        models_symbols(r, symbols@),
        forall|m2: ANSComponentModel4Encoder|
            candidate(m2, symbols@) ==> symbols_cost(r, symbols@) <= #[trigger] symbols_cost(
                m2,
                symbols@,
            ),
{
    let first = best_frame(symbols, DEFAULT_FIDELITY, FASTER_RADIX);
    let mut best = first.0;
    let mut best_cost = first.1;
    let mut fidelity: usize = 1;
    while fidelity <= MAX_FIDELITY
        invariant
            all_raw(symbols@),
            1 <= fidelity <= MAX_FIDELITY + 1,
            best.wf(),
            covers(best, symbols@),
            models_symbols(best, symbols@),
            best_cost == symbols_cost(best, symbols@),
            forall|m2: ANSComponentModel4Encoder|
                candidate(m2, symbols@) && (m2.fidelity < fidelity || (m2.fidelity == DEFAULT_FIDELITY
                    && m2.radix == FASTER_RADIX)) ==> best_cost <= #[trigger] symbols_cost(
                    m2,
                    symbols@,
                ),
        decreases MAX_FIDELITY + 1 - fidelity,
    {
        let mut radix: usize = 1;
        while radix <= MAX_RADIX
            invariant
                all_raw(symbols@),
                1 <= fidelity <= MAX_FIDELITY,
                1 <= radix <= MAX_RADIX + 1,
                best.wf(),
                covers(best, symbols@),
                models_symbols(best, symbols@),
                best_cost == symbols_cost(best, symbols@),
                forall|m2: ANSComponentModel4Encoder|
                    candidate(m2, symbols@) && (m2.fidelity < fidelity || (m2.fidelity == fidelity
                        && m2.radix < radix) || (m2.fidelity == DEFAULT_FIDELITY && m2.radix
                        == FASTER_RADIX)) ==> best_cost <= #[trigger] symbols_cost(m2, symbols@),
            decreases MAX_RADIX + 1 - radix,
        {
            let tried = best_frame(symbols, fidelity, radix);
            let ghost old_cost = best_cost;
            if tried.1 < best_cost {
                best = tried.0;
                best_cost = tried.1;
            }
            proof {
                assert forall|m2: ANSComponentModel4Encoder|
                    candidate(m2, symbols@) && (m2.fidelity < fidelity || (m2.fidelity == fidelity
                        && m2.radix < radix + 1) || (m2.fidelity == DEFAULT_FIDELITY && m2.radix
                        == FASTER_RADIX)) implies best_cost <= #[trigger] symbols_cost(m2, symbols@) by {
                    if m2.fidelity == fidelity && m2.radix == radix {
                        assert(tried.1 <= symbols_cost(m2, symbols@));
                    } else {
                        assert(old_cost <= symbols_cost(m2, symbols@));
                    }
                }
            }
            radix = radix + 1;
        }
        fidelity = fidelity + 1;
    }
    proof {
        assert forall|m2: ANSComponentModel4Encoder| candidate(m2, symbols@) implies symbols_cost(
            best,
            symbols@,
        ) <= #[trigger] symbols_cost(m2, symbols@) by {
            assert(m2.fidelity < fidelity);
        }
    }
    best
}

/// For one fidelity and radix, tries every frame size from the smallest that
/// fits up to the largest; returns the model of least estimated cost (the
/// smallest frame among equals) and that cost.
pub(crate) fn best_frame(symbols: &Vec<RawSymbol>, fidelity: usize, radix: usize) -> (r: (
    ANSComponentModel4Encoder,
    u128,
))
    requires
        valid_params(fidelity as nat, radix as nat),
        all_raw(symbols@),
    ensures
        r.0.wf(),
        covers(r.0, symbols@),
        r.0.fidelity == fidelity,
        r.0.radix == radix,
        models_symbols(r.0, symbols@),
        r.1 == symbols_cost(r.0, symbols@),
        forall|m2: ANSComponentModel4Encoder|
            candidate(m2, symbols@) && m2.fidelity == fidelity && m2.radix == radix ==> r.1
                <= #[trigger] symbols_cost(m2, symbols@),
{
    let (counts, support, tail_bits) = fold_counts(symbols, fidelity, radix);
    proof {
        lemma_support_count_bounds(counts@, 0);
        lemma2_to64();
    }
    let mut l: usize = 1;
    while l < 24 && (pow2_u64(l as u64) as usize) < support
        invariant
            1 <= l <= 24,
            support <= MAX_TABLE_LEN,
            forall|l2: nat| 1 <= l2 < l ==> pow2(l2) < support,
        decreases 24 - l,
    {
        proof {
            lemma2_to64();
            lemma_pow2_strictly_increases(l as nat, 24);
        }
        assert(pow2(l as nat) < support);
        l = l + 1;
    }
    proof {
        if l == 24 {
            assert(pow2(24) == 0x100_0000) by {
                lemma2_to64();
            }
        }
    }
    let first = ANSComponentModel4Encoder::from_counts(&counts, fidelity, radix, l);
    let mut best = first.unwrap();
    proof {
        lemma_covers(best, symbols@, counts@);
    }
    let mut best_cost = model_cost(&best, &counts, tail_bits);
    let ghost first = l;
    proof {
        assert forall|m2: ANSComponentModel4Encoder|
            candidate(m2, symbols@) && m2.fidelity == fidelity && m2.radix == radix && m2.frame_size
                <= l implies best_cost <= #[trigger] symbols_cost(m2, symbols@) by {
            if m2.frame_size < first {
                assert(pow2(m2.frame_size as nat) < support);
            } else {
                lemma_same_model_cost(best, m2, symbols@);
            }
        }
    }
    while l < MAX_LOG2_FRAME_SIZE
        invariant
            valid_params(fidelity as nat, radix as nat),
            1 <= l <= MAX_LOG2_FRAME_SIZE,
            counts@.len() <= MAX_TABLE_LEN,
            tail_bits <= 0x1_0000_0000_0000_0000_0000_0000,
            support == support_count(counts@),
            forall|i: int|
                0 <= i < symbols@.len() ==> folded_symbol(
                    #[trigger] symbols@[i] as nat,
                    fidelity as nat,
                    radix as nat,
                ) < counts@.len() && counts@[folded_symbol(
                    symbols@[i] as nat,
                    fidelity as nat,
                    radix as nat,
                ) as int] > 0,
            all_raw(symbols@),
            best.wf(),
            covers(best, symbols@),
            best.fidelity == fidelity,
            best.radix == radix,
            counts@ == folded_counts(symbols@, fidelity as nat, radix as nat),
            tail_bits == tail_bits_of(symbols@, fidelity as nat, radix as nat),
            models_counts(best, counts@),
            best_cost == symbols_cost(best, symbols@),
            1 <= first <= l,
            forall|l2: nat| 1 <= l2 < first ==> pow2(l2) < support,
            forall|m2: ANSComponentModel4Encoder|
                candidate(m2, symbols@) && m2.fidelity == fidelity && m2.radix == radix
                    && m2.frame_size <= l ==> best_cost <= #[trigger] symbols_cost(m2, symbols@),
        decreases MAX_LOG2_FRAME_SIZE - l,
    {
        l = l + 1;
        let ghost old_cost = best_cost;
        match ANSComponentModel4Encoder::from_counts(&counts, fidelity, radix, l) {
            Ok(m) => {
                let cost = model_cost(&m, &counts, tail_bits);
                proof {
                    assert forall|m2: ANSComponentModel4Encoder|
                        candidate(m2, symbols@) && m2.fidelity == fidelity && m2.radix == radix
                            && m2.frame_size == l implies cost <= #[trigger] symbols_cost(
                        m2,
                        symbols@,
                    ) by {
                        lemma_same_model_cost(m, m2, symbols@);
                    }
                }
                if cost < best_cost {
                    proof {
                        lemma_covers(m, symbols@, counts@);
                    }
                    best = m;
                    best_cost = cost;
                }
            },
            Err(_) => {},
        }
        proof {
            assert forall|m2: ANSComponentModel4Encoder|
                candidate(m2, symbols@) && m2.fidelity == fidelity && m2.radix == radix
                    && m2.frame_size <= l implies best_cost <= #[trigger] symbols_cost(m2, symbols@) by {
                if m2.frame_size < l {
                    assert(old_cost <= symbols_cost(m2, symbols@));
                }
            }
        }
    }
    (best, best_cost)
}

/// A model built from counts in which every symbol's folded symbol occurs can
/// encode every symbol.
proof fn lemma_covers(m: ANSComponentModel4Encoder, symbols: Seq<RawSymbol>, counts: Seq<usize>)
    requires
        all_raw(symbols),
        forall|i: int|
            0 <= i < symbols.len() ==> folded_symbol(
                #[trigger] symbols[i] as nat,
                m.fidelity as nat,
                m.radix as nat,
            ) < counts.len() && counts[folded_symbol(
                symbols[i] as nat,
                m.fidelity as nat,
                m.radix as nat,
            ) as int] > 0,
        support_count(counts) > 0 ==> m.table@.len() == counts.len(),
        support_count(counts) > 0 ==> forall|x: int|
            0 <= x < counts.len() ==> (#[trigger] m.table@[x].freq > 0 <==> counts[x] > 0),
    ensures
        covers(m, symbols),
{
    assert forall|i: int| 0 <= i < symbols.len() implies m.can_encode(#[trigger] symbols[i] as nat) by {
        let x = folded_symbol(symbols[i] as nat, m.fidelity as nat, m.radix as nat) as int;
        lemma_support_count_bounds(counts, x);
        assert(m.table@[x].freq > 0 <==> counts[x] > 0);
    }
}

/// Counts the folded symbols of `symbols` under the given folding; returns
/// the counts, the number of folded symbols that occur, and the number of
/// tail bits written.
fn fold_counts(symbols: &Vec<RawSymbol>, fidelity: usize, radix: usize) -> (r: (
    Vec<usize>,
    usize,
    u128,
))
    requires
        valid_params(fidelity as nat, radix as nat),
        all_raw(symbols@),
    ensures
        r.0@ == folded_counts(symbols@, fidelity as nat, radix as nat),
        r.2 == tail_bits_of(symbols@, fidelity as nat, radix as nat),
        r.0@.len() <= MAX_TABLE_LEN,
        r.1 == support_count(r.0@),
        r.2 <= 0x1_0000_0000_0000_0000_0000_0000,
        forall|i: int|
            0 <= i < symbols@.len() ==> folded_symbol(
                #[trigger] symbols@[i] as nat,
                fidelity as nat,
                radix as nat,
            ) < r.0@.len() && r.0@[folded_symbol(
                symbols@[i] as nat,
                fidelity as nat,
                radix as nat,
            ) as int] > 0,
{
    let mut counts: Vec<usize> = Vec::new();
    let mut tail_bits: u128 = 0;
    let mut i: usize = 0;
    while i < symbols.len()
        invariant
            valid_params(fidelity as nat, radix as nat),
            all_raw(symbols@),
            i <= symbols@.len(),
            counts@ == folded_counts(symbols@.take(i as int), fidelity as nat, radix as nat),
            tail_bits == tail_bits_of(symbols@.take(i as int), fidelity as nat, radix as nat),
            counts@.len() <= MAX_TABLE_LEN,
            tail_bits <= i * 400,
            forall|t: int| 0 <= t < counts@.len() ==> #[trigger] counts@[t] <= i,
            forall|j: int|
                0 <= j < i ==> folded_symbol(
                    #[trigger] symbols@[j] as nat,
                    fidelity as nat,
                    radix as nat,
                ) < counts@.len() && counts@[folded_symbol(
                    symbols@[j] as nat,
                    fidelity as nat,
                    radix as nat,
                ) as int] > 0,
        decreases symbols@.len() - i,
    {
        let s = symbols[i];
        let mut scratch: Vec<u8> = Vec::new();
        let x = fold_symbol(s, fidelity, radix, &mut scratch);
        proof {
            lemma_fold_symbol_bounds(s as nat, fidelity as nat, radix as nat);
            lemma_fold_basics(s as nat, fidelity as nat, radix as nat);
            assert(scratch@ =~= crate::folding::fold_tail(s as nat, fidelity as nat, radix as nat));
        }
        assert(radix * scratch@.len() <= 8 * 47) by (nonlinear_arith)
            requires
                radix <= 8,
                scratch@.len() <= 47,
        ;
        tail_bits = tail_bits + (radix * scratch.len()) as u128;
        let xi = x as usize;
        let ghost c0 = counts@;
        while counts.len() <= xi
            invariant
                xi < MAX_TABLE_LEN,
                counts@.len() <= MAX_TABLE_LEN,
                c0.len() <= xi ==> counts@ == c0 + Seq::new(
                    (counts@.len() - c0.len()) as nat,
                    |u: int| 0usize,
                ) && counts@.len() <= xi + 1,
                c0.len() > xi ==> counts@ == c0,
                forall|t: int| 0 <= t < counts@.len() ==> #[trigger] counts@[t] <= i,
                forall|j: int|
                    0 <= j < i ==> folded_symbol(
                        #[trigger] symbols@[j] as nat,
                        fidelity as nat,
                        radix as nat,
                    ) < counts@.len() && counts@[folded_symbol(
                        symbols@[j] as nat,
                        fidelity as nat,
                        radix as nat,
                    ) as int] > 0,
            decreases xi + 1 - counts@.len(),
        {
            counts.push(0);
        }
        let cur = counts[xi];
        counts.set(xi, cur + 1);
        proof {
            assert(symbols@.take(i + 1).drop_last() =~= symbols@.take(i as int));
            assert(symbols@.take(i + 1).last() == s);
            if c0.len() <= xi {
                assert(counts@ =~= c0 + Seq::new((xi - c0.len()) as nat, |u: int| 0usize) + seq![1usize]);
            } else {
                assert(counts@ =~= c0.update(xi as int, (c0[xi as int] + 1) as usize));
            }
        }
        i = i + 1;
        assert forall|j: int|
            0 <= j < i implies folded_symbol(
            #[trigger] symbols@[j] as nat,
            fidelity as nat,
            radix as nat,
        ) < counts@.len() && counts@[folded_symbol(
            symbols@[j] as nat,
            fidelity as nat,
            radix as nat,
        ) as int] > 0 by {
            if j < i - 1 {
            } else {
                assert(symbols@[j] == s);
            }
        }
    }
    assert(tail_bits <= 0x1_0000_0000_0000_0000_0000_0000) by (nonlinear_arith)
        requires
            tail_bits <= i * 400,
            i <= 0xFFFF_FFFF_FFFF_FFFF,
    ;
    assert(symbols@.take(symbols@.len() as int) =~= symbols@);
    let mut support: usize = 0;
    let mut k: usize = 0;
    while k < counts.len()
        invariant
            k <= counts@.len(),
            counts@ == folded_counts(symbols@, fidelity as nat, radix as nat),
            support == support_count(counts@.take(k as int)),
            support <= k,
        decreases counts@.len() - k,
    {
        assert(counts@.take(k + 1).drop_last() =~= counts@.take(k as int));
        if counts[k] > 0 {
            support = support + 1;
        }
        k = k + 1;
    }
    assert(counts@.take(counts@.len() as int) =~= counts@);
    (counts, support, tail_bits)
}

/// The cost, in quarters of a bit, of one occurrence of a folded symbol of
/// frequency `freq` in a frame of `2^l`: `4 l - ⌊log2 f^4⌋`, which is
/// `4 log2(2^l / f)` rounded up.
pub open spec fn quarter_cost(freq: nat, l: nat) -> nat {
    let lf = floor_log2(freq * freq * freq * freq);
    if freq == 0 || lf > 4 * l {
        0
    } else {
        (4 * l - lf) as nat
    }
}

/// The cost of the occurrences of the first `k` folded symbols.
pub open spec fn data_cost(t: Seq<EncoderModelEntry>, counts: Seq<usize>, l: nat, k: int) -> nat
    decreases k,
{
    if k <= 0 {
        0
    } else {
        data_cost(t, counts, l, k - 1) + (counts[k - 1] as nat) * quarter_cost(t[k - 1].freq as nat, l)
    }
}

/// The estimated cost, in quarters of a bit, of coding symbols with counts
/// `counts` under model `m`, plus `tail_bits` bits of tail chunks and the bits
/// of the table (two frame-size fields per folded symbol).
pub open spec fn model_cost_spec(m: ANSComponentModel4Encoder, counts: Seq<usize>, tail_bits: nat) -> nat {
    let n = if counts.len() < m.table@.len() {
        counts.len()
    } else {
        m.table@.len()
    };
    data_cost(m.table@, counts, m.frame_size as nat, n as int) + 4 * tail_bits + 4 * (m.table@.len() * 2
        * (m.frame_size as nat))
}

/// The bits of tail chunks that folding `symbols` writes.
pub open spec fn tail_bits_of(symbols: Seq<RawSymbol>, fidelity: nat, radix: nat) -> nat
    decreases symbols.len(),
{
    if symbols.len() == 0 {
        0
    } else {
        tail_bits_of(symbols.drop_last(), fidelity, radix) + radix * fold_chunks(
            symbols.last() as nat,
            fidelity,
            radix,
        )
    }
}

/// The estimated cost of coding `symbols` with model `m`, under its own folding.
pub open spec fn symbols_cost(m: ANSComponentModel4Encoder, symbols: Seq<RawSymbol>) -> nat {
    model_cost_spec(
        m,
        folded_counts(symbols, m.fidelity as nat, m.radix as nat),
        tail_bits_of(symbols, m.fidelity as nat, m.radix as nat),
    )
}

/// `m` is one of the models that the builder weighs for `symbols`: built from
/// their folded counts with valid parameters and a frame that fits them.
pub open spec fn candidate(m: ANSComponentModel4Encoder, symbols: Seq<RawSymbol>) -> bool {
    &&& models_symbols(m, symbols)
    &&& valid_params(m.fidelity as nat, m.radix as nat)
    &&& 1 <= m.frame_size <= MAX_LOG2_FRAME_SIZE
    &&& support_count(folded_counts(symbols, m.fidelity as nat, m.radix as nat)) <= pow2(
        m.frame_size as nat,
    )
}

/// The cost depends on the frequencies only.
proof fn lemma_data_cost_freqs(t1: Seq<EncoderModelEntry>, t2: Seq<EncoderModelEntry>, counts: Seq<usize>, l: nat, k: int)
    requires
        0 <= k <= t1.len(),
        k <= t2.len(),
        forall|x: int| 0 <= x < k ==> #[trigger] t1[x].freq == t2[x].freq,
    ensures
        data_cost(t1, counts, l, k) == data_cost(t2, counts, l, k),
    decreases k,
{
    if k > 0 {
        lemma_data_cost_freqs(t1, t2, counts, l, k - 1);
    }
}

/// Two models built from the same counts with the same parameters cost the same.
proof fn lemma_same_model_cost(m1: ANSComponentModel4Encoder, m2: ANSComponentModel4Encoder, symbols: Seq<RawSymbol>)
    requires
        models_symbols(m1, symbols),
        models_symbols(m2, symbols),
        m1.fidelity == m2.fidelity,
        m1.radix == m2.radix,
        m1.frame_size == m2.frame_size,
    ensures
        symbols_cost(m1, symbols) == symbols_cost(m2, symbols),
{
    let counts = folded_counts(symbols, m1.fidelity as nat, m1.radix as nat);
    if support_count(counts) > 0 {
        let o1 = choose|o: Seq<usize>| #[trigger] sorted_support(counts, o) && forall|x: int|
            0 <= x < counts.len() ==> m1.table@[x].freq == scaled_freqs(
                counts,
                o,
                capped_sum(counts),
                pow2(m1.frame_size as nat),
            )[x];
        let o2 = choose|o: Seq<usize>| #[trigger] sorted_support(counts, o) && forall|x: int|
            0 <= x < counts.len() ==> m2.table@[x].freq == scaled_freqs(
                counts,
                o,
                capped_sum(counts),
                pow2(m2.frame_size as nat),
            )[x];
        lemma_sorted_support_unique(counts, o1, o2);
        let sc = scaled_freqs(counts, o1, capped_sum(counts), pow2(m1.frame_size as nat));
        assert forall|x: int| 0 <= x < counts.len() implies #[trigger] m1.table@[x].freq
            == m2.table@[x].freq by {
            assert(m1.table@[x].freq == sc[x]);
            assert(m2.table@[x].freq == sc[x]);
        }
        lemma_data_cost_freqs(m1.table@, m2.table@, counts, m1.frame_size as nat, counts.len() as int);
    } else {
        lemma_data_cost_freqs(m1.table@, m2.table@, counts, m1.frame_size as nat, 0);
        if counts.len() > 0 {
            lemma_data_cost_freqs(m1.table@, m2.table@, counts, m1.frame_size as nat, 1);
        }
    }
}

/// Returns `model_cost_spec(m, counts, tail_bits)`.
fn model_cost(m: &ANSComponentModel4Encoder, counts: &Vec<usize>, tail_bits: u128) -> (r: u128)
    requires
        m.wf(),
        tail_bits <= 0x1_0000_0000_0000_0000_0000_0000,
    ensures
        r == model_cost_spec(*m, counts@, tail_bits as nat),
{
    let l = m.frame_size as u128;
    let mut acc: u128 = 0;
    let mut x: usize = 0;
    let n = if counts.len() < m.table.len() {
        counts.len()
    } else {
        m.table.len()
    };
    while x < n
        invariant
            m.wf(),
            n <= m.table@.len(),
            n <= counts@.len(),
            n <= MAX_TABLE_LEN,
            l == m.frame_size,
            l <= 28,
            x <= n,
            acc == data_cost(m.table@, counts@, m.frame_size as nat, x as int),
            acc <= x * 0x100_0000_0000_0000_0000,
        decreases n - x,
    {
        let f = m.table[x].freq;
        proof {
            m.lemma_entry_in_frame(x as int);
            lemma2_to64();
            lemma_pow2_strictly_increases(m.frame_size as nat, 29);
        }
        let per = quarter_cost_exec(f as u64, l as u64) as u128;
        let c = counts[x] as u128;
        assert(c * per <= 0xFFFF_FFFF_FFFF_FFFF * 112) by (nonlinear_arith)
            requires
                c <= 0xFFFF_FFFF_FFFF_FFFF,
                per <= 112,
        ;
        acc = acc + c * per;
        x = x + 1;
    }
    assert(acc <= 0x100_0000 * 0x100_0000_0000_0000_0000) by (nonlinear_arith)
        requires
            acc <= x * 0x100_0000_0000_0000_0000,
            x <= 0x100_0000,
    ;
    assert((m.table@.len() as u128) * 2 * l <= 0x100_0000 * 2 * 28) by (nonlinear_arith)
        requires
            m.table@.len() <= 0x100_0000,
            l <= 28,
    ;
    let table_bits = (m.table.len() as u128) * 2 * l;
    acc + 4 * tail_bits + 4 * table_bits
}

/// Returns `quarter_cost(f, l)`.
fn quarter_cost_exec(f: u64, l: u64) -> (r: u64)
    requires
        f < 0x2000_0000,
        l <= 28,
    ensures
        r == quarter_cost(f as nat, l as nat),
        r <= 112,
{
    if f == 0 {
        return 0;
    }
    assert((f as u128) * (f as u128) <= 0x400_0000_0000_0000) by (nonlinear_arith)
        requires
            f < 0x2000_0000,
    ;
    let f2 = (f as u128) * (f as u128);
    assert(f2 * f2 <= 0x400_0000_0000_0000 * 0x400_0000_0000_0000) by (nonlinear_arith)
        requires
            f2 <= 0x400_0000_0000_0000,
    ;
    let f4 = f2 * f2;
    assert(f4 == f * f * f * f) by (nonlinear_arith)
        requires
            f4 == f2 * f2,
            f2 == f * f,
    ;
    let lf = floor_log2_u128(f4);
    if lf > 4 * l {
        0
    } else {
        4 * l - lf
    }
}

/// Returns `⌊log2 n⌋` (zero for zero).
fn floor_log2_u128(n: u128) -> (r: u64)
    ensures
        r == floor_log2(n as nat),
{
    proof {
        if n >= 1 {
            lemma_floor_log2_bound(n as nat);
            lemma2_to64_rest();
            lemma_pow2_adds(64, 64);
            if floor_log2(n as nat) >= 128 {
                if floor_log2(n as nat) > 128 {
                    lemma_pow2_strictly_increases(128, floor_log2(n as nat));
                }
            }
        }
    }
    let mut x = n;
    let mut r: u64 = 0;
    while x > 1
        invariant
            r + floor_log2(x as nat) == floor_log2(n as nat),
            floor_log2(n as nat) < 128,
        decreases x,
    {
        x = x / 2;
        r = r + 1;
    }
    r
}

} // verus!
