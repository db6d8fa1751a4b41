//! Cost estimators: how many bits a value is expected to take, used to steer
//! the choices of the graph compressor during the modelling passes.
use crate::component::{BVGraphComponent, COMPONENTS};
use crate::folding::{fold_chunks, fold_symbol, lemma_fold_basics, lemma_fold_symbol_bounds, valid_params};
use crate::model4encoder::ANSModel4Encoder;
use crate::{FASTER_RADIX, MAX_RAW_SYMBOL};
use vstd::arithmetic::power2::*;
use vstd::prelude::*;

verus! {

/// The default fidelity.
pub const DEFAULT_FIDELITY: usize = 2;

/// `⌊log2 n⌋`, and zero for zero.
pub open spec fn floor_log2(n: nat) -> nat
    decreases n,
{
    if n <= 1 {
        0
    } else {
        1 + floor_log2(n / 2)
    }
}

/// `2^⌊log2 n⌋` is at most `n`.
pub proof fn lemma_floor_log2_bound(n: nat)
    requires
        n >= 1,
    ensures
        pow2(floor_log2(n)) <= n < pow2(floor_log2(n) + 1),
    decreases n,
{
    lemma2_to64();
    if n > 1 {
        lemma_floor_log2_bound(n / 2);
        lemma_pow2_unfold(floor_log2(n));
        lemma_pow2_unfold(floor_log2(n) + 1);
    }
}

/// Returns `⌊log2 n⌋` (zero for zero).
pub fn floor_log2_u64(n: u64) -> (r: u64)
    ensures
        r == floor_log2(n as nat),
        r < 64,
{
    proof {
        if n >= 1 {
            lemma_floor_log2_bound(n as nat);
            lemma2_to64_rest();
            if floor_log2(n as nat) >= 64 {
                lemma_pow2_strictly_increases(64, floor_log2(n as nat));
            }
        }
    }
    let mut x = n;
    let mut r: u64 = 0;
    while x > 1
        invariant
            r + floor_log2(x as nat) == floor_log2(n as nat),
            floor_log2(n as nat) < 64,
        decreases x,
    {
        x = x / 2;
        r = r + 1;
    }
    r
}

/// The cost, in bits, of a folded symbol of frequency `freq` in a frame of
/// size `2^log2_frame`: `⌈log2(2^l / f)⌉ = l - ⌊log2 f⌋`; a symbol with no
/// frequency costs as much as one of frequency one.
pub open spec fn symbol_cost(freq: nat, log2_frame: nat) -> nat {
    if freq == 0 {
        log2_frame
    } else {
        (log2_frame - floor_log2(freq)) as nat
    }
}

/// Estimates a value by the bits of its binary representation.
#[derive(Clone, Copy, Debug, PartialEq, Eq, Structural)]
pub struct Log2Estimator {
    /// The fidelity used to count tail chunks.
    pub fidelity: usize,
    /// The radix used to count tail chunks.
    pub radix: usize,
}

impl Log2Estimator {
    /// The estimate of `s`: `⌊log2(s + 1)⌋` plus the bits of its tail chunks.
    pub open spec fn cost_spec(&self, s: nat) -> nat {
        floor_log2(s + 1) + (self.radix as nat) * fold_chunks(
            s,
            self.fidelity as nat,
            self.radix as nat,
        )
    }

    /// The estimator with the default fidelity and radix.
    pub fn new() -> (r: Self)
        ensures
            r.fidelity == DEFAULT_FIDELITY,
            r.radix == FASTER_RADIX,
    {
        Log2Estimator { fidelity: DEFAULT_FIDELITY, radix: FASTER_RADIX }
    }

    /// Returns the estimate of `s`.
    pub fn cost(&self, s: u64) -> (r: usize)
        requires
            valid_params(self.fidelity as nat, self.radix as nat),
            s <= MAX_RAW_SYMBOL,
        ensures
            r == self.cost_spec(s as nat),
    {
        let mut scratch: Vec<u8> = Vec::new();
        let _ = fold_symbol(s, self.fidelity, self.radix, &mut scratch);
        proof {
            lemma_fold_basics(s as nat, self.fidelity as nat, self.radix as nat);
            lemma_fold_symbol_bounds(s as nat, self.fidelity as nat, self.radix as nat);
            assert(scratch@ =~= crate::folding::fold_tail(
                s as nat,
                self.fidelity as nat,
                self.radix as nat,
            ));
        }
        assert(self.radix * scratch@.len() <= 8 * 47) by (nonlinear_arith)
            requires
                self.radix <= 8,
                scratch@.len() <= 47,
        ;
        (floor_log2_u64(s + 1) as usize) + self.radix * scratch.len()
    }
}

/// Estimates a value by the cost of its folded symbol under a model, plus the
/// bits of its tail chunks.
#[derive(Clone, Debug)]
pub struct EntropyEstimator {
    /// For each component, the cost of each folded symbol.
    pub costs: Vec<Vec<usize>>,
    /// For each component, the log2 of its frame size.
    pub frame_sizes: Vec<usize>,
    /// For each component, its fidelity.
    pub fidelities: Vec<usize>,
    /// For each component, its radix.
    pub radixes: Vec<usize>,
}

impl EntropyEstimator {
    /// Parameters within their ranges.
    pub open spec fn wf(&self) -> bool {
        &&& self.costs@.len() == COMPONENTS
        &&& self.frame_sizes@.len() == COMPONENTS
        &&& self.fidelities@.len() == COMPONENTS
        &&& self.radixes@.len() == COMPONENTS
        &&& forall|c: int|
            0 <= c < COMPONENTS ==> valid_params(
                #[trigger] self.fidelities@[c] as nat,
                self.radixes@[c] as nat,
            ) && self.frame_sizes@[c] <= 28 && forall|x: int|
                0 <= x < self.costs@[c]@.len() ==> #[trigger] self.costs@[c]@[x] <= 28
    }

    /// The estimator follows model `em`.
    pub open spec fn follows(&self, em: ANSModel4Encoder) -> bool {
        &&& self.wf()
        &&& forall|c: int|
            0 <= c < COMPONENTS ==> {
                let m = #[trigger] em.tables@[c];
                &&& self.frame_sizes@[c] == m.frame_size
                &&& self.fidelities@[c] == m.fidelity
                &&& self.radixes@[c] == m.radix
                &&& self.costs@[c]@.len() == m.table@.len()
                &&& forall|x: int|
                    0 <= x < m.table@.len() ==> self.costs@[c]@[x] == symbol_cost(
                        (#[trigger] m.table@[x]).freq as nat,
                        m.frame_size as nat,
                    )
            }
    }

    /// The estimate of `s` in component `c`.
    pub open spec fn cost_spec(&self, c: nat, s: nat) -> nat {
        let f = self.fidelities@[c as int] as nat;
        let r = self.radixes@[c as int] as nat;
        let x = crate::folding::folded_symbol(s, f, r);
        let base = if x < self.costs@[c as int]@.len() {
            self.costs@[c as int]@[x as int] as nat
        } else {
            self.frame_sizes@[c as int] as nat
        };
        base + r * fold_chunks(s, f, r)
    }

    /// Builds the estimator of model `em`.
    pub fn new(em: &ANSModel4Encoder) -> (r: Self)
        requires
            em.wf(),
        ensures
            r.follows(*em),
    {
        proof {
            lemma2_to64();
        }
        let mut costs: Vec<Vec<usize>> = Vec::new();
        let mut frame_sizes: Vec<usize> = Vec::new();
        let mut fidelities: Vec<usize> = Vec::new();
        let mut radixes: Vec<usize> = Vec::new();
        let mut c: usize = 0;
        while c < COMPONENTS
            invariant
                em.wf(),
                c <= COMPONENTS,
                costs@.len() == c,
                frame_sizes@.len() == c,
                fidelities@.len() == c,
                radixes@.len() == c,
                forall|k: int|
                    0 <= k < c ==> {
                        let m = #[trigger] em.tables@[k];
                        &&& frame_sizes@[k] == m.frame_size
                        &&& fidelities@[k] == m.fidelity
                        &&& radixes@[k] == m.radix
                        &&& costs@[k]@.len() == m.table@.len()
                        &&& forall|x: int|
                            0 <= x < costs@[k]@.len() ==> #[trigger] costs@[k]@[x] <= 28
                        &&& forall|x: int|
                            0 <= x < m.table@.len() ==> costs@[k]@[x] == symbol_cost(
                                (#[trigger] m.table@[x]).freq as nat,
                                m.frame_size as nat,
                            )
                    },
            decreases COMPONENTS - c,
        {
            let m = &em.tables[c];
            assert(em.tables@[c as int].wf());
            let mut t: Vec<usize> = Vec::new();
            let mut x: usize = 0;
            while x < m.table.len()
                invariant
                    m.wf(),
                    x <= m.table@.len(),
                    t@.len() == x,
                    forall|y: int|
                        0 <= y < x ==> t@[y] == symbol_cost(
                            (#[trigger] m.table@[y]).freq as nat,
                            m.frame_size as nat,
                        ),
                forall|y: int| 0 <= y < x ==> #[trigger] t@[y] <= m.frame_size,
                decreases m.table@.len() - x,
            {
                let f = m.table[x].freq;
                let cost = if f == 0 {
                    m.frame_size
                } else {
                    let lf = floor_log2_u64(f as u64) as usize;
                    proof {
                        m.lemma_entry_in_frame(x as int);
                        lemma_floor_log2_bound(f as nat);
                        if floor_log2(f as nat) > m.frame_size {
                            lemma_pow2_strictly_increases(m.frame_size as nat, floor_log2(f as nat));
                        }
                    }
                    m.frame_size - lf
                };
                t.push(cost);
                x = x + 1;
            }
            costs.push(t);
            frame_sizes.push(m.frame_size);
            fidelities.push(m.fidelity);
            radixes.push(m.radix);
            c = c + 1;
        }
        let r = EntropyEstimator { costs, frame_sizes, fidelities, radixes };
        assert forall|k: int| 0 <= k < COMPONENTS implies valid_params(
            #[trigger] r.fidelities@[k] as nat,
            r.radixes@[k] as nat,
        ) && r.frame_sizes@[k] <= 28 && forall|x: int|
            0 <= x < r.costs@[k]@.len() ==> #[trigger] r.costs@[k]@[x] <= 28 by {
            assert(em.tables@[k].wf());
        }
        r
    }

    /// Returns the estimate of `s` in component `component`.
    pub fn cost(&self, component: BVGraphComponent, s: u64) -> (r: usize)
        requires
            self.wf(),
            s <= MAX_RAW_SYMBOL,
        ensures
            r == self.cost_spec(component.idx(), s as nat),
    {
        let c = component.index();
        let fidelity = self.fidelities[c];
        let radix = self.radixes[c];
        assert(valid_params(self.fidelities@[c as int] as nat, self.radixes@[c as int] as nat));
        let mut scratch: Vec<u8> = Vec::new();
        let x = fold_symbol(s, fidelity, radix, &mut scratch);
        proof {
            lemma_fold_basics(s as nat, fidelity as nat, radix as nat);
            lemma_fold_symbol_bounds(s as nat, fidelity as nat, radix as nat);
            assert(scratch@ =~= crate::folding::fold_tail(s as nat, fidelity as nat, radix as nat));
        }
        let base = if (x as usize) < self.costs[c].len() {
            self.costs[c][x as usize]
        } else {
            self.frame_sizes[c]
        };
        assert(radix * scratch@.len() <= 8 * 47) by (nonlinear_arith)
            requires
                radix <= 8,
                scratch@.len() <= 47,
        ;
        base + radix * scratch.len()
    }
}

/// Chooses how values are priced.
#[derive(Clone, Debug)]
pub enum CostEstimator {
    /// By the bits of their binary representation.
    Log2(Log2Estimator),
    /// By the cost of their folded symbols under a model.
    Entropy(EntropyEstimator),
}

impl CostEstimator {
    /// Parameters within their ranges.
    pub open spec fn wf(&self) -> bool {
        match self {
            CostEstimator::Log2(e) => valid_params(e.fidelity as nat, e.radix as nat),
            CostEstimator::Entropy(e) => e.wf(),
        }
    }

    /// The estimate of `s` in component `c`.
    pub open spec fn cost_spec(&self, c: nat, s: nat) -> nat {
        match self {
            CostEstimator::Log2(e) => e.cost_spec(s),
            CostEstimator::Entropy(e) => e.cost_spec(c, s),
        }
    }

    /// Returns the estimate of `s` in component `component`.
    pub fn cost(&self, component: BVGraphComponent, s: u64) -> (r: usize)
        requires
            self.wf(),
            s <= MAX_RAW_SYMBOL,
        ensures
            r == self.cost_spec(component.idx(), s as nat),
    {
        match self {
            CostEstimator::Log2(e) => e.cost(s),
            CostEstimator::Entropy(e) => e.cost(component, s),
        }
    }
}

} // verus!
