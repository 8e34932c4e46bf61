//! Integer machinery of the approximate centrality passes: HyperLogLog registers, the
//! splitmix64 hash, HyperBall round gating and pivot sampling for sampled betweenness.

use vstd::prelude::*;
use vstd::arithmetic::power2::pow2;

verus! {

/// Default pivot count for sampled betweenness.
pub const DEFAULT_SAMPLE_PIVOTS: usize = 512;

/// Graphs at or below this size use exact Brandes / BFS harmonic.
pub const DEFAULT_EXACT_CENTRALITY_LIMIT: usize = 500;

/// Graphs at or below this size use exact set propagation inside HyperBall.
pub const HYPERBALL_EXACT_THRESHOLD: usize = 8192;

/// HyperBall propagation rounds.
pub const DEFAULT_HYPERBALL_ROUNDS: usize = 16;

/// Node count above which HyperBall propagation rounds are capped.
pub const LARGE_GRAPH_HYPERBALL_NODE_LIMIT: usize = 500000;

/// HyperBall round cap for graphs above [`LARGE_GRAPH_HYPERBALL_NODE_LIMIT`].
pub const LARGE_GRAPH_HYPERBALL_ROUNDS: usize = 8;

/// HyperLogLog precision (`2^14` registers).
pub const HYPERLOGLOG_PRECISION: u8 = 14;

/// How betweenness was computed for the current analysis pass.
#[derive(Debug, Clone, Copy, PartialEq, Eq, Structural)]
pub enum BetweennessMode {
    /// Exact Brandes on all sources.
    Exact,
    /// Sampled Brandes from `pivots` sources.
    Sampled { pivots: usize },
}

/// How harmonic centrality was computed.
#[derive(Debug, Clone, Copy, PartialEq, Eq, Structural)]
pub enum HarmonicMode {
    /// Exact all-pairs BFS.
    Exact,
    /// HyperBall / HyperLogLog ball-size estimation over `rounds` rounds.
    HyperBall { rounds: usize },
    /// Harmonic skipped.
    Skipped,
}

/// Timing and mode metadata for a centrality pass (milliseconds per sub-phase).
#[derive(Debug, Clone, Copy, Default)]
pub struct CentralityApproxStats {
    pub betweenness_mode: Option<BetweennessMode>,
    pub harmonic_mode: Option<HarmonicMode>,
    pub flat_index_ms: u64,
    pub degrees_ms: u64,
    pub pagerank_ms: u64,
    pub betweenness_ms: u64,
    pub harmonic_ms: u64,
    pub columnar_fill_ms: u64,
    pub top_k_ms: u64,
}

impl CentralityApproxStats {
    /// Sum of the recorded sub-phase timings.
    pub open spec fn total_spec(&self) -> int {
        self.flat_index_ms + self.degrees_ms + self.pagerank_ms + self.betweenness_ms + self.harmonic_ms
            + self.columnar_fill_ms + self.top_k_ms
    }

    /// Sum of all recorded sub-phase timings (ms).
    pub fn timed_total_ms(&self) -> (r: u64)
        requires
            self.total_spec() <= u64::MAX,
        ensures
            r == self.total_spec(),
    {
        self.flat_index_ms + self.degrees_ms + self.pagerank_ms + self.betweenness_ms + self.harmonic_ms
            + self.columnar_fill_ms + self.top_k_ms
    }
}

/// Rounds HyperBall runs on a graph of `node_count` nodes when asked for `max_rounds`: at
/// least one, and at most [`LARGE_GRAPH_HYPERBALL_ROUNDS`] above the large-graph limit.
pub open spec fn rounds_for(node_count: usize, max_rounds: usize) -> usize {
    let asked: usize = if max_rounds >= 1 { max_rounds } else { 1 };
    if node_count > LARGE_GRAPH_HYPERBALL_NODE_LIMIT && asked > LARGE_GRAPH_HYPERBALL_ROUNDS {
        LARGE_GRAPH_HYPERBALL_ROUNDS
    } else {
        asked
    }
}

/// HyperBall rounds after adaptive gating by graph size.
pub fn adaptive_hyperball_rounds(node_count: usize, max_rounds: usize) -> (r: usize)
    ensures
        r == rounds_for(node_count, max_rounds),
{
    let asked = if max_rounds >= 1 { max_rounds } else { 1 };
    if node_count > LARGE_GRAPH_HYPERBALL_NODE_LIMIT {
        if LARGE_GRAPH_HYPERBALL_ROUNDS < asked { LARGE_GRAPH_HYPERBALL_ROUNDS } else { asked }
    } else {
        asked
    }
}

/// HyperBall harmonic centrality (its floating-point passes run outside the library).
pub struct HyperBallHarmonic;

impl HyperBallHarmonic {
    /// Effective HyperBall rounds for a graph size (after adaptive gating).
    pub fn effective_rounds(node_count: usize, max_rounds: usize) -> (r: usize)
        ensures
            r == rounds_for(node_count, max_rounds),
    {
        adaptive_hyperball_rounds(node_count, max_rounds)
    }
}

/// Sampled betweenness (its floating-point passes run outside the library).
pub struct SampledBetweenness;

/// HyperLogLog precision for a graph of `node_count` nodes.
pub open spec fn precision_for(node_count: usize) -> u8 {
    if node_count <= HYPERBALL_EXACT_THRESHOLD {
        HYPERLOGLOG_PRECISION
    } else if node_count <= 100000 {
        12
    } else {
        10
    }
}

/// HyperLogLog precision used by HyperBall: finer sketches for smaller graphs.
pub fn hll_precision_for(node_count: usize) -> (r: u8)
    ensures
        r == precision_for(node_count),
{
    if node_count <= HYPERBALL_EXACT_THRESHOLD {
        HYPERLOGLOG_PRECISION
    } else if node_count <= 100000 {
        12
    } else {
        10
    }
}

/// The splitmix64 mixing function (all arithmetic modulo `2^64`).
pub open spec fn splitmix(x: u64) -> u64 {
    let x1 = x.wrapping_add(0x9E37_79B9_7F4A_7C15);
    let z1 = (x1 ^ (x1 >> 30u64)).wrapping_mul(0xBF58_476D_1CE4_E5B9);
    let z2 = (z1 ^ (z1 >> 27u64)).wrapping_mul(0x94D0_49BB_1331_11EB);
    z2 ^ (z2 >> 31u64)
}

/// splitmix64 hash of `x`.
pub fn splitmix64(x: u64) -> (r: u64)
    ensures
        r == splitmix(x),
{
    let x1 = x.wrapping_add(0x9E37_79B9_7F4A_7C15);
    let z1 = (x1 ^ (x1 >> 30u64)).wrapping_mul(0xBF58_476D_1CE4_E5B9);
    let z2 = (z1 ^ (z1 >> 27u64)).wrapping_mul(0x94D0_49BB_1331_11EB);
    z2 ^ (z2 >> 31u64)
}

/// Hash of a node index for the HyperBall sketches.
pub fn hash_node_id(node: usize) -> (r: u64)
    ensures
        r == splitmix((node as u64) ^ 0x9E37_79B9_7F4A_7C15u64),
{
    splitmix64((node as u64) ^ 0x9E37_79B9_7F4A_7C15u64)
}

/// HyperLogLog cardinality sketch: `2^precision` registers.
pub struct HyperLogLog {
    registers: Vec<u8>,
    precision: u8,
}

impl View for HyperLogLog {
    type V = Seq<u8>;

    closed spec fn view(&self) -> Seq<u8> {
        self.registers@
    }
}

/// Pointwise maximum of two register arrays, over the first one's length.
pub open spec fn register_max(a: Seq<u8>, b: Seq<u8>) -> Seq<u8> {
    Seq::new(a.len(), |i: int| if b[i] > a[i] { b[i] } else { a[i] })
}

/// Merging sketches of one size is commutative, associative and idempotent, so the sketch of
/// a union does not depend on the order in which parts are merged.
pub proof fn lemma_register_max_laws(a: Seq<u8>, b: Seq<u8>, c: Seq<u8>)
    requires
        a.len() == b.len(),
        b.len() == c.len(),
    ensures
        register_max(a, b) == register_max(b, a),
        register_max(register_max(a, b), c) == register_max(a, register_max(b, c)),
        register_max(a, a) == a,
{
    assert(register_max(a, b) =~= register_max(b, a));
    assert(register_max(register_max(a, b), c) =~= register_max(a, register_max(b, c)));
    assert(register_max(a, a) =~= a);
}

/// Register that a value's hash lands in: its top `precision` bits.
pub open spec fn hll_index(value: u64, precision: u8) -> int {
    ((splitmix(value) >> ((64 - precision) as u64)) as usize) as int % pow2(precision as nat) as int
}

/// The hash bits below the register index moved to the top, with a marker bit right after
/// them so that at most `64 - precision` leading zeros are counted.
pub open spec fn hll_tail(hash: u64, p: u64) -> u64 {
    (hash << p) | (1u64 << (p - 1) as u64)
}

/// Rank of a value: one more than the number of leading zeros among the hash bits below the
/// register index.
pub open spec fn hll_rank(value: u64, precision: u8) -> int {
    vstd::std_specs::bits::u64_leading_zeros(hll_tail(splitmix(value), precision as u64)) + 1
}

impl HyperLogLog {
    /// Precision of the sketch.
    pub closed spec fn precision_of(&self) -> u8 {
        self.precision
    }

    /// The sketch holds `2^precision` registers, a count that fits a `usize`.
    pub closed spec fn wf(&self) -> bool {
        &&& self.precision < 64
        &&& self.precision < usize::BITS
        &&& self.registers@.len() == pow2(self.precision as nat)
    }

    /// Create a sketch with `2^precision` registers, all zero.
    pub fn new(precision: u8) -> (r: Self)
        requires
            precision < usize::BITS,
        ensures
            r.wf(),
            r.precision_of() == precision,
            r@ == Seq::new(pow2(precision as nat), |i: int| 0u8),
    {
        proof {
            vstd::bits::lemma_usize_pow2_no_overflow(precision as nat);
            vstd::bits::lemma_usize_shl_is_mul(1, precision as usize);
        }
        let m = 1usize << (precision as usize);
        let mut registers: Vec<u8> = Vec::new();
        let mut i: usize = 0;
        while i < m
            invariant
                i <= m,
                registers@ == Seq::new(i as nat, |t: int| 0u8),
            decreases m - i,
        {
            registers.push(0u8);
            i = i + 1;
            assert(registers@ =~= Seq::new(i as nat, |t: int| 0u8));
        }
        HyperLogLog { registers, precision }
    }

    /// Add an element: the register picked by the top `precision` bits of its hash becomes at
    /// least the rank of the remaining bits (their leading zeros plus one).
    pub fn add(&mut self, value: u64)
        requires
            old(self).wf(),
            old(self).precision_of() >= 1,
        ensures
            final(self).wf(),
            final(self).precision_of() == old(self).precision_of(),
            0 <= hll_index(value, old(self).precision_of()) < old(self)@.len(),
            1 <= hll_rank(value, old(self).precision_of()) <= 65 - old(self).precision_of(),
            final(self)@ == old(self)@.update(
                hll_index(value, old(self).precision_of()),
                if old(self)@[hll_index(value, old(self).precision_of())] < hll_rank(value, old(self).precision_of()) {
                    hll_rank(value, old(self).precision_of()) as u8
                } else {
                    old(self)@[hll_index(value, old(self).precision_of())]
                },
            ),
    {
        let hash = splitmix64(value);
        let m = self.registers.len();
        let p: u64 = self.precision as u64;
        let shift: u64 = 64 - p;
        proof {
            vstd::arithmetic::power2::lemma_pow2_pos(self.precision as nat);
        }
        let idx = ((hash >> shift) as usize) % m;
        let w = (hash << p) | (1u64 << (p - 1));
        let lz = w.leading_zeros();
        proof {
            vstd::std_specs::bits::axiom_u64_leading_zeros(w);
            assert(w == hll_tail(hash, p));
            let z = vstd::std_specs::bits::u64_leading_zeros(w);
            if z > 64 - p {
                let s: u64 = (64 - z) as u64;
                let q: u64 = (p - 1) as u64;
                assert(w >> s == 0u64);
                assert(w >> s != 0u64) by (bit_vector)
                    requires
                        w == (hash << p) | (1u64 << q),
                        q + 1 == p,
                        1u64 <= p <= 63u64,
                        s < p,
                ;
            }
        }
        let rho = (lz as u8) + 1;
        if rho > self.registers[idx] {
            self.registers.set(idx, rho);
        }
    }

    /// Merge another sketch of the same precision: the pointwise maximum of the registers.
    pub fn merge(&mut self, other: &Self)
        requires
            old(self).wf(),
            other.wf(),
            old(self).precision_of() == other.precision_of(),
        ensures
            final(self).wf(),
            final(self).precision_of() == old(self).precision_of(),
            final(self)@ == register_max(old(self)@, other@),
    {
        let n = self.registers.len();
        let ghost start = self.registers@;
        let mut i: usize = 0;
        while i < n
            invariant
                i <= n,
                n == start.len(),
                n == other.registers@.len(),
                self.registers@.len() == n,
                self.precision == old(self).precision,
                start == old(self).registers@,
                forall|t: int| 0 <= t < i ==> #[trigger] self.registers@[t] == (if other.registers@[t] > start[t] { other.registers@[t] } else { start[t] }),
                forall|t: int| i <= t < n ==> #[trigger] self.registers@[t] == start[t],
            decreases n - i,
        {
            let b = other.registers[i];
            if b > self.registers[i] {
                self.registers.set(i, b);
            }
            i = i + 1;
        }
        assert(self.registers@ =~= Seq::new(start.len(), |t: int| if other.registers@[t] > start[t] { other.registers@[t] } else { start[t] }));
    }

    /// Reset every register to zero.
    pub fn reset(&mut self)
        requires
            old(self).wf(),
        ensures
            final(self).wf(),
            final(self).precision_of() == old(self).precision_of(),
            final(self)@ == Seq::new(old(self)@.len(), |i: int| 0u8),
    {
        let n = self.registers.len();
        let mut i: usize = 0;
        while i < n
            invariant
                i <= n,
                self.registers@.len() == n,
                n == old(self).registers@.len(),
                self.precision == old(self).precision,
                forall|t: int| 0 <= t < i ==> #[trigger] self.registers@[t] == 0u8,
            decreases n - i,
        {
            self.registers.set(i, 0u8);
            i = i + 1;
        }
        assert(self.registers@ =~= Seq::new(n as nat, |t: int| 0u8));
    }

    /// Register count `m = 2^precision`.
    pub fn register_count(&self) -> (r: usize)
        ensures
            r == self@.len(),
    {
        self.registers.len()
    }

    /// The registers, for the estimate computed outside the library.
    pub fn registers(&self) -> (r: &[u8])
        ensures
            r@ == self@,
    {
        self.registers.as_slice()
    }
}


/// One step of the linear congruential generator that drives pivot sampling.
pub open spec fn lcg_next(r: u64) -> u64 {
    r.wrapping_mul(6364136223846793005u64).wrapping_add(1u64)
}

/// The generator's state after `t` steps from `seed`.
pub open spec fn lcg_state(seed: u64, t: nat) -> u64
    decreases t,
{
    if t == 0 {
        seed
    } else {
        lcg_next(lcg_state(seed, (t - 1) as nat))
    }
}

/// `0..n` after the first `i` Fisher–Yates swaps: swap `i` exchanges position `i` with a
/// position drawn from `i..n` by the generator's state after `i + 1` steps.
pub open spec fn fisher_yates(n: usize, seed: u64, i: nat) -> Seq<usize>
    decreases i,
{
    if i == 0 {
        Seq::new(n as nat, |t: int| t as usize)
    } else {
        let prev = fisher_yates(n, seed, (i - 1) as nat);
        let a = (i - 1) as int;
        let j = a + (lcg_state(seed, i) as usize) as int % (n - a);
        prev.update(a, prev[j]).update(j, prev[a])
    }
}

/// Index drawn at step `t` of the rejection sampler.
pub open spec fn drawn(n: usize, seed: u64, t: nat) -> usize {
    ((lcg_state(seed, t) as usize) as int % n as int) as usize
}

/// The distinct indices drawn in steps `1..=t`, in order of first appearance.
pub open spec fn first_draws(n: usize, seed: u64, t: nat) -> Seq<usize>
    decreases t,
{
    if t == 0 {
        Seq::empty()
    } else {
        let prev = first_draws(n, seed, (t - 1) as nat);
        if prev.contains(drawn(n, seed, t)) {
            prev
        } else {
            prev.push(drawn(n, seed, t))
        }
    }
}

/// `s` lists distinct indices below `n`.
pub open spec fn distinct_below(s: Seq<usize>, n: usize) -> bool {
    &&& forall|i: int| 0 <= i < s.len() ==> #[trigger] s[i] < n
    &&& forall|i: int, j: int| 0 <= i < j < s.len() ==> s[i] != s[j]
}

proof fn lemma_fisher_yates_perm(n: usize, seed: u64, i: nat)
    requires
        i <= n,
    ensures
        fisher_yates(n, seed, i).len() == n,
        distinct_below(fisher_yates(n, seed, i), n),
    decreases i,
{
    if i > 0 {
        lemma_fisher_yates_perm(n, seed, (i - 1) as nat);
        let prev = fisher_yates(n, seed, (i - 1) as nat);
        let a = (i - 1) as int;
        let j = a + (lcg_state(seed, i) as usize) as int % (n - a);
        let cur = fisher_yates(n, seed, i);
        assert(cur == prev.update(a, prev[j]).update(j, prev[a]));
        assert forall|x: int, y: int| 0 <= x < y < cur.len() implies cur[x] != cur[y] by {
            let px = if x == j { a } else if x == a { j } else { x };
            let py = if y == j { a } else if y == a { j } else { y };
            assert(cur[x] == prev[px]);
            assert(cur[y] == prev[py]);
            assert(px != py);
            if px < py {
                assert(prev[px] != prev[py]);
            } else {
                assert(prev[py] != prev[px]);
            }
        }
    }
}

proof fn lemma_push_contains(p: Seq<usize>, v: usize, x: usize)
    ensures
        p.push(v).contains(x) <==> (p.contains(x) || x == v),
{
    if p.push(v).contains(x) {
        let w = choose|w: int| 0 <= w < p.push(v).len() && p.push(v)[w] == x;
        if w < p.len() {
            assert(p[w] == x);
        }
    }
    if p.contains(x) {
        let w = choose|w: int| 0 <= w < p.len() && p[w] == x;
        assert(p.push(v)[w] == x);
    }
    if x == v {
        assert(p.push(v)[p.len() as int] == x);
    }
}

proof fn lemma_first_draws(n: usize, seed: u64, t: nat)
    requires
        n > 0,
    ensures
        distinct_below(first_draws(n, seed, t), n),
        first_draws(n, seed, t).len() <= t,
    decreases t,
{
    if t > 0 {
        lemma_first_draws(n, seed, (t - 1) as nat);
    }
}

/// Pick `k` distinct pivot indices below `n` from `seed`: all of `0..n` when `k >= n`, the
/// first `k` places of a partial Fisher–Yates shuffle when `k >= n / 2`, and otherwise the
/// first `k` distinct indices the generator draws. The generator has full period, so the
/// last case collects `k` indices long before its step counter could run out; the counter's
/// bound is stated, not that fact.
pub fn sample_pivot_indices(n: usize, k: usize, seed: u64) -> (r: Vec<usize>)
    ensures
        k >= n ==> r@ == Seq::new(n as nat, |i: int| i as usize),
        k < n && k >= n / 2 ==> r@ == fisher_yates(n, seed, k as nat).subrange(0, k as int),
        k < n / 2 ==> exists|t: nat| t <= u64::MAX && r@ == #[trigger] first_draws(n, seed, t) && (r@.len() == k || t == u64::MAX),
        distinct_below(r@, n),
        r@.len() <= k,
        k >= n ==> r@.len() == n,
        k < n && k >= n / 2 ==> r@.len() == k,
{
    if k >= n {
        let mut all: Vec<usize> = Vec::new();
        let mut i: usize = 0;
        while i < n
            invariant
                i <= n,
                all@ == Seq::new(i as nat, |t: int| t as usize),
            decreases n - i,
        {
            all.push(i);
            i = i + 1;
            assert(all@ =~= Seq::new(i as nat, |t: int| t as usize));
        }
        return all;
    }
    if k >= n / 2 {
        let mut indices: Vec<usize> = Vec::new();
        let mut i: usize = 0;
        while i < n
            invariant
                i <= n,
                indices@ == Seq::new(i as nat, |t: int| t as usize),
            decreases n - i,
        {
            indices.push(i);
            i = i + 1;
            assert(indices@ =~= Seq::new(i as nat, |t: int| t as usize));
        }
        let mut rng = seed;
        let mut i: usize = 0;
        while i < k
            invariant
                i <= k,
                k < n,
                indices@ == fisher_yates(n, seed, i as nat),
                rng == lcg_state(seed, i as nat),
            decreases k - i,
        {
            proof {
                lemma_fisher_yates_perm(n, seed, i as nat);
            }
            rng = rng.wrapping_mul(6364136223846793005u64).wrapping_add(1u64);
            let j = i + ((rng as usize) % (n - i));
            let a = indices[i];
            let b = indices[j];
            indices.set(i, b);
            indices.set(j, a);
            i = i + 1;
        }
        proof {
            lemma_fisher_yates_perm(n, seed, k as nat);
        }
        indices.truncate(k);
        return indices;
    }
    let mut rng = seed;
    let mut chosen: Vec<bool> = Vec::new();
    let mut i: usize = 0;
    while i < n
        invariant
            i <= n,
            chosen@ == Seq::new(i as nat, |t: int| false),
        decreases n - i,
    {
        chosen.push(false);
        i = i + 1;
        assert(chosen@ =~= Seq::new(i as nat, |t: int| false));
    }
    let mut pivots: Vec<usize> = Vec::new();
    let mut steps: u64 = 0;
    while pivots.len() < k && steps < u64::MAX
        invariant
            k < n / 2,
            chosen@.len() == n,
            rng == lcg_state(seed, steps as nat),
            pivots@ == first_draws(n, seed, steps as nat),
            pivots@.len() <= k,
            forall|x: int| 0 <= x < n ==> (#[trigger] chosen@[x] <==> pivots@.contains(x as usize)),
        decreases u64::MAX - steps,
    {
        let ghost prev = pivots@;
        let ghost prev_chosen = chosen@;
        rng = rng.wrapping_mul(6364136223846793005u64).wrapping_add(1u64);
        steps = steps + 1;
        let idx = (rng as usize) % n;
        assert(idx == drawn(n, seed, steps as nat));
        if !chosen[idx] {
            assert(!prev.contains(idx));
            chosen.set(idx, true);
            pivots.push(idx);
            proof {
                assert(pivots@ == first_draws(n, seed, steps as nat));
                assert forall|x: int| 0 <= x < n implies (#[trigger] chosen@[x] <==> pivots@.contains(x as usize)) by {
                    lemma_push_contains(prev, idx, x as usize);
                    assert(prev_chosen[x] <==> prev.contains(x as usize));
                }
            }
        } else {
            assert(prev.contains(idx));
            assert(pivots@ == first_draws(n, seed, steps as nat));
        }
    }
    proof {
        lemma_first_draws(n, seed, steps as nat);
    }
    pivots
}

} // verus!
