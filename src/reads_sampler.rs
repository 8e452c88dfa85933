use vstd::prelude::*;
use crate::mod_bam::PROB_SCALE;

verus! {

/// Which reads to take.
#[derive(Debug, Clone, Copy, PartialEq, Eq, Structural)]
pub enum SamplingMode {
    /// Each read independently, with this probability (parts per million).
    Fraction(u32),
    /// Reads in the order they come, until this many were used.
    Count(u64),
    /// Every read.
    All,
}

/// The answer for the next read.
#[derive(Debug, Clone, Copy, PartialEq, Eq, Structural)]
pub enum Indicator {
    Use,
    Skip,
    Done,
}

/// One step of the splitmix64 generator: the next state.
pub open spec fn rng_next_state(state: u64) -> u64 {
    state.wrapping_add(0x9E37_79B9_7F4A_7C15u64)
}

/// The value that splitmix64 draws from a state.
pub open spec fn rng_output(state: u64) -> u64 {
    let z1 = (state ^ (state >> 30u64)).wrapping_mul(0xBF58_476D_1CE4_E5B9u64);
    let z2 = (z1 ^ (z1 >> 27u64)).wrapping_mul(0x94D0_49BB_1331_11EBu64);
    z2 ^ (z2 >> 31u64)
}

/// What `ask` answers for a sampler in the given mode and state.
pub open spec fn sampler_answer(mode: SamplingMode, state: u64, num_used: u64) -> Indicator {
    match mode {
        SamplingMode::All => Indicator::Use,
        SamplingMode::Count(n) => if num_used >= n {
            Indicator::Done
        } else {
            Indicator::Use
        },
        SamplingMode::Fraction(f) => if (rng_output(rng_next_state(state)) % PROB_SCALE as u64)
            < f as u64 {
            Indicator::Use
        } else {
            Indicator::Skip
        },
    }
}

/// Decides, read by read, which reads a sample takes. Under a fixed seed the
/// answers are the same from run to run.
pub struct RecordSampler {
    mode: SamplingMode,
    rng_state: u64,
    num_used: u64,
}

impl RecordSampler {
    pub closed spec fn mode(&self) -> SamplingMode {
        self.mode
    }

    pub closed spec fn state(&self) -> u64 {
        self.rng_state
    }

    pub closed spec fn used_count(&self) -> u64 {
        self.num_used
    }

    pub fn new(mode: SamplingMode, seed: u64) -> (r: RecordSampler)
        ensures
            r.mode() == mode,
            r.state() == seed,
            r.used_count() == 0,
    {
        RecordSampler { mode, rng_state: seed, num_used: 0 }
    }

    pub fn new_fraction(fraction: u32, seed: u64) -> (r: RecordSampler)
        ensures
            r.mode() == SamplingMode::Fraction(fraction),
            r.state() == seed,
            r.used_count() == 0,
    {
        Self::new(SamplingMode::Fraction(fraction), seed)
    }

    pub fn new_num_reads(num_reads: u64) -> (r: RecordSampler)
        ensures
            r.mode() == SamplingMode::Count(num_reads),
            r.used_count() == 0,
    {
        Self::new(SamplingMode::Count(num_reads), 0)
    }

    pub fn new_passthrough() -> (r: RecordSampler)
        ensures
            r.mode() == SamplingMode::All,
            r.used_count() == 0,
    {
        Self::new(SamplingMode::All, 0)
    }

    /// Whether to use the next read, skip it, or stop.
    pub fn ask(&mut self) -> (r: Indicator)
        ensures
            r == sampler_answer(old(self).mode(), old(self).state(), old(self).used_count()),
            final(self).mode() == old(self).mode(),
            final(self).used_count() == old(self).used_count(),
            final(self).state() == (match old(self).mode() {
                SamplingMode::Fraction(_) => rng_next_state(old(self).state()),
                _ => old(self).state(),
            }),
            old(self).mode() == SamplingMode::Fraction(0) ==> r == Indicator::Skip,
    {
        match self.mode {
            SamplingMode::All => Indicator::Use,
            SamplingMode::Count(n) => {
                if self.num_used >= n {
                    Indicator::Done
                } else {
                    Indicator::Use
                }
            },
            SamplingMode::Fraction(f) => {
                let s = self.rng_state.wrapping_add(0x9E37_79B9_7F4A_7C15u64);
                self.rng_state = s;
                let z1 = (s ^ (s >> 30u64)).wrapping_mul(0xBF58_476D_1CE4_E5B9u64);
                let z2 = (z1 ^ (z1 >> 27u64)).wrapping_mul(0x94D0_49BB_1331_11EBu64);
                let x = z2 ^ (z2 >> 31u64);
                if x % (PROB_SCALE as u64) < f as u64 {
                    Indicator::Use
                } else {
                    Indicator::Skip
                }
            },
        }
    }

    /// Count a read as used.
    pub fn used(&mut self)
        ensures
            final(self).mode() == old(self).mode(),
            final(self).state() == old(self).state(),
            final(self).used_count() == sat_inc(old(self).used_count()),
    {
        self.num_used = self.num_used.saturating_add(1);
    }
}

pub open spec fn sat_inc(x: u64) -> u64 {
    if x == u64::MAX {
        x
    } else {
        (x + 1) as u64
    }
}

/// Sum of a sequence of lengths.
pub open spec fn total_len(s: Seq<u64>) -> int
    decreases s.len(),
{
    if s.len() == 0 {
        0
    } else {
        total_len(s.drop_last()) + s.last()
    }
}

/// The quota of each reference: its share of `total` in proportion to its
/// length, rounded down.
pub open spec fn quotas(lengths: Seq<u64>, total: u64) -> Seq<u64> {
    Seq::new(
        lengths.len(),
        |i: int|
            if total_len(lengths) == 0 {
                0u64
            } else {
                (total * lengths[i] / total_len(lengths)) as u64
            },
    )
}

proof fn lemma_total_len_prefix(s: Seq<u64>, i: int)
    requires
        0 <= i < s.len(),
    ensures
        total_len(s.subrange(0, i + 1)) == total_len(s.subrange(0, i)) + s[i],
{
    assert(s.subrange(0, i + 1).drop_last() =~= s.subrange(0, i));
}

proof fn lemma_total_len_bound(s: Seq<u64>)
    ensures
        0 <= total_len(s) <= s.len() * u64::MAX,
    decreases s.len(),
{
    if s.len() > 0 {
        lemma_total_len_bound(s.drop_last());
        assert((s.len() - 1) * u64::MAX + u64::MAX == s.len() * u64::MAX) by (nonlinear_arith);
    }
}

proof fn lemma_total_len_monotone(s: Seq<u64>, n: int)
    requires
        0 <= n <= s.len(),
    ensures
        total_len(s.subrange(0, n)) <= total_len(s),
    decreases s.len() - n,
{
    if n < s.len() {
        lemma_total_len_monotone(s, n + 1);
        lemma_total_len_prefix(s, n);
    } else {
        assert(s.subrange(0, n) =~= s);
    }
}

proof fn lemma_quota_prefix(lengths: Seq<u64>, total: u64, k: int)
    requires
        0 <= k <= lengths.len(),
        total_len(lengths) > 0,
    ensures
        total_len(quotas(lengths, total).subrange(0, k)) * total_len(lengths) <= total
            * total_len(lengths.subrange(0, k)),
    decreases k,
{
    let q = quotas(lengths, total);
    let l = total_len(lengths);
    if k == 0 {
        assert(q.subrange(0, 0) =~= Seq::<u64>::empty());
        assert(lengths.subrange(0, 0) =~= Seq::<u64>::empty());
        assert(0 * l == 0);
        assert(total * 0 == 0);
    } else {
        lemma_quota_prefix(lengths, total, k - 1);
        lemma_total_len_prefix(q, k - 1);
        lemma_total_len_prefix(lengths, k - 1);
        lemma_total_len_monotone(lengths, k);
        lemma_total_len_bound(lengths.subrange(0, k - 1));
        let x = lengths[k - 1];
        assert(x <= l);
        let prod = total as int * x as int;
        assert(prod / l <= total) by (nonlinear_arith)
            requires x <= l, l > 0, total >= 0, x >= 0, prod == total as int * x as int;
        assert(q[k - 1] == prod / l);
        assert((prod / l) * l <= prod) by (nonlinear_arith)
            requires l > 0, prod >= 0;
        let a = total_len(q.subrange(0, k - 1));
        let b = total_len(lengths.subrange(0, k - 1));
        assert((a + q[k - 1]) * l <= total * (b + x)) by (nonlinear_arith)
            requires
                a * l <= total * b,
                q[k - 1] * l <= total * x,
        ;
    }
}

/// The quotas add up to at most the requested total.
pub proof fn lemma_quotas_within_total(lengths: Seq<u64>, total: u64)
    ensures
        total_len(quotas(lengths, total)) <= total,
{
    let q = quotas(lengths, total);
    lemma_total_len_bound(lengths);
    if total_len(lengths) == 0 {
        assert forall|k: int| 0 <= k <= q.len() implies total_len(#[trigger] q.subrange(0, k)) == 0 by {
            lemma_zero_prefix(q, k);
        }
        assert(q.subrange(0, q.len() as int) =~= q);
    } else {
        lemma_quota_prefix(lengths, total, lengths.len() as int);
        assert(q.subrange(0, q.len() as int) =~= q);
        assert(lengths.subrange(0, lengths.len() as int) =~= lengths);
        let l = total_len(lengths);
        assert(total_len(q) <= total) by (nonlinear_arith)
            requires total_len(q) * l <= total * l, l > 0;
    }
}

proof fn lemma_zero_prefix(q: Seq<u64>, k: int)
    requires
        0 <= k <= q.len(),
        forall|i: int| 0 <= i < q.len() ==> q[i] == 0,
    ensures
        total_len(q.subrange(0, k)) == 0,
    decreases k,
{
    if k > 0 {
        lemma_zero_prefix(q, k - 1);
        lemma_total_len_prefix(q, k - 1);
    } else {
        assert(q.subrange(0, 0) =~= Seq::<u64>::empty());
    }
}

/// Read quotas for reference sequences: `total` shared in proportion to
/// their lengths.
pub struct SamplingSchedule {
    pub quotas: Vec<u64>,
}

impl SamplingSchedule {
    pub fn from_lengths(lengths: &Vec<u64>, total: u64) -> (r: SamplingSchedule)
        requires
            lengths@.len() < 0x1_0000_0000,
        ensures
            r.quotas@ == quotas(lengths@, total),
    {
        let mut sum: u128 = 0;
        let mut i: usize = 0;
        while i < lengths.len()
            invariant
                i <= lengths.len(),
                lengths@.len() < 0x1_0000_0000,
                sum == total_len(lengths@.subrange(0, i as int)),
            decreases lengths.len() - i,
        {
            proof {
                lemma_total_len_prefix(lengths@, i as int);
                lemma_total_len_bound(lengths@.subrange(0, i as int));
                assert(i * u64::MAX + u64::MAX < u128::MAX) by (nonlinear_arith)
                    requires i < 0x1_0000_0000;
            }
            sum = sum + lengths[i] as u128;
            i = i + 1;
        }
        assert(lengths@.subrange(0, i as int) =~= lengths@);
        let mut out: Vec<u64> = Vec::new();
        let mut j: usize = 0;
        while j < lengths.len()
            invariant
                j <= lengths.len(),
                sum == total_len(lengths@),
                out@.len() == j,
                forall|k: int| 0 <= k < j ==> out@[k] == #[trigger] quotas(lengths@, total)[k],
            decreases lengths.len() - j,
        {
            let q: u64 = if sum == 0 {
                0
            } else {
                proof {
                    lemma_total_len_monotone(lengths@, j as int + 1);
                    lemma_total_len_prefix(lengths@, j as int);
                    lemma_total_len_bound(lengths@.subrange(0, j as int));
                    assert(lengths@[j as int] <= sum);
                    assert(total as int * lengths@[j as int] <= u64::MAX as int * u64::MAX as int)
                        by (nonlinear_arith)
                        requires total <= u64::MAX, lengths@[j as int] <= u64::MAX;
                    assert(total as int * lengths@[j as int] / sum as int <= total) by (
                    nonlinear_arith)
                        requires lengths@[j as int] <= sum, sum > 0, total >= 0, lengths@[j as int]
                            >= 0;
                }
                ((total as u128) * (lengths[j] as u128) / sum) as u64
            };
            out.push(q);
            j = j + 1;
        }
        assert(out@ =~= quotas(lengths@, total));
        SamplingSchedule { quotas: out }
    }
}

} // verus!
