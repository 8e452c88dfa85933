use vstd::prelude::*;
use crate::mod_bam::{argmax_call, call_prob, BaseModProbs, PROB_SCALE};
use crate::mod_base_code::DnaBase;

verus! {

broadcast use vstd::seq_lib::group_to_multiset_ensures;

/// Why no threshold could be derived.
#[derive(Debug, Clone, Copy, PartialEq, Eq, Structural)]
pub enum ThresholdError {
    /// There is nothing to take a percentile of.
    EmptySample,
    /// A requested quantile is above one.
    InvalidQuantile,
    /// The sample holds no call on this base.
    EmptySampleForBase(DnaBase),
}

pub open spec fn is_sorted(s: Seq<u32>) -> bool {
    forall|i: int, j: int| 0 <= i <= j < s.len() ==> s[i] <= s[j]
}

/// `s` holds the values of `samples` in ascending order.
pub open spec fn is_sorted_perm(s: Seq<u32>, samples: Seq<u32>) -> bool {
    is_sorted(s) && s.to_multiset() == samples.to_multiset()
}

/// The value at quantile `q` (parts per million) of the ascending values `s`,
/// interpolated linearly between the two nearest order statistics and
/// rounded down.
pub open spec fn percentile_at(s: Seq<u32>, q: int) -> int {
    let h = q * (s.len() - 1);
    let lo = h / PROB_SCALE as int;
    let rem = h % PROB_SCALE as int;
    if rem == 0 || lo + 1 >= s.len() {
        s[lo] as int
    } else {
        s[lo] + (s[lo + 1] - s[lo]) * rem / PROB_SCALE as int
    }
}

/// Relies on `slice::sort`: afterwards the values are in ascending order, and
/// they are the values that were there before.
#[verifier::external_body]
fn sort_values(v: &mut Vec<u32>)
    ensures
        is_sorted(final(v)@),
        final(v)@.to_multiset() == old(v)@.to_multiset(),
{
    v.sort();
}

/// Quantiles (parts per million) with the sample value at each.
pub struct Percentiles {
    pub qs: Vec<(u32, u32)>,
}

proof fn lemma_percentile_in_range(s: Seq<u32>, q: int)
    requires
        s.len() > 0,
        0 <= q <= PROB_SCALE,
        is_sorted(s),
    ensures
        ({
            let h = q * (s.len() - 1);
            let lo = h / PROB_SCALE as int;
            &&& 0 <= lo < s.len()
            &&& s[lo] <= percentile_at(s, q) <= s[s.len() - 1]
        }),
{
    let n = s.len() - 1;
    let h = q * n;
    let lo = h / PROB_SCALE as int;
    let rem = h % PROB_SCALE as int;
    assert(0 <= h <= PROB_SCALE * n) by (nonlinear_arith)
        requires 0 <= q <= PROB_SCALE, n >= 0, h == q * n;
    vstd::arithmetic::div_mod::lemma_fundamental_div_mod(h, PROB_SCALE as int);
    assert(lo <= n) by (nonlinear_arith)
        requires h == PROB_SCALE * lo + rem, 0 <= rem, h <= PROB_SCALE * n;
    assert(lo >= 0) by (nonlinear_arith)
        requires h == PROB_SCALE * lo + rem, rem < PROB_SCALE, h >= 0;
    if !(rem == 0 || lo + 1 >= s.len()) {
        let d = s[lo + 1] - s[lo];
        assert(0 <= d * rem / PROB_SCALE as int <= d) by (nonlinear_arith)
            requires 0 <= rem < PROB_SCALE, d >= 0;
    }
}

impl Percentiles {
    /// The value at each quantile of the samples.
    pub fn compute(samples: &Vec<u32>, quantiles: &Vec<u32>) -> (r: Result<
        Percentiles,
        ThresholdError,
    >)
        ensures
            samples@.len() == 0 <==> r == Err::<Percentiles, ThresholdError>(
                ThresholdError::EmptySample,
            ),
            samples@.len() > 0 && (exists|i: int|
                0 <= i < quantiles@.len() && quantiles@[i] > PROB_SCALE) <==> r == Err::<
                Percentiles,
                ThresholdError,
            >(ThresholdError::InvalidQuantile),
            r is Err ==> r == Err::<Percentiles, ThresholdError>(ThresholdError::EmptySample) || r
                == Err::<Percentiles, ThresholdError>(ThresholdError::InvalidQuantile),
            r is Ok ==> exists|s: Seq<u32>|
                #![trigger is_sorted_perm(s, samples@)]
                is_sorted_perm(s, samples@) && r->Ok_0.qs@.len() == quantiles@.len() && forall|
                    i: int,
                |
                    0 <= i < quantiles@.len() ==> #[trigger] r->Ok_0.qs@[i] == (
                        quantiles@[i],
                        percentile_at(s, quantiles@[i] as int) as u32,
                    ),
    {
        if samples.len() == 0 {
            return Err(ThresholdError::EmptySample);
        }
        let mut k: usize = 0;
        while k < quantiles.len()
            invariant
                samples@.len() > 0,
                k <= quantiles.len(),
                forall|i: int| 0 <= i < k ==> quantiles@[i] <= PROB_SCALE,
            decreases quantiles.len() - k,
        {
            if quantiles[k] > PROB_SCALE {
                return Err(ThresholdError::InvalidQuantile);
            }
            k = k + 1;
        }
        let mut sorted: Vec<u32> = Vec::new();
        let mut j: usize = 0;
        while j < samples.len()
            invariant
                j <= samples.len(),
                sorted@ == samples@.subrange(0, j as int),
            decreases samples.len() - j,
        {
            sorted.push(samples[j]);
            assert(sorted@ =~= samples@.subrange(0, j as int + 1));
            j = j + 1;
        }
        assert(sorted@ =~= samples@);
        sort_values(&mut sorted);
        let ghost s = sorted@;
        assert(s.to_multiset().len() == samples@.to_multiset().len());
        assert(s.len() == samples@.len());
        let n = sorted.len();
        let mut qs: Vec<(u32, u32)> = Vec::new();
        let mut i: usize = 0;
        while i < quantiles.len()
            invariant
                s == sorted@,
                n == s.len(),
                n > 0,
                is_sorted(s),
                i <= quantiles.len(),
                forall|a: int| 0 <= a < quantiles@.len() ==> quantiles@[a] <= PROB_SCALE,
                qs@.len() == i,
                forall|a: int|
                    0 <= a < i ==> #[trigger] qs@[a] == (
                        quantiles@[a],
                        percentile_at(s, quantiles@[a] as int) as u32,
                    ),
            decreases quantiles.len() - i,
        {
            let q = quantiles[i];
            proof {
                lemma_percentile_in_range(s, q as int);
                assert(q as int * (n - 1) <= PROB_SCALE as int * (n - 1)) by (nonlinear_arith)
                    requires q <= PROB_SCALE, n >= 1;
            }
            let h: u128 = (q as u128) * ((n - 1) as u128);
            let lo = (h / (PROB_SCALE as u128)) as usize;
            let rem = h % (PROB_SCALE as u128);
            let v: u32 = if rem == 0 || lo + 1 >= n {
                sorted[lo]
            } else {
                let d = (sorted[lo + 1] - sorted[lo]) as u128;
                proof {
                    assert(d * rem <= 0xffff_ffffu128 * 1_000_000u128) by (nonlinear_arith)
                        requires d <= 0xffff_ffff, rem < 1_000_000;
                }
                let add = (d * rem / (PROB_SCALE as u128)) as u32;
                sorted[lo] + add
            };
            qs.push((q, v));
            i = i + 1;
        }
        assert(is_sorted_perm(s, samples@));
        Ok(Percentiles { qs })
    }
}

/// At quantile 0 the interpolation gives the smallest sample and at quantile
/// one the largest, for any sample that is not empty.
pub proof fn lemma_percentile_extremes(samples: Seq<u32>, s: Seq<u32>)
    requires
        samples.len() > 0,
        is_sorted_perm(s, samples),
    ensures
        samples.contains(percentile_at(s, 0) as u32),
        samples.contains(percentile_at(s, PROB_SCALE as int) as u32),
        forall|i: int|
            0 <= i < samples.len() ==> percentile_at(s, 0) <= #[trigger] samples[i]
                <= percentile_at(s, PROB_SCALE as int),
{
    let n = s.len() - 1;
    assert(s.len() == samples.len()) by {
        assert(s.to_multiset().len() == samples.to_multiset().len());
    }
    assert(0 * n == 0);
    assert((PROB_SCALE as int * n) / (PROB_SCALE as int) == n) by (nonlinear_arith)
        requires n >= 0;
    assert((PROB_SCALE as int * n) % (PROB_SCALE as int) == 0) by (nonlinear_arith)
        requires n >= 0;
    assert(percentile_at(s, 0) == s[0]);
    assert(percentile_at(s, PROB_SCALE as int) == s[n]);
    assert(s.contains(s[0]));
    assert(s.contains(s[n]));
    assert(s.to_multiset().count(s[0]) > 0);
    assert(s.to_multiset().count(s[n]) > 0);
    assert(samples.to_multiset().count(s[0]) > 0);
    assert(samples.to_multiset().count(s[n]) > 0);
    assert forall|i: int| 0 <= i < samples.len() implies s[0] <= #[trigger] samples[i] <= s[n] by {
        assert(samples.contains(samples[i]));
        assert(s.to_multiset().count(samples[i]) > 0);
        assert(s.contains(samples[i]));
        let j = choose|j: int| 0 <= j < s.len() && s[j] == samples[i];
    }
}

/// The probability of the most probable state of each entry.
pub open spec fn mle_values(probs: Seq<BaseModProbs>) -> Seq<u32> {
    Seq::new(probs.len(), |i: int| call_prob(argmax_call(probs[i].view())))
}

/// The most probable state's probability for each base.
pub fn mle_probs(probs: &Vec<BaseModProbs>) -> (r: Vec<u32>)
    requires
        forall|i: int| 0 <= i < probs@.len() ==> #[trigger] probs@[i].wf(),
    ensures
        r@.len() == probs@.len(),
        forall|i: int|
            0 <= i < probs@.len() ==> #[trigger] r@[i] == call_prob(argmax_call(probs@[i].view())),
{
    let mut out: Vec<u32> = Vec::new();
    let mut i: usize = 0;
    while i < probs.len()
        invariant
            i <= probs.len(),
            forall|a: int| 0 <= a < probs@.len() ==> #[trigger] probs@[a].wf(),
            out@.len() == i,
            forall|a: int|
                0 <= a < i ==> #[trigger] out@[a] == call_prob(argmax_call(probs@[a].view())),
        decreases probs.len() - i,
    {
        let c = probs[i].argmax_base_mod_call();
        let p = match c {
            crate::mod_bam::BaseModCall::Canonical(p) => p,
            crate::mod_bam::BaseModCall::Modified(p, _) => p,
            crate::mod_bam::BaseModCall::Filtered => 0,
        };
        out.push(p);
        i = i + 1;
    }
    out
}

/// The calling threshold for a base from the winning probabilities sampled
/// on it: the value at `percentile` of `values`. It fails only where `values`
/// is empty (naming the base) or `percentile` is above one.
pub fn threshold_from_values(base: DnaBase, values: &Vec<u32>, percentile: u32) -> (r: Result<
    u32,
    ThresholdError,
>)
    ensures
        values@.len() == 0 <==> r == Err::<u32, ThresholdError>(ThresholdError::EmptySampleForBase(base)),
        values@.len() > 0 && percentile > PROB_SCALE <==> r == Err::<u32, ThresholdError>(
            ThresholdError::InvalidQuantile,
        ),
        r is Err ==> r == Err::<u32, ThresholdError>(ThresholdError::EmptySampleForBase(base)) || r
            == Err::<u32, ThresholdError>(ThresholdError::InvalidQuantile),
        values@.len() > 0 && percentile <= PROB_SCALE ==> r is Ok,
        r is Ok ==> exists|s: Seq<u32>|
            #![trigger is_sorted_perm(s, values@)]
            is_sorted_perm(s, values@) && r->Ok_0 == percentile_at(s, percentile as int) as u32,
{
    if values.len() == 0 {
        return Err(ThresholdError::EmptySampleForBase(base));
    }
    let mut quantiles: Vec<u32> = Vec::new();
    quantiles.push(percentile);
    match Percentiles::compute(values, &quantiles) {
        Ok(p) => Ok(p.qs[0].1),
        Err(e) => {
            assert(quantiles@[0] == percentile);
            assert(e == ThresholdError::InvalidQuantile);
            Err(e)
        },
    }
}

/// The calling threshold for a base: the value at `percentile` of the most
/// probable state's probability over the sampled calls on that base.
pub fn estimate_threshold(base: DnaBase, probs: &Vec<BaseModProbs>, percentile: u32) -> (r: Result<
    u32,
    ThresholdError,
>)
    requires
        forall|i: int| 0 <= i < probs@.len() ==> #[trigger] probs@[i].wf(),
    ensures
        probs@.len() == 0 <==> r == Err::<u32, ThresholdError>(ThresholdError::EmptySampleForBase(base)),
        probs@.len() > 0 && percentile > PROB_SCALE <==> r == Err::<u32, ThresholdError>(
            ThresholdError::InvalidQuantile,
        ),
        r is Err ==> r == Err::<u32, ThresholdError>(ThresholdError::EmptySampleForBase(base)) || r
            == Err::<u32, ThresholdError>(ThresholdError::InvalidQuantile),
        probs@.len() > 0 && percentile <= PROB_SCALE ==> r is Ok,
        r is Ok ==> exists|s: Seq<u32>|
            #![trigger is_sorted_perm(s, mle_values(probs@))]
            is_sorted_perm(s, mle_values(probs@))
                && r->Ok_0 == percentile_at(s, percentile as int) as u32,
{
    let values = mle_probs(probs);
    assert(values@ =~= mle_values(probs@));
    threshold_from_values(base, &values, percentile)
}

} // verus!
