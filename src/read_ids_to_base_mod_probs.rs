use vstd::prelude::*;
use crate::mod_bam::{
    argmax_call, call_prob, collapsed, lemma_collapse_preserves_total, BaseModCall, BaseModProbs,
    CollapseMethod,
};
use crate::mod_base_code::ModCodeRepr;
use crate::mod_base_code::DnaBase;
use crate::reads_sampler::{
    rng_next_state, sampler_answer, sat_inc, Indicator, RecordSampler, SamplingMode,
};
use crate::mod_bam::PROB_SCALE;
use crate::thresholds::{is_sorted_perm, mle_values, percentile_at, threshold_from_values, ThresholdError};

verus! {

/// The decoded calls of one read: its name and, per canonical base, the
/// probabilities at each call.
pub struct ReadCalls {
    pub name: String,
    pub calls: Vec<(DnaBase, BaseModProbs)>,
}

pub open spec fn read_calls_wf(r: ReadCalls) -> bool {
    forall|j: int| 0 <= j < r.calls@.len() ==> (#[trigger] r.calls@[j]).1.wf()
}

/// `r` is read `s` with `code` collapsed out of each call.
pub open spec fn read_collapsed_from(r: ReadCalls, s: ReadCalls, code: ModCodeRepr) -> bool {
    &&& r.name@ == s.name@
    &&& r.calls@.len() == s.calls@.len()
    &&& forall|j: int|
        0 <= j < r.calls@.len() ==> (#[trigger] r.calls@[j]).0 == s.calls@[j].0
            && r.calls@[j].1.view() == collapsed(s.calls@[j].1.view(), code)
}

/// No call of the read holds `code`.
pub open spec fn lacks_code(r: ReadCalls, code: ModCodeRepr) -> bool {
    forall|j: int, i: int|
        0 <= j < r.calls@.len() && 0 <= i < r.calls@[j].1.view().len() ==> (
        #[trigger] r.calls@[j].1.view()[i]).0 != code
}

impl ReadCalls {
    /// The read with the method's code collapsed out of each call.
    pub fn to_collapsed(&self, method: &CollapseMethod) -> (r: ReadCalls)
        requires
            read_calls_wf(*self),
        ensures
            read_calls_wf(r),
            read_collapsed_from(r, *self, method->ReDistribute_0),
            lacks_code(r, method->ReDistribute_0),
    {
        let ghost code = method->ReDistribute_0;
        let mut calls: Vec<(DnaBase, BaseModProbs)> = Vec::new();
        let mut j: usize = 0;
        while j < self.calls.len()
            invariant
                read_calls_wf(*self),
                code == method->ReDistribute_0,
                j <= self.calls@.len(),
                calls@.len() == j,
                forall|a: int|
                    0 <= a < j ==> (#[trigger] calls@[a]).0 == self.calls@[a].0 && calls@[a].1.wf()
                        && calls@[a].1.view() == collapsed(self.calls@[a].1.view(), code),
                forall|a: int, i: int|
                    0 <= a < j && 0 <= i < calls@[a].1.view().len() ==> (
                    #[trigger] calls@[a].1.view()[i]).0 != code,
            decreases self.calls.len() - j,
        {
            assert(self.calls@[j as int].1.wf());
            let probs = self.calls[j].1.to_collapsed(method);
            proof {
                self.calls@[j as int].1.lemma_wf();
                lemma_collapse_preserves_total(self.calls@[j as int].1.view(), code);
            }
            calls.push((self.calls[j].0, probs));
            j = j + 1;
        }
        ReadCalls { name: self.name.clone(), calls }
    }
}

/// The calls on `base` among `calls`, in order.
pub open spec fn calls_on(calls: Seq<(DnaBase, BaseModProbs)>, base: DnaBase) -> Seq<BaseModProbs>
    decreases calls.len(),
{
    if calls.len() == 0 {
        seq![]
    } else {
        let prev = calls_on(calls.drop_last(), base);
        if calls.last().0 == base {
            prev.push(calls.last().1)
        } else {
            prev
        }
    }
}

/// The calls on `base` of all reads, read by read.
pub open spec fn reads_calls_on(reads: Seq<ReadCalls>, base: DnaBase) -> Seq<BaseModProbs>
    decreases reads.len(),
{
    if reads.len() == 0 {
        seq![]
    } else {
        reads_calls_on(reads.drop_last(), base) + calls_on(reads.last().calls@, base)
    }
}

/// The winning probabilities of the calls whose most probable state is
/// `code` (`None`: the canonical base), in order.
pub open spec fn state_values(calls: Seq<BaseModProbs>, code: Option<crate::mod_base_code::ModCodeRepr>) -> Seq<u32>
    decreases calls.len(),
{
    if calls.len() == 0 {
        seq![]
    } else {
        let prev = state_values(calls.drop_last(), code);
        let c = argmax_call(calls.last().view());
        if crate::threshold_mod_caller::call_code(c) == code {
            prev.push(call_prob(c))
        } else {
            prev
        }
    }
}

/// The number of calls that a list of reads holds.
pub open spec fn total_calls(reads: Seq<ReadCalls>) -> int
    decreases reads.len(),
{
    if reads.len() == 0 {
        0
    } else {
        total_calls(reads.drop_last()) + reads.last().calls@.len()
    }
}

/// Some read of `reads` has this name.
pub open spec fn holds_name(reads: Seq<ReadCalls>, name: Seq<char>) -> bool {
    exists|j: int| 0 <= j < reads.len() && reads[j].name@ == name
}

/// Sampled reads, each held once, with their calls.
pub struct ReadIdsToBaseModProbs {
    reads: Vec<ReadCalls>,
}

impl ReadIdsToBaseModProbs {
    pub closed spec fn view(&self) -> Seq<ReadCalls> {
        self.reads@
    }

    pub closed spec fn wf(&self) -> bool {
        &&& forall|k: int| 0 <= k < self.reads@.len() ==> read_calls_wf(#[trigger] self.reads@[k])
        &&& forall|a: int, b: int|
            0 <= a < b < self.reads@.len() ==> self.reads@[a].name@ != self.reads@[b].name@
    }

    pub fn zero() -> (r: ReadIdsToBaseModProbs)
        ensures
            r.wf(),
            r.view().len() == 0,
    {
        ReadIdsToBaseModProbs { reads: Vec::new() }
    }

    /// Whether a read of this name is held.
    pub fn seen(&self, record_name: &String) -> (r: bool)
        ensures
            r == exists|k: int| 0 <= k < self.view().len() && self.view()[k].name@ == record_name@,
    {
        let mut k: usize = 0;
        while k < self.reads.len()
            invariant
                k <= self.reads@.len(),
                forall|a: int| 0 <= a < k ==> self.reads@[a].name@ != record_name@,
            decreases self.reads.len() - k,
        {
            if self.reads[k].name == *record_name {
                assert(self.view()[k as int].name@ == record_name@);
                return true;
            }
            k = k + 1;
        }
        false
    }

    pub fn num_reads(&self) -> (r: usize)
        ensures
            r == self.view().len(),
    {
        self.reads.len()
    }

    /// Hold a read that is not held yet; one already held is left as it is.
    pub fn add_read(&mut self, read: ReadCalls)
        requires
            old(self).wf(),
            read_calls_wf(read),
        ensures
            final(self).wf(),
            (exists|k: int| 0 <= k < old(self).view().len() && old(self).view()[k].name@ == read.name@)
                ==> final(self).view() == old(self).view(),
            !(exists|k: int| 0 <= k < old(self).view().len() && old(self).view()[k].name@ == read.name@)
                ==> final(self).view() == old(self).view().push(read),
    {
        if self.seen(&read.name) {
            return;
        }
        let ghost before = self.reads@;
        self.reads.push(read);
        proof {
            assert forall|a: int, b: int|
                0 <= a < b < self.reads@.len() implies self.reads@[a].name@ != self.reads@[b].name@ by {
                if b == self.reads@.len() - 1 {
                    assert(self.reads@[a] == before[a]);
                }
            }
            assert forall|k: int| 0 <= k < self.reads@.len() implies read_calls_wf(
                #[trigger] self.reads@[k],
            ) by {
                if k < before.len() {
                    assert(self.reads@[k] == before[k]);
                }
            }
        }
    }

    /// The number of calls held, over all reads (capped at the largest `u64`).
    pub fn size(&self) -> (r: u64)
        ensures
            r == if total_calls(self.view()) > u64::MAX {
                u64::MAX as int
            } else {
                total_calls(self.view())
            },
    {
        let mut n: u64 = 0;
        let mut k: usize = 0;
        let mut capped = false;
        while k < self.reads.len()
            invariant
                k <= self.reads@.len(),
                !capped ==> n == total_calls(self.reads@.subrange(0, k as int)),
                capped ==> n == u64::MAX && total_calls(self.reads@.subrange(0, k as int)) > u64::MAX,
                total_calls(self.reads@.subrange(0, k as int)) >= 0,
            decreases self.reads.len() - k,
        {
            assert(self.reads@.subrange(0, k as int + 1).drop_last() =~= self.reads@.subrange(0, k as int));
            let c = self.reads[k].calls.len() as u64;
            if capped || n > u64::MAX - c {
                capped = true;
                n = u64::MAX;
            } else {
                n = n + c;
            }
            k = k + 1;
        }
        assert(self.reads@.subrange(0, k as int) =~= self.reads@);
        n
    }

    /// The winning probabilities of the calls on `base` whose most probable
    /// state is `code` (`None`: the canonical base), read by read.
    pub fn mle_probs_per_state(&self, base: DnaBase, code: Option<crate::mod_base_code::ModCodeRepr>) -> (r: Vec<u32>)
        requires
            self.wf(),
        ensures
            r@ == state_values(reads_calls_on(self.view(), base), code),
    {
        let mut out: Vec<u32> = Vec::new();
        let mut k: usize = 0;
        while k < self.reads.len()
            invariant
                self.wf(),
                k <= self.reads@.len(),
                out@ == state_values(reads_calls_on(self.reads@.subrange(0, k as int), base), code),
            decreases self.reads.len() - k,
        {
            assert(self.reads@.subrange(0, k as int + 1).drop_last() =~= self.reads@.subrange(0, k as int));
            let calls = &self.reads[k].calls;
            assert(read_calls_wf(self.reads@[k as int]));
            let ghost out_before = out@;
            let ghost prefix = reads_calls_on(self.reads@.subrange(0, k as int), base);
            let mut j: usize = 0;
            while j < calls.len()
                invariant
                    k < self.reads@.len(),
                    calls@ == self.reads@[k as int].calls@,
                    read_calls_wf(self.reads@[k as int]),
                    j <= calls@.len(),
                    out_before == state_values(prefix, code),
                    out@ == state_values(prefix + calls_on(calls@.subrange(0, j as int), base), code),
                decreases calls.len() - j,
            {
                assert(calls@.subrange(0, j as int + 1).drop_last() =~= calls@.subrange(0, j as int));
                let ghost cur = prefix + calls_on(calls@.subrange(0, j as int), base);
                if calls[j].0 == base {
                    assert(calls@[j as int].1.wf());
                    let c = calls[j].1.argmax_base_mod_call();
                    let (p, this_code) = match c {
                        BaseModCall::Canonical(p) => (p, None),
                        BaseModCall::Modified(p, m) => (p, Some(m)),
                        BaseModCall::Filtered => (0, None),
                    };
                    let ghost next = cur.push(calls@[j as int].1);
                    assert(prefix + calls_on(calls@.subrange(0, j as int + 1), base) =~= next);
                    assert(next.drop_last() =~= cur);
                    if this_code == code {
                        out.push(p);
                    }
                } else {
                    assert(prefix + calls_on(calls@.subrange(0, j as int + 1), base) =~= cur);
                }
                j = j + 1;
            }
            assert(calls@.subrange(0, j as int) =~= calls@);
            assert(reads_calls_on(self.reads@.subrange(0, k as int + 1), base) =~= prefix + calls_on(calls@, base));
            k = k + 1;
        }
        assert(self.reads@.subrange(0, k as int) =~= self.reads@);
        out
    }

    /// Keep a read that the sampler said to use: one whose name is held
    /// already is passed over; a new one is held, collapsed as the method
    /// says, and counts as used when it has calls.
    pub fn take_sampled(
        &mut self,
        read: ReadCalls,
        sampler: &mut RecordSampler,
        collapse_method: Option<&CollapseMethod>,
    )
        requires
            old(self).wf(),
            read_calls_wf(read),
        ensures
            final(self).wf(),
            final(sampler).mode() == old(sampler).mode(),
            final(sampler).state() == old(sampler).state(),
            holds_name(old(self).view(), read.name@) ==> final(self).view() == old(self).view()
                && final(sampler).used_count() == old(sampler).used_count(),
            !holds_name(old(self).view(), read.name@) ==> {
                &&& final(self).view().len() == old(self).view().len() + 1
                &&& final(self).view().drop_last() == old(self).view()
                &&& final(sampler).used_count() == if read.calls@.len() > 0 {
                    sat_inc(old(sampler).used_count())
                } else {
                    old(sampler).used_count()
                }
                &&& match collapse_method {
                    None => final(self).view().last() == read,
                    Some(m) => read_collapsed_from(final(self).view().last(), read, m->ReDistribute_0)
                        && lacks_code(final(self).view().last(), m->ReDistribute_0),
                }
            },
    {
        if self.seen(&read.name) {
            return;
        }
        let has_calls = read.calls.len() > 0;
        let stored = match collapse_method {
            Some(m) => read.to_collapsed(m),
            None => read,
        };
        let ghost before = self.reads@;
        self.add_read(stored);
        assert(self.reads@.drop_last() =~= before);
        if has_calls {
            sampler.used();
        }
    }

    /// The reads with the method's code collapsed out of every call.
    pub fn into_collapsed(self, method: &CollapseMethod) -> (r: ReadIdsToBaseModProbs)
        requires
            self.wf(),
        ensures
            r.wf(),
            r.view().len() == self.view().len(),
            forall|k: int|
                0 <= k < r.view().len() ==> read_collapsed_from(
                    #[trigger] r.view()[k],
                    self.view()[k],
                    method->ReDistribute_0,
                ) && lacks_code(r.view()[k], method->ReDistribute_0),
    {
        let mut reads: Vec<ReadCalls> = Vec::new();
        let mut k: usize = 0;
        while k < self.reads.len()
            invariant
                self.wf(),
                k <= self.reads@.len(),
                reads@.len() == k,
                forall|a: int|
                    0 <= a < k ==> read_collapsed_from(
                        #[trigger] reads@[a],
                        self.reads@[a],
                        method->ReDistribute_0,
                    ) && lacks_code(reads@[a], method->ReDistribute_0) && read_calls_wf(reads@[a]),
            decreases self.reads.len() - k,
        {
            assert(read_calls_wf(self.reads@[k as int]));
            let r = self.reads[k].to_collapsed(method);
            reads.push(r);
            k = k + 1;
        }
        proof {
            assert forall|a: int, b: int| 0 <= a < b < reads@.len() implies reads@[a].name@
                != reads@[b].name@ by {
                assert(read_collapsed_from(reads@[a], self.reads@[a], method->ReDistribute_0));
                assert(read_collapsed_from(reads@[b], self.reads@[b], method->ReDistribute_0));
            }
        }
        ReadIdsToBaseModProbs { reads }
    }

    /// Take in the reads of `other` whose names are not held yet, in order.
    pub fn op_mut(&mut self, other: ReadIdsToBaseModProbs)
        requires
            old(self).wf(),
            other.wf(),
        ensures
            final(self).wf(),
            final(self).view().len() >= old(self).view().len(),
            final(self).view().subrange(0, old(self).view().len() as int) == old(self).view(),
            forall|k: int|
                old(self).view().len() <= k < final(self).view().len() ==> other.view().contains(
                    #[trigger] final(self).view()[k],
                ),
            forall|k: int|
                0 <= k < other.view().len() ==> holds_name(
                    final(self).view(),
                    (#[trigger] other.view()[k]).name@,
                ),
    {
        let ghost start = self.reads@;
        let ghost theirs = other.reads@;
        let mut rest = other.reads;
        let mut i: usize = 0;
        let n = rest.len();
        while rest.len() > 0
            invariant
                self.wf(),
                forall|k: int| 0 <= k < theirs.len() ==> read_calls_wf(#[trigger] theirs[k]),
                i + rest@.len() == theirs.len(),
                n == theirs.len(),
                rest@ == theirs.subrange(i as int, theirs.len() as int),
                self.reads@.len() >= start.len(),
                self.reads@.subrange(0, start.len() as int) == start,
                forall|k: int|
                    start.len() <= k < self.reads@.len() ==> theirs.contains(#[trigger] self.reads@[k]),
                forall|k: int| 0 <= k < i ==> holds_name(self.reads@, (#[trigger] theirs[k]).name@),
            decreases rest.len(),
        {
            let read = rest.remove(0);
            assert(read == theirs[i as int]);
            let ghost before = self.reads@;
            self.add_read(read);
            proof {
                assert(self.reads@.subrange(0, start.len() as int) =~= start) by {
                    assert(before.subrange(0, start.len() as int) == start);
                    if self.reads@ != before {
                        assert(self.reads@ == before.push(theirs[i as int]));
                    }
                }
                assert forall|k: int|
                    start.len() <= k < self.reads@.len() implies theirs.contains(
                        #[trigger] self.reads@[k],
                    ) by {
                    if k < before.len() {
                        assert(self.reads@[k] == before[k]);
                    } else {
                        assert(self.reads@[k] == theirs[i as int]);
                    }
                }
                assert forall|k: int| 0 <= k < i + 1 implies holds_name(
                    self.reads@,
                    (#[trigger] theirs[k]).name@,
                ) by {
                    if k < i {
                        assert(holds_name(before, theirs[k].name@));
                        let j = choose|j: int| 0 <= j < before.len() && before[j].name@ == theirs[k].name@;
                        assert(self.reads@[j] == before[j]);
                    } else if self.reads@ == before {
                        let j = choose|j: int|
                            0 <= j < before.len() && before[j].name@ == theirs[i as int].name@;
                        assert(self.reads@[j].name@ == theirs[k].name@);
                    } else {
                        assert(self.reads@[before.len() as int] == theirs[i as int]);
                    }
                }
            }
            i = i + 1;
            assert(rest@ =~= theirs.subrange(i as int, theirs.len() as int));
        }
    }

    /// The probability of the most probable state at each call on `base`,
    /// read by read.
    pub fn mle_probs_per_base(&self, base: DnaBase) -> (r: Vec<u32>)
        requires
            self.wf(),
        ensures
            r@ == mle_values(reads_calls_on(self.view(), base)),
    {
        let mut out: Vec<u32> = Vec::new();
        let mut k: usize = 0;
        while k < self.reads.len()
            invariant
                self.wf(),
                k <= self.reads@.len(),
                out@ == mle_values(reads_calls_on(self.reads@.subrange(0, k as int), base)),
            decreases self.reads.len() - k,
        {
            assert(self.reads@.subrange(0, k as int + 1).drop_last() =~= self.reads@.subrange(0, k as int));
            let calls = &self.reads[k].calls;
            assert(read_calls_wf(self.reads@[k as int]));
            let ghost out_before = out@;
            let mut j: usize = 0;
            while j < calls.len()
                invariant
                    k < self.reads@.len(),
                    calls@ == self.reads@[k as int].calls@,
                    read_calls_wf(self.reads@[k as int]),
                    j <= calls@.len(),
                    out@ == out_before + mle_values(calls_on(calls@.subrange(0, j as int), base)),
                decreases calls.len() - j,
            {
                assert(calls@.subrange(0, j as int + 1).drop_last() =~= calls@.subrange(0, j as int));
                if calls[j].0 == base {
                    assert(calls@[j as int].1.wf());
                    let c = calls[j].1.argmax_base_mod_call();
                    let p = match c {
                        crate::mod_bam::BaseModCall::Canonical(p) => p,
                        crate::mod_bam::BaseModCall::Modified(p, _) => p,
                        crate::mod_bam::BaseModCall::Filtered => 0,
                    };
                    out.push(p);
                    assert(out@ =~= out_before + mle_values(calls_on(calls@.subrange(0, j as int + 1), base)));
                }
                j = j + 1;
            }
            assert(calls@.subrange(0, j as int) =~= calls@);
            assert(out@ =~= mle_values(reads_calls_on(self.reads@.subrange(0, k as int + 1), base)));
            k = k + 1;
        }
        assert(self.reads@.subrange(0, k as int) =~= self.reads@);
        out
    }
}

impl ReadIdsToBaseModProbs {
    /// The calling threshold for a base: the value at `percentile` of the
    /// most probable state's probability over the sampled calls on it.
    pub fn estimate_threshold(&self, base: DnaBase, percentile: u32) -> (r: Result<u32, ThresholdError>)
        requires
            self.wf(),
        ensures
            mle_values(reads_calls_on(self.view(), base)).len() == 0 <==> r == Err::<
                u32,
                ThresholdError,
            >(ThresholdError::EmptySampleForBase(base)),
            mle_values(reads_calls_on(self.view(), base)).len() > 0 && percentile > PROB_SCALE
                <==> r == Err::<u32, ThresholdError>(ThresholdError::InvalidQuantile),
            r is Err ==> r == Err::<u32, ThresholdError>(ThresholdError::EmptySampleForBase(base))
                || r == Err::<u32, ThresholdError>(ThresholdError::InvalidQuantile),
            mle_values(reads_calls_on(self.view(), base)).len() > 0 && percentile <= PROB_SCALE
                ==> r is Ok,
            r is Ok ==> exists|s: Seq<u32>|
                #![trigger is_sorted_perm(s, mle_values(reads_calls_on(self.view(), base)))]
                is_sorted_perm(s, mle_values(reads_calls_on(self.view(), base))) && r->Ok_0
                    == percentile_at(s, percentile as int) as u32,
    {
        let values = self.mle_probs_per_base(base);
        threshold_from_values(base, &values, percentile)
    }
}

/// The reads that sampling keeps, going through `records` from a sampler in
/// the given mode and state with `acc` kept so far.
pub open spec fn sampled(
    records: Seq<ReadCalls>,
    mode: SamplingMode,
    state: u64,
    used: u64,
    acc: Seq<ReadCalls>,
) -> Seq<ReadCalls>
    decreases records.len(),
{
    if records.len() == 0 {
        acc
    } else {
        let next_state = match mode {
            SamplingMode::Fraction(_) => rng_next_state(state),
            _ => state,
        };
        let rest = records.drop_first();
        match sampler_answer(mode, state, used) {
            Indicator::Done => acc,
            Indicator::Skip => sampled(rest, mode, next_state, used, acc),
            Indicator::Use => {
                let r = records[0];
                if holds_name(acc, r.name@) {
                    sampled(rest, mode, next_state, used, acc)
                } else {
                    let next_used = if r.calls@.len() > 0 {
                        sat_inc(used)
                    } else {
                        used
                    };
                    sampled(rest, mode, next_state, next_used, acc.push(r))
                }
            },
        }
    }
}

/// The reads that sampling takes, in order: the sampler is asked once per
/// read until it answers `Done`; a read whose name was taken already is
/// passed over, and a new one that holds calls counts as used.
pub fn sample_records(
    records: Vec<ReadCalls>,
    sampler: &mut RecordSampler,
) -> (r: ReadIdsToBaseModProbs)
    requires
        forall|k: int| 0 <= k < records@.len() ==> read_calls_wf(#[trigger] records@[k]),
    ensures
        r.wf(),
        r.view().len() <= records@.len(),
        forall|k: int|
            0 <= k < r.view().len() ==> #[trigger] records@.contains(r.view()[k]),
        final(sampler).mode() == old(sampler).mode(),
        old(sampler).mode() == SamplingMode::Fraction(0) ==> r.view().len() == 0,
        r.view() == sampled(
            records@,
            old(sampler).mode(),
            old(sampler).state(),
            old(sampler).used_count(),
            seq![],
        ),
{
    let mut acc = ReadIdsToBaseModProbs::zero();
    let mut records = records;
    let ghost orig = records@;
    let n = records.len();
    let mut taken: usize = 0;
    let ghost mode = sampler.mode();
    let ghost goal = sampled(orig, mode, sampler.state(), sampler.used_count(), seq![]);
    assert(acc.view() =~= seq![]);
    assert(orig.subrange(0, orig.len() as int) =~= orig);
    while records.len() > 0
        invariant_except_break
            sampler.mode() == mode,
            goal == sampled(records@, mode, sampler.state(), sampler.used_count(), acc.view()),
            mode == SamplingMode::Fraction(0) ==> acc.view().len() == 0,
            acc.wf(),
            acc.view().len() <= taken,
            taken + records@.len() == orig.len(),
            n == orig.len(),
            records@ == orig.subrange(taken as int, orig.len() as int),
            forall|k: int| 0 <= k < acc.view().len() ==> #[trigger] orig.contains(acc.view()[k]),
            forall|k: int| 0 <= k < orig.len() ==> read_calls_wf(#[trigger] orig[k]),
        ensures
            sampler.mode() == mode,
            goal == acc.view(),
            mode == SamplingMode::Fraction(0) ==> acc.view().len() == 0,
            acc.wf(),
            acc.view().len() <= orig.len(),
            forall|k: int| 0 <= k < acc.view().len() ==> #[trigger] orig.contains(acc.view()[k]),
        decreases records.len(),
    {
        let ghost rec = records@;
        let ghost st = sampler.state();
        let ghost u = sampler.used_count();
        let ghost acc0 = acc.view();
        assert(goal == sampled(rec, mode, st, u, acc0));
        match sampler.ask() {
            Indicator::Use => {
                let read = records.remove(0);
                assert(read == orig[taken as int]);
                assert(records@ =~= rec.drop_first());
                assert(rec[0] == read);
                if !acc.seen(&read.name) {
                    let has_calls = read.calls.len() > 0;
                    let ghost before = acc.view();
                    acc.add_read(read);
                    proof {
                        assert forall|k: int| 0 <= k < acc.view().len() implies #[trigger] orig.contains(
                            acc.view()[k],
                        ) by {
                            if k < before.len() {
                                assert(acc.view()[k] == before[k]);
                            } else {
                                assert(orig[taken as int] == acc.view()[k]);
                            }
                        }
                    }
                    if has_calls {
                        sampler.used();
                    }
                    assert(acc.view() == acc0.push(read));
                } else {
                    assert(holds_name(acc0, read.name@));
                }
                taken = taken + 1;
                assert(records@ =~= orig.subrange(taken as int, orig.len() as int));
            },
            Indicator::Skip => {
                records.remove(0);
                assert(records@ =~= rec.drop_first());
                taken = taken + 1;
                assert(records@ =~= orig.subrange(taken as int, orig.len() as int));
            },
            Indicator::Done => {
                break;
            },
        }
    }
    acc
}

/// The sampled reads (see `sample_records`), with the collapse method's
/// code, if any, collapsed out of every call that is kept.
pub fn process_records(
    records: Vec<ReadCalls>,
    sampler: &mut RecordSampler,
    collapse_method: Option<&CollapseMethod>,
) -> (r: ReadIdsToBaseModProbs)
    requires
        forall|k: int| 0 <= k < records@.len() ==> read_calls_wf(#[trigger] records@[k]),
    ensures
        r.wf(),
        final(sampler).mode() == old(sampler).mode(),
        old(sampler).mode() == SamplingMode::Fraction(0) ==> r.view().len() == 0,
        ({
            let s = sampled(
                records@,
                old(sampler).mode(),
                old(sampler).state(),
                old(sampler).used_count(),
                seq![],
            );
            &&& collapse_method is None ==> r.view() == s
            &&& collapse_method matches Some(m) ==> {
                &&& r.view().len() == s.len()
                &&& forall|k: int|
                    0 <= k < s.len() ==> read_collapsed_from(
                        #[trigger] r.view()[k],
                        s[k],
                        m->ReDistribute_0,
                    ) && lacks_code(r.view()[k], m->ReDistribute_0)
            }
        }),
{
    let sampled_reads = sample_records(records, sampler);
    match collapse_method {
        Some(m) => sampled_reads.into_collapsed(m),
        None => sampled_reads,
    }
}

} // verus!
