use vstd::prelude::*;
use crate::mod_base_code::{code_key, ModCodeRepr};

verus! {

broadcast use vstd::seq_lib::group_to_multiset_ensures;

/// Probabilities are held as parts per million: `PROB_SCALE` stands for 1.
pub const PROB_SCALE: u32 = 1_000_000;

/// A quantized probability of the input (0 to 255, the probability being
/// `(q + 0.5) / 256`) in parts per million, rounded down.
pub open spec fn ml_prob(q: u8) -> u32 {
    ((q as int * 1_000_000 + 500_000) / 256) as u32
}

pub fn prob_from_ml(q: u8) -> (r: u32)
    ensures
        r == ml_prob(q),
        r < PROB_SCALE,
{
    ((q as u32) * 1_000_000 + 500_000) / 256
}

/// How to fold a modification code into the remaining ones before calling.
#[derive(Debug, Clone, Copy, PartialEq, Eq, Structural)]
pub enum CollapseMethod {
    /// Remove the code and share its probability equally among the codes
    /// that remain, canonical included.
    ReDistribute(ModCodeRepr),
}

impl CollapseMethod {
    pub fn get_codes_to_remove(&self) -> (r: Vec<ModCodeRepr>)
        ensures
            r@ == seq![self->ReDistribute_0],
    {
        match self {
            CollapseMethod::ReDistribute(code) => {
                let mut v = Vec::new();
                v.push(*code);
                v
            },
        }
    }
}

/// A decision for one base of one read.
#[derive(Debug, Clone, Copy, PartialEq, Eq, Structural)]
pub enum BaseModCall {
    /// Unmodified, with this probability.
    Canonical(u32),
    /// Modified by the code, with this probability.
    Modified(u32, ModCodeRepr),
    /// The winning probability was under the threshold.
    Filtered,
}

/// Why a set of probabilities was refused.
#[derive(Debug, Clone, Copy, PartialEq, Eq, Structural)]
pub enum ProbsError {
    /// The codes are not listed in strictly ascending order (`code_key`).
    UnsortedCodes,
    /// A code is listed twice.
    DuplicateCode,
    /// The probabilities add up to more than one.
    TotalAboveOne,
}

/// Sum of the probabilities of a list of entries.
pub open spec fn prob_sum(s: Seq<(ModCodeRepr, u32)>) -> int
    decreases s.len(),
{
    if s.len() == 0 {
        0
    } else {
        prob_sum(s.drop_last()) + s.last().1
    }
}

/// Some code is listed twice.
pub open spec fn has_duplicate_code(s: Seq<(ModCodeRepr, u32)>) -> bool {
    exists|a: int, b: int| 0 <= a < b < s.len() && s[a].0 == s[b].0
}

/// Codes strictly ascending.
pub open spec fn codes_sorted(s: Seq<(ModCodeRepr, u32)>) -> bool {
    forall|i: int, j: int| 0 <= i < j < s.len() ==> code_key(s[i].0) < code_key(s[j].0)
}

pub open spec fn probs_wf(s: Seq<(ModCodeRepr, u32)>) -> bool {
    codes_sorted(s) && prob_sum(s) <= PROB_SCALE
}

/// The probability of the canonical base: what the listed codes leave.
pub open spec fn canonical_prob(s: Seq<(ModCodeRepr, u32)>) -> int {
    PROB_SCALE - prob_sum(s)
}

/// Entry `i` wins: no entry is more probable, and no equally probable entry
/// comes before it.
pub open spec fn is_argmax_index(s: Seq<(ModCodeRepr, u32)>, i: int) -> bool {
    &&& 0 <= i < s.len()
    &&& forall|j: int| 0 <= j < s.len() ==> s[j].1 < s[i].1 || (s[j].1 == s[i].1 && i <= j)
}

/// The most probable state, the canonical one included; the canonical state
/// wins ties, and among codes the first in code order.
pub open spec fn argmax_call(s: Seq<(ModCodeRepr, u32)>) -> BaseModCall {
    if s.len() == 0 {
        BaseModCall::Canonical(PROB_SCALE)
    } else {
        let i = choose|i: int| is_argmax_index(s, i);
        if s[i].1 > canonical_prob(s) {
            BaseModCall::Modified(s[i].1, s[i].0)
        } else {
            BaseModCall::Canonical(canonical_prob(s) as u32)
        }
    }
}

/// The probability that a call carries (zero for `Filtered`).
pub open spec fn call_prob(c: BaseModCall) -> u32 {
    match c {
        BaseModCall::Canonical(p) => p,
        BaseModCall::Modified(p, _) => p,
        BaseModCall::Filtered => 0,
    }
}

/// The index of `code` in `s`, if it is there.
pub open spec fn code_index(s: Seq<(ModCodeRepr, u32)>, code: ModCodeRepr) -> Option<int> {
    if exists|i: int| 0 <= i < s.len() && s[i].0 == code {
        Some(choose|i: int| 0 <= i < s.len() && s[i].0 == code)
    } else {
        None
    }
}

/// The share of a removed code's probability that each remaining state
/// receives: the codes that remain and the canonical state.
pub open spec fn collapse_share(s: Seq<(ModCodeRepr, u32)>, i: int) -> int {
    (s[i].1 as int) / (s.len() as int)
}

/// `s` without `code`, its probability shared out equally; the canonical
/// state takes what the integer division leaves.
pub open spec fn collapsed(s: Seq<(ModCodeRepr, u32)>, code: ModCodeRepr) -> Seq<
    (ModCodeRepr, u32),
> {
    match code_index(s, code) {
        Some(i) => {
            let share = collapse_share(s, i);
            s.remove(i).map_values(|e: (ModCodeRepr, u32)| (e.0, (e.1 + share) as u32))
        },
        None => s,
    }
}

/// Modification probabilities of one base of one read. The canonical
/// probability is what the listed codes leave of one.
pub struct BaseModProbs {
    probs: Vec<(ModCodeRepr, u32)>,
    inferred: bool,
}

proof fn lemma_prob_sum_prefix(s: Seq<(ModCodeRepr, u32)>, i: int)
    requires
        0 <= i < s.len(),
    ensures
        prob_sum(s.subrange(0, i + 1)) == prob_sum(s.subrange(0, i)) + s[i].1,
{
    assert(s.subrange(0, i + 1).drop_last() =~= s.subrange(0, i));
}

proof fn lemma_prob_sum_nonneg(s: Seq<(ModCodeRepr, u32)>)
    ensures
        prob_sum(s) >= 0,
    decreases s.len(),
{
    if s.len() > 0 {
        lemma_prob_sum_nonneg(s.drop_last());
    }
}

proof fn lemma_prob_sum_remove(s: Seq<(ModCodeRepr, u32)>, i: int)
    requires
        0 <= i < s.len(),
    ensures
        prob_sum(s.remove(i)) == prob_sum(s) - s[i].1,
    decreases s.len(),
{
    if i == s.len() - 1 {
        assert(s.remove(i) =~= s.drop_last());
    } else {
        lemma_prob_sum_remove(s.drop_last(), i);
        assert(s.remove(i).drop_last() =~= s.drop_last().remove(i));
        assert(s.remove(i).last() == s.last());
    }
}

proof fn lemma_prob_sum_shift(s: Seq<(ModCodeRepr, u32)>, k: int)
    requires
        k >= 0,
        forall|j: int| 0 <= j < s.len() ==> s[j].1 + k <= u32::MAX,
    ensures
        prob_sum(s.map_values(|e: (ModCodeRepr, u32)| (e.0, (e.1 + k) as u32))) == prob_sum(s)
            + s.len() * k,
    decreases s.len(),
{
    let f = |e: (ModCodeRepr, u32)| (e.0, (e.1 + k) as u32);
    if s.len() > 0 {
        lemma_prob_sum_shift(s.drop_last(), k);
        assert(s.map_values(f).drop_last() =~= s.drop_last().map_values(f));
        assert(prob_sum(s.drop_last()) + (s.len() - 1) * k + k == prob_sum(s.drop_last()) + s.len()
            * k) by (nonlinear_arith);
    }
}

proof fn lemma_entry_le_sum(s: Seq<(ModCodeRepr, u32)>, i: int)
    requires
        0 <= i < s.len(),
    ensures
        s[i].1 <= prob_sum(s),
    decreases s.len(),
{
    lemma_prob_sum_nonneg(s.drop_last());
    if i < s.len() - 1 {
        lemma_entry_le_sum(s.drop_last(), i);
    }
}

impl BaseModProbs {
    pub closed spec fn view(&self) -> Seq<(ModCodeRepr, u32)> {
        self.probs@
    }

    /// Whether the probabilities were filled in rather than read.
    pub closed spec fn is_inferred(&self) -> bool {
        self.inferred
    }

    pub fn inferred(&self) -> (r: bool)
        ensures
            r == self.is_inferred(),
    {
        self.inferred
    }

    pub closed spec fn wf(&self) -> bool {
        probs_wf(self.probs@)
    }

    /// Well-formed probabilities are those whose codes ascend strictly and
    /// whose probabilities add up to at most one.
    pub proof fn lemma_wf(&self)
        ensures
            self.wf() == probs_wf(self.view()),
    {
    }

    /// No explicit call: the base is taken as canonical.
    pub fn new_empty(inferred: bool) -> (r: BaseModProbs)
        ensures
            r.wf(),
            r.view().len() == 0,
            r.is_inferred() == inferred,
    {
        BaseModProbs { probs: Vec::new(), inferred }
    }

    /// Probabilities from entries listed in ascending code order.
    pub fn from_entries(entries: Vec<(ModCodeRepr, u32)>, inferred: bool) -> (r: Result<
        BaseModProbs,
        ProbsError,
    >)
        ensures
            !codes_sorted(entries@) <==> r == Err::<BaseModProbs, ProbsError>(
                ProbsError::UnsortedCodes,
            ),
            codes_sorted(entries@) && prob_sum(entries@) > PROB_SCALE <==> r == Err::<
                BaseModProbs,
                ProbsError,
            >(ProbsError::TotalAboveOne),
            r is Ok ==> r->Ok_0.wf() && r->Ok_0.view() == entries@ && r->Ok_0.is_inferred()
                == inferred,
    {
        let mut i: usize = 0;
        let mut total: u32 = 0;
        while i < entries.len()
            invariant
                i <= entries.len(),
                total == prob_sum(entries@.subrange(0, i as int)),
                total <= PROB_SCALE,
                forall|a: int, b: int|
                    0 <= a < b < i ==> code_key(entries@[a].0) < code_key(entries@[b].0),
            decreases entries.len() - i,
        {
            proof {
                lemma_prob_sum_prefix(entries@, i as int);
            }
            if i > 0 && !entries[i - 1].0.precedes(&entries[i].0) {
                return Err(ProbsError::UnsortedCodes);
            }
            if entries[i].1 > PROB_SCALE - total {
                let mut j: usize = i + 1;
                while j < entries.len()
                    invariant
                        i < j <= entries.len(),
                        forall|a: int, b: int|
                            0 <= a < b < j ==> code_key(entries@[a].0) < code_key(
                                entries@[b].0,
                            ),
                    decreases entries.len() - j,
                {
                    if !entries[j - 1].0.precedes(&entries[j].0) {
                        return Err(ProbsError::UnsortedCodes);
                    }
                    j = j + 1;
                }
                proof {
                    assert(entries@.subrange(0, i as int + 1) + entries@.subrange(
                        i as int + 1,
                        entries.len() as int,
                    ) =~= entries@);
                    lemma_prob_sum_monotone(entries@, i as int + 1);
                }
                return Err(ProbsError::TotalAboveOne);
            }
            total = total + entries[i].1;
            i = i + 1;
        }
        assert(entries@.subrange(0, i as int) =~= entries@);
        Ok(BaseModProbs { probs: entries, inferred })
    }

    /// The listed codes with their probabilities, in code order.
    pub fn entries(&self) -> (r: Vec<(ModCodeRepr, u32)>)
        ensures
            r@ == self.view(),
    {
        let mut out: Vec<(ModCodeRepr, u32)> = Vec::new();
        let mut i: usize = 0;
        while i < self.probs.len()
            invariant
                i <= self.probs@.len(),
                out@ == self.probs@.subrange(0, i as int),
            decreases self.probs.len() - i,
        {
            out.push(self.probs[i]);
            assert(out@ =~= self.probs@.subrange(0, i as int + 1));
            i = i + 1;
        }
        assert(out@ =~= self.probs@);
        out
    }

    /// Probabilities from entries in any order: they are kept in code order.
    pub fn from_unordered(entries: &Vec<(ModCodeRepr, u32)>, inferred: bool) -> (r: Result<
        BaseModProbs,
        ProbsError,
    >)
        ensures
            r is Err <==> has_duplicate_code(entries@) || prob_sum(entries@) > PROB_SCALE,
            r matches Err(e) ==> (e == ProbsError::DuplicateCode && has_duplicate_code(entries@)) || (
            e == ProbsError::TotalAboveOne && prob_sum(entries@) > PROB_SCALE),
            r matches Ok(p) ==> p.wf() && p.view().to_multiset() == entries@.to_multiset()
                && p.is_inferred() == inferred,
    {
        let mut out: Vec<(ModCodeRepr, u32)> = Vec::new();
        let mut total: u32 = 0;
        let mut i: usize = 0;
        assert(entries@.subrange(0, 0) =~= Seq::<(ModCodeRepr, u32)>::empty());
        while i < entries.len()
            invariant
                i <= entries@.len(),
                codes_sorted(out@),
                out@.to_multiset() == entries@.subrange(0, i as int).to_multiset(),
                total == prob_sum(out@),
                prob_sum(out@) == prob_sum(entries@.subrange(0, i as int)),
                total <= PROB_SCALE,
                !has_duplicate_code(entries@.subrange(0, i as int)),
            decreases entries.len() - i,
        {
            let e = entries[i];
            let ghost prefix = entries@.subrange(0, i as int);
            assert(entries@.subrange(0, i as int + 1) =~= prefix.push(e));
            let mut k: usize = 0;
            while k < out.len() && out[k].0.precedes(&e.0)
                invariant
                    k <= out@.len(),
                    forall|a: int| 0 <= a < k ==> code_key(out@[a].0) < code_key(e.0),
                decreases out.len() - k,
            {
                k = k + 1;
            }
            if k < out.len() && out[k].0 == e.0 {
                proof {
                    assert(out@.contains(out@[k as int]));
                    assert(out@.to_multiset().count(out@[k as int]) > 0);
                    assert(prefix.to_multiset().count(out@[k as int]) > 0);
                    assert(prefix.contains(out@[k as int]));
                    let j = choose|j: int| 0 <= j < prefix.len() && prefix[j] == out@[k as int];
                    assert(entries@[j].0 == entries@[i as int].0);
                    assert(has_duplicate_code(entries@));
                }
                return Err(ProbsError::DuplicateCode);
            }
            proof {
                lemma_prob_sum_prefix(entries@, i as int);
                assert(entries@.subrange(0, i as int + 1).drop_last() =~= prefix);
                assert forall|j: int| 0 <= j < prefix.len() implies prefix[j].0 != e.0 by {
                    assert(prefix.contains(prefix[j]));
                    assert(prefix.to_multiset().count(prefix[j]) > 0);
                    assert(out@.to_multiset().count(prefix[j]) > 0);
                    assert(out@.contains(prefix[j]));
                    let m = choose|m: int| 0 <= m < out@.len() && out@[m] == prefix[j];
                    if prefix[j].0 == e.0 {
                        if m < k {
                        } else {
                            assert(k < out@.len());
                            if m > k {
                                assert(code_key(out@[k as int].0) < code_key(out@[m].0));
                            }
                            assert(code_key(out@[k as int].0) >= code_key(e.0));
                            crate::mod_base_code::lemma_code_key_injective(out@[k as int].0, e.0);
                        }
                    }
                }
            }
            if e.1 > PROB_SCALE - total {
                proof {
                    lemma_prob_sum_monotone(entries@, i as int + 1);
                }
                return Err(ProbsError::TotalAboveOne);
            }
            let ghost before = out@;
            out.insert(k, e);
            proof {
                assert(out@ == before.insert(k as int, e));
                assert(out@.remove(k as int) =~= before);
                lemma_prob_sum_remove(out@, k as int);
                assert forall|a: int, b: int| 0 <= a < b < out@.len() implies code_key(out@[a].0)
                    < code_key(out@[b].0) by {
                    if b < k {
                        assert(out@[a] == before[a] && out@[b] == before[b]);
                    } else if b == k {
                        assert(out@[a] == before[a]);
                    } else if a < k {
                        assert(out@[a] == before[a] && out@[b] == before[b - 1]);
                        assert(code_key(before[k as int].0) >= code_key(e.0));
                        if b - 1 > k {
                            assert(code_key(before[k as int].0) < code_key(before[b - 1].0));
                        }
                        assert(code_key(before[k as int].0) != code_key(e.0)) by {
                            if code_key(before[k as int].0) == code_key(e.0) {
                                crate::mod_base_code::lemma_code_key_injective(before[k as int].0, e.0);
                            }
                        }
                    } else if a == k {
                        assert(out@[b] == before[b - 1]);
                        assert(code_key(before[k as int].0) >= code_key(e.0));
                        if b - 1 > k {
                            assert(code_key(before[k as int].0) < code_key(before[b - 1].0));
                        }
                        assert(code_key(before[k as int].0) != code_key(e.0)) by {
                            if code_key(before[k as int].0) == code_key(e.0) {
                                crate::mod_base_code::lemma_code_key_injective(before[k as int].0, e.0);
                            }
                        }
                    } else {
                        assert(out@[a] == before[a - 1] && out@[b] == before[b - 1]);
                    }
                }
                assert(!has_duplicate_code(entries@.subrange(0, i as int + 1))) by {
                    let s1 = entries@.subrange(0, i as int + 1);
                    if has_duplicate_code(s1) {
                        let (a, b) = choose|a: int, b: int| 0 <= a < b < s1.len() && s1[a].0 == s1[b].0;
                        if b < i {
                            assert(prefix[a] == s1[a] && prefix[b] == s1[b]);
                        } else {
                            assert(prefix[a] == s1[a]);
                        }
                    }
                }
            }
            total = total + e.1;
            i = i + 1;
        }
        assert(entries@.subrange(0, i as int) =~= entries@);
        Ok(BaseModProbs { probs: out, inferred })
    }

    pub fn is_empty(&self) -> (r: bool)
        ensures
            r == (self.view().len() == 0),
    {
        self.probs.len() == 0
    }

    /// The probability of the canonical base.
    pub fn canonical_prob(&self) -> (r: u32)
        requires
            self.wf(),
        ensures
            r == canonical_prob(self.view()),
    {
        let mut i: usize = 0;
        let mut total: u32 = 0;
        while i < self.probs.len()
            invariant
                self.wf(),
                i <= self.probs.len(),
                total == prob_sum(self.probs@.subrange(0, i as int)),
            decreases self.probs.len() - i,
        {
            proof {
                lemma_prob_sum_prefix(self.probs@, i as int);
                lemma_prob_sum_monotone(self.probs@, i as int + 1);
            }
            total = total + self.probs[i].1;
            i = i + 1;
        }
        assert(self.probs@.subrange(0, i as int) =~= self.probs@);
        PROB_SCALE - total
    }

    /// The most probable state, never `Filtered`.
    pub fn argmax_base_mod_call(&self) -> (r: BaseModCall)
        requires
            self.wf(),
        ensures
            r == argmax_call(self.view()),
            !(r is Filtered),
    {
        let canonical = self.canonical_prob();
        if self.probs.len() == 0 {
            return BaseModCall::Canonical(PROB_SCALE);
        }
        let s = Ghost(self.probs@);
        let mut best: usize = 0;
        let mut i: usize = 1;
        while i < self.probs.len()
            invariant
                s@ == self.probs@,
                1 <= i <= self.probs.len(),
                best < i,
                forall|j: int|
                    0 <= j < i ==> s@[j].1 < s@[best as int].1 || (s@[j].1 == s@[best as int].1
                        && best <= j),
            decreases self.probs.len() - i,
        {
            if self.probs[i].1 > self.probs[best].1 {
                best = i;
            }
            i = i + 1;
        }
        proof {
            assert(is_argmax_index(s@, best as int));
            let c = choose|k: int| is_argmax_index(s@, k);
            assert(c == best as int);
        }
        if self.probs[best].1 > canonical {
            BaseModCall::Modified(self.probs[best].1, self.probs[best].0)
        } else {
            BaseModCall::Canonical(canonical)
        }
    }

    /// A collapsed copy, as `into_collapsed` gives it.
    pub fn to_collapsed(&self, method: &CollapseMethod) -> (r: BaseModProbs)
        requires
            self.wf(),
        ensures
            r.wf(),
            r.view() == collapsed(self.view(), method->ReDistribute_0),
            r.is_inferred() == self.is_inferred(),
    {
        let probs = self.entries();
        let copy = BaseModProbs { probs, inferred: self.inferred };
        copy.into_collapsed(method)
    }

    /// Remove the collapsed code, sharing its probability equally among the
    /// codes that remain and the canonical state.
    pub fn into_collapsed(self, method: &CollapseMethod) -> (r: BaseModProbs)
        requires
            self.wf(),
        ensures
            r.wf(),
            r.view() == collapsed(self.view(), method->ReDistribute_0),
            r.is_inferred() == self.is_inferred(),
    {
        let code = match method {
            CollapseMethod::ReDistribute(c) => *c,
        };
        let ghost s = self.probs@;
        let mut i: usize = 0;
        while i < self.probs.len() && self.probs[i].0 != code
            invariant
                s == self.probs@,
                i <= self.probs.len(),
                forall|j: int| 0 <= j < i ==> s[j].0 != code,
            decreases self.probs.len() - i,
        {
            i = i + 1;
        }
        if i == self.probs.len() {
            assert(code_index(s, code) is None);
            return self;
        }
        proof {
            assert(s[i as int].0 == code);
            let k = choose|k: int| 0 <= k < s.len() && s[k].0 == code;
            if k < i {
                assert(code_key(s[k].0) < code_key(s[i as int].0));
            } else if k > i {
                assert(code_key(s[i as int].0) < code_key(s[k].0));
            }
            assert(code_index(s, code) == Some(i as int));
        }
        let removed = self.probs[i].1;
        let share = ((removed as usize) / self.probs.len()) as u32;
        assert(share <= removed);
        let ghost rest = s.remove(i as int);
        proof {
            lemma_prob_sum_remove(s, i as int);
            lemma_entry_le_sum(s, i as int);
            assert forall|j: int| 0 <= j < rest.len() implies rest[j].1 + share <= PROB_SCALE by {
                lemma_entry_le_sum(rest, j);
                lemma_prob_sum_nonneg(rest);
                assert(share <= removed);
            }
        }
        let mut out: Vec<(ModCodeRepr, u32)> = Vec::new();
        let mut j: usize = 0;
        while j < self.probs.len()
            invariant
                s == self.probs@,
                i < self.probs.len(),
                j <= self.probs.len(),
                share <= removed,
                removed == s[i as int].1,
                rest == s.remove(i as int),
                forall|k: int| 0 <= k < rest.len() ==> rest[k].1 + share <= PROB_SCALE,
                out@.len() == (if j <= i {
                    j as int
                } else {
                    j - 1
                }),
                forall|k: int|
                    0 <= k < out@.len() ==> out@[k] == (rest[k].0, (rest[k].1 + share) as u32),
            decreases self.probs.len() - j,
        {
            if j != i {
                let e = self.probs[j];
                assert(e == rest[out@.len() as int]);
                out.push((e.0, e.1 + share));
            }
            j = j + 1;
        }
        assert(out@ =~= rest.map_values(|e: (ModCodeRepr, u32)| (e.0, (e.1 + share) as u32)));
        proof {
            lemma_collapse_preserves_total(s, code);
        }
        BaseModProbs { probs: out, inferred: self.inferred }
    }
}

/// Collapsing a code leaves well-formed probabilities (so listed codes plus
/// canonical state still make one) without that code: each code that remains
/// gains the same share of the removed probability, `p / (k + 1)` rounded
/// down for `k` remaining codes, and the canonical state gains the rest of it,
/// so the listed total drops by exactly what the canonical state gains.
pub proof fn lemma_collapse_preserves_total(s: Seq<(ModCodeRepr, u32)>, code: ModCodeRepr)
    requires
        probs_wf(s),
    ensures
        probs_wf(collapsed(s, code)),
        forall|j: int| 0 <= j < collapsed(s, code).len() ==> #[trigger] collapsed(s, code)[j].0 != code,
        code_index(s, code) matches Some(i) ==> {
            &&& collapsed(s, code).len() == s.len() - 1
            &&& prob_sum(collapsed(s, code)) == prob_sum(s) - s[i].1 + (s.len() - 1) * collapse_share(
                s,
                i,
            )
            &&& s[i].1 - (s.len() - 1) * collapse_share(s, i) >= 0
            &&& forall|j: int|
                0 <= j < collapsed(s, code).len() ==> #[trigger] collapsed(s, code)[j].1 == s.remove(i)[j].1
                    + collapse_share(s, i)
            &&& canonical_prob(collapsed(s, code)) == canonical_prob(s) + s[i].1 - (s.len() - 1)
                * collapse_share(s, i)
        },
        code_index(s, code) is None ==> collapsed(s, code) == s,
{
    match code_index(s, code) {
        Some(i) => {
            let rest = s.remove(i);
            let share = collapse_share(s, i);
            let r = collapsed(s, code);
            assert(0 <= i < s.len() && s[i].0 == code);
            lemma_prob_sum_remove(s, i);
            lemma_entry_le_sum(s, i);
            lemma_prob_sum_nonneg(rest);
            assert(rest.len() + 1 == s.len());
            assert(0 <= share <= s[i].1) by (nonlinear_arith)
                requires
                    share == (s[i].1 as int) / (s.len() as int),
                    s.len() >= 1,
                    s[i].1 >= 0,
            ;
            assert(rest.len() * share <= s[i].1) by (nonlinear_arith)
                requires
                    share == (s[i].1 as int) / (rest.len() + 1) as int,
                    rest.len() >= 0,
                    s[i].1 >= 0,
            ;
            assert forall|j: int| 0 <= j < rest.len() implies rest[j].1 + share <= u32::MAX by {
                lemma_entry_le_sum(rest, j);
            }
            lemma_prob_sum_shift(rest, share);
            assert forall|a: int, b: int| 0 <= a < b < r.len() implies code_key(r[a].0) < code_key(
                r[b].0,
            ) by {
                let a0 = if a < i {
                    a
                } else {
                    a + 1
                };
                let b0 = if b < i {
                    b
                } else {
                    b + 1
                };
                assert(rest[a] == s[a0]);
                assert(rest[b] == s[b0]);
            }
            assert forall|j: int| 0 <= j < r.len() implies #[trigger] r[j].0 != code by {
                let j0 = if j < i {
                    j
                } else {
                    j + 1
                };
                assert(rest[j] == s[j0]);
                if j0 < i {
                    assert(code_key(s[j0].0) < code_key(s[i].0));
                } else {
                    assert(code_key(s[i].0) < code_key(s[j0].0));
                }
            }
        },
        None => {},
    }
}

proof fn lemma_prob_sum_monotone(s: Seq<(ModCodeRepr, u32)>, n: int)
    requires
        0 <= n <= s.len(),
    ensures
        prob_sum(s.subrange(0, n)) <= prob_sum(s),
    decreases s.len() - n,
{
    if n < s.len() {
        lemma_prob_sum_monotone(s, n + 1);
        lemma_prob_sum_prefix(s, n);
    } else {
        assert(s.subrange(0, n) =~= s);
    }
}

} // verus!
