use vstd::prelude::*;
use crate::mod_bam::{collapsed, BaseModCall, BaseModProbs, CollapseMethod};
use crate::mod_base_code::{DnaBase, ModCodeRepr};
use crate::threshold_mod_caller::MultipleThresholdModCaller;

verus! {

/// The decoded calls of one alignment record: each reference position with
/// the read's base there (on the reference's forward strand) and the
/// modification probabilities of that base.
pub struct CachedRead {
    pub record_id: u64,
    pub end: u64,
    pub calls: Vec<(u64, DnaBase, BaseModProbs)>,
    pub mod_codes: Vec<ModCodeRepr>,
    /// The calls' positions ascend strictly, so a call is found by halving.
    pub by_position: bool,
}

/// Positions strictly ascending.
pub open spec fn positions_ascend(calls: Seq<(u64, DnaBase, BaseModProbs)>) -> bool {
    forall|a: int, b: int| 0 <= a < b < calls.len() ==> calls[a].0 < calls[b].0
}

/// The index of the call at `pos`, found by halving.
fn find_position(calls: &Vec<(u64, DnaBase, BaseModProbs)>, pos: u64) -> (r: Option<usize>)
    requires
        positions_ascend(calls@),
    ensures
        r matches Some(j) ==> j < calls@.len() && calls@[j as int].0 == pos && forall|a: int|
            0 <= a < calls@.len() && a != j ==> calls@[a].0 != pos,
        r is None ==> forall|a: int| 0 <= a < calls@.len() ==> calls@[a].0 != pos,
{
    let mut lo: usize = 0;
    let mut hi: usize = calls.len();
    while lo < hi
        invariant
            positions_ascend(calls@),
            lo <= hi <= calls@.len(),
            forall|a: int| 0 <= a < lo ==> calls@[a].0 < pos,
            forall|a: int| hi <= a < calls@.len() ==> calls@[a].0 > pos,
        decreases hi - lo,
    {
        let mid = lo + (hi - lo) / 2;
        if calls[mid].0 < pos {
            lo = mid + 1;
        } else if calls[mid].0 > pos {
            hi = mid;
        } else {
            return Some(mid);
        }
    }
    None
}

fn call_at_sorted(calls: &Vec<(u64, DnaBase, BaseModProbs)>, pos: u64, base: DnaBase) -> (r: Option<
    usize,
>)
    requires
        positions_ascend(calls@),
    ensures
        r matches Some(j) ==> j < calls@.len() && call_index(calls@, pos, base) == Some(j as int),
        r is None ==> call_index(calls@, pos, base) is None,
{
    match find_position(calls, pos) {
        Some(j) => {
            if calls[j].1 == base {
                proof {
                    assert(calls@[j as int].0 == pos && calls@[j as int].1 == base);
                    let c = choose|c: int|
                        0 <= c < calls@.len() && calls@[c].0 == pos && calls@[c].1 == base
                            && forall|a: int| 0 <= a < c ==> !(calls@[a].0 == pos && calls@[a].1 == base);
                    assert(calls@[c].0 == pos);
                    assert(c == j);
                }
                Some(j)
            } else {
                None
            }
        },
        None => None,
    }
}

fn call_at_linear(calls: &Vec<(u64, DnaBase, BaseModProbs)>, pos: u64, base: DnaBase) -> (r: Option<
    usize,
>)
    ensures
        r matches Some(j) ==> j < calls@.len() && call_index(calls@, pos, base) == Some(j as int),
        r is None ==> call_index(calls@, pos, base) is None,
{
    let mut j: usize = 0;
    while j < calls.len() && !(calls[j].0 == pos && calls[j].1 == base)
        invariant
            j <= calls@.len(),
            forall|a: int| 0 <= a < j ==> !(calls@[a].0 == pos && calls@[a].1 == base),
        decreases calls.len() - j,
    {
        j = j + 1;
    }
    if j == calls.len() {
        return None;
    }
    proof {
        let c = choose|c: int|
            0 <= c < calls@.len() && calls@[c].0 == pos && calls@[c].1 == base && forall|a: int|
                0 <= a < c ==> !(calls@[a].0 == pos && calls@[a].1 == base);
        if c > j {
            assert(!(calls@[j as int].0 == pos && calls@[j as int].1 == base));
        }
        assert(c == j);
    }
    Some(j)
}

/// The index of the first call at `pos` on `base`; found by halving where
/// the positions ascend.
fn call_at(calls: &Vec<(u64, DnaBase, BaseModProbs)>, pos: u64, base: DnaBase, by_position: bool) -> (r:
    Option<usize>)
    requires
        by_position ==> positions_ascend(calls@),
    ensures
        r matches Some(j) ==> j < calls@.len() && call_index(calls@, pos, base) == Some(j as int),
        r is None ==> call_index(calls@, pos, base) is None,
{
    if by_position {
        call_at_sorted(calls, pos, base)
    } else {
        call_at_linear(calls, pos, base)
    }
}

fn ascends(calls: &Vec<(u64, DnaBase, BaseModProbs)>) -> (r: bool)
    ensures
        r == positions_ascend(calls@),
{
    let mut i: usize = 1;
    if calls.len() == 0 {
        return true;
    }
    while i < calls.len()
        invariant
            1 <= i <= calls@.len(),
            forall|a: int, b: int| 0 <= a < b < i ==> calls@[a].0 < calls@[b].0,
        decreases calls.len() - i,
    {
        if calls[i - 1].0 >= calls[i].0 {
            return false;
        }
        i = i + 1;
    }
    true
}

/// The index of the first call at `pos` on `base`.
pub open spec fn call_index(calls: Seq<(u64, DnaBase, BaseModProbs)>, pos: u64, base: DnaBase) -> Option<int> {
    if exists|j: int| 0 <= j < calls.len() && calls[j].0 == pos && calls[j].1 == base {
        Some(
            choose|j: int|
                0 <= j < calls.len() && calls[j].0 == pos && calls[j].1 == base && forall|k: int|
                    0 <= k < j ==> !(calls[k].0 == pos && calls[k].1 == base),
        )
    } else {
        None
    }
}

/// The index of the read with this record id.
pub open spec fn read_index(reads: Seq<CachedRead>, id: u64) -> Option<int> {
    if exists|k: int| 0 <= k < reads.len() && reads[k].record_id == id {
        Some(choose|k: int| 0 <= k < reads.len() && reads[k].record_id == id)
    } else {
        None
    }
}

/// The codes that the record carries; none for a record not held.
pub open spec fn record_codes(reads: Seq<CachedRead>, id: u64) -> Seq<ModCodeRepr> {
    match read_index(reads, id) {
        Some(k) => reads[k].mod_codes@,
        None => Seq::empty(),
    }
}

/// The call of a held record at a position on a base, if it holds one.
pub open spec fn cached_call(
    reads: Seq<CachedRead>,
    id: u64,
    pos: u64,
    base: DnaBase,
    caller: MultipleThresholdModCaller,
) -> Option<BaseModCall> {
    match read_index(reads, id) {
        Some(k) => match call_index(reads[k].calls@, pos, base) {
            Some(j) => Some(caller.call_spec(base, reads[k].calls@[j].2.view())),
            None => None,
        },
        None => None,
    }
}

pub open spec fn calls_wf(calls: Seq<(u64, DnaBase, BaseModProbs)>) -> bool {
    forall|j: int| 0 <= j < calls.len() ==> (#[trigger] calls[j]).2.wf()
}

/// Decoded reads of the window being piled up, each decoded once and
/// dropped once the traversal has passed its end.
pub struct ReadCache {
    reads: Vec<CachedRead>,
    collapse_method: Option<CollapseMethod>,
}

impl ReadCache {
    pub closed spec fn view(&self) -> Seq<CachedRead> {
        self.reads@
    }

    pub closed spec fn method(&self) -> Option<CollapseMethod> {
        self.collapse_method
    }

    pub closed spec fn wf(&self) -> bool {
        &&& forall|a: int, b: int|
            0 <= a < b < self.reads@.len() ==> self.reads@[a].record_id != self.reads@[b].record_id
        &&& forall|k: int| 0 <= k < self.reads@.len() ==> calls_wf(#[trigger] self.reads@[k].calls@)
        &&& forall|k: int|
            0 <= k < self.reads@.len() && (#[trigger] self.reads@[k]).by_position ==> positions_ascend(
                self.reads@[k].calls@,
            )
    }

    pub fn new(collapse_method: Option<CollapseMethod>) -> (r: ReadCache)
        ensures
            r.wf(),
            r.view().len() == 0,
            r.method() == collapse_method,
    {
        ReadCache { reads: Vec::new(), collapse_method }
    }

    fn find(&self, record_id: u64) -> (r: Option<usize>)
        requires
            self.wf(),
        ensures
            r matches Some(k) ==> read_index(self.view(), record_id) == Some(k as int) && k
                < self.view().len(),
            r is None ==> read_index(self.view(), record_id) is None,
    {
        let mut k: usize = 0;
        while k < self.reads.len() && self.reads[k].record_id != record_id
            invariant
                k <= self.reads@.len(),
                forall|a: int| 0 <= a < k ==> self.reads@[a].record_id != record_id,
            decreases self.reads.len() - k,
        {
            k = k + 1;
        }
        if k == self.reads.len() {
            None
        } else {
            proof {
                let c = choose|c: int| 0 <= c < self.reads@.len() && self.reads@[c].record_id == record_id;
                assert(c == k);
            }
            Some(k)
        }
    }

    /// Whether the record was decoded already.
    pub fn contains_record(&self, record_id: u64) -> (r: bool)
        requires
            self.wf(),
        ensures
            r == (read_index(self.view(), record_id) is Some),
    {
        self.find(record_id).is_some()
    }

    /// Hold the decoded calls of a record that is not held yet, collapsed as
    /// the cache's method says. A record already held is left as it is.
    pub fn add_record(
        &mut self,
        record_id: u64,
        end: u64,
        calls: Vec<(u64, DnaBase, BaseModProbs)>,
        mod_codes: Vec<ModCodeRepr>,
    )
        requires
            old(self).wf(),
            calls_wf(calls@),
        ensures
            final(self).wf(),
            final(self).method() == old(self).method(),
            read_index(old(self).view(), record_id) is Some ==> final(self).view() == old(self).view(),
            read_index(old(self).view(), record_id) is None ==> {
                &&& final(self).view().len() == old(self).view().len() + 1
                &&& final(self).view().drop_last() == old(self).view()
                &&& final(self).view().last().record_id == record_id
                &&& final(self).view().last().end == end
                &&& final(self).view().last().mod_codes@ == mod_codes@
                &&& final(self).view().last().calls@.len() == calls@.len()
                &&& forall|j: int|
                    0 <= j < calls@.len() ==> {
                        let c = #[trigger] final(self).view().last().calls@[j];
                        &&& c.0 == calls@[j].0
                        &&& c.1 == calls@[j].1
                        &&& c.2.view() == match old(self).method() {
                            Some(m) => collapsed(calls@[j].2.view(), m->ReDistribute_0),
                            None => calls@[j].2.view(),
                        }
                    }
            },
    {
        if self.find(record_id).is_some() {
            return;
        }
        let stored = match self.collapse_method {
            None => calls,
            Some(method) => {
                let mut out: Vec<(u64, DnaBase, BaseModProbs)> = Vec::new();
                let mut j: usize = 0;
                while j < calls.len()
                    invariant
                        calls_wf(calls@),
                        j <= calls@.len(),
                        out@.len() == j,
                        forall|a: int|
                            0 <= a < j ==> {
                                let c = #[trigger] out@[a];
                                &&& c.0 == calls@[a].0
                                &&& c.1 == calls@[a].1
                                &&& c.2.wf()
                                &&& c.2.view() == collapsed(calls@[a].2.view(), method->ReDistribute_0)
                            },
                    decreases calls.len() - j,
                {
                    assert(calls@[j as int].2.wf());
                    let probs = calls[j].2.to_collapsed(&method);
                    out.push((calls[j].0, calls[j].1, probs));
                    j = j + 1;
                }
                out
            },
        };
        let ghost before = self.reads@;
        let by_position = ascends(&stored);
        self.reads.push(CachedRead { record_id, end, calls: stored, mod_codes, by_position });
        proof {
            assert(self.reads@.drop_last() =~= before);
            assert forall|a: int, b: int| 0 <= a < b < self.reads@.len() implies self.reads@[a].record_id
                != self.reads@[b].record_id by {
                if b == self.reads@.len() - 1 {
                    assert(self.reads@[a] == before[a]);
                }
            }
            assert forall|k: int| 0 <= k < self.reads@.len() implies calls_wf(
                #[trigger] self.reads@[k].calls@,
            ) by {
                if k < before.len() {
                    assert(self.reads@[k] == before[k]);
                }
            }
            assert forall|k: int|
                0 <= k < self.reads@.len() && (#[trigger] self.reads@[k]).by_position implies positions_ascend(
                self.reads@[k].calls@,
            ) by {
                if k < before.len() {
                    assert(self.reads@[k] == before[k]);
                }
            }
        }
    }

    /// The modification codes that the record carries; none for a record
    /// not held.
    pub fn get_mod_codes_for_record(&self, record_id: u64) -> (r: Vec<ModCodeRepr>)
        requires
            self.wf(),
        ensures
            r@ == record_codes(self.view(), record_id),
    {
        match self.find(record_id) {
            Some(k) => {
                let mut out: Vec<ModCodeRepr> = Vec::new();
                let codes = &self.reads[k].mod_codes;
                let mut i: usize = 0;
                while i < codes.len()
                    invariant
                        i <= codes@.len(),
                        out@ == codes@.subrange(0, i as int),
                    decreases codes.len() - i,
                {
                    out.push(codes[i]);
                    assert(out@ =~= codes@.subrange(0, i as int + 1));
                    i = i + 1;
                }
                assert(out@ =~= codes@);
                out
            },
            None => Vec::new(),
        }
    }

    /// The call of the record at a reference position on the read's base:
    /// `None` where the record holds no probabilities for it.
    pub fn get_mod_call(
        &self,
        record_id: u64,
        ref_position: u64,
        read_base: DnaBase,
        caller: &MultipleThresholdModCaller,
    ) -> (r: Option<BaseModCall>)
        requires
            self.wf(),
        ensures
            r == cached_call(self.view(), record_id, ref_position, read_base, *caller),
    {
        let k = match self.find(record_id) {
            Some(k) => k,
            None => return None,
        };
        let calls = &self.reads[k].calls;
        assert(calls_wf(calls@));
        match call_at(calls, ref_position, read_base, self.reads[k].by_position) {
            Some(j) => {
                assert(calls@[j as int].2.wf());
                Some(caller.call(read_base, &calls[j].2))
            },
            None => None,
        }
    }

    /// Drop the records whose alignment ends at or before `position`.
    pub fn evict_ended(&mut self, position: u64)
        requires
            old(self).wf(),
        ensures
            final(self).wf(),
            final(self).method() == old(self).method(),
            forall|k: int|
                0 <= k < final(self).view().len() ==> #[trigger] final(self).view()[k].end > position,
            forall|k: int|
                0 <= k < old(self).view().len() && #[trigger] old(self).view()[k].end > position
                    ==> final(self).view().contains(old(self).view()[k]),
            forall|k: int|
                0 <= k < final(self).view().len() ==> old(self).view().contains(
                    #[trigger] final(self).view()[k],
                ),
    {
        let ghost orig = self.reads@;
        let mut kept: Vec<CachedRead> = Vec::new();
        let mut reads = Vec::new();
        std::mem::swap(&mut reads, &mut self.reads);
        assert(reads@ == orig);
        let mut from: Ghost<Seq<int>> = Ghost(Seq::empty());
        while reads.len() > 0
            invariant
                reads@ == orig.subrange(0, reads@.len() as int),
                reads@.len() <= orig.len(),
                forall|a: int, b: int|
                    0 <= a < b < orig.len() ==> orig[a].record_id != orig[b].record_id,
                forall|k: int| 0 <= k < orig.len() ==> calls_wf(#[trigger] orig[k].calls@),
                from@.len() == kept@.len(),
                forall|a: int|
                    0 <= a < from@.len() ==> reads@.len() <= #[trigger] from@[a] < orig.len()
                        && kept@[a] == orig[from@[a]],
                forall|a: int, b: int| 0 <= a < b < from@.len() ==> from@[a] > from@[b],
                forall|k: int| 0 <= k < kept@.len() ==> #[trigger] kept@[k].end > position,
                forall|k: int|
                    reads@.len() <= k < orig.len() && #[trigger] orig[k].end > position
                        ==> kept@.contains(orig[k]),
            decreases reads.len(),
        {
            let ghost at = reads@.len() - 1;
            let ghost kept_before = kept@;
            let r = reads.pop().unwrap();
            assert(r == orig[at]);
            assert(reads@ =~= orig.subrange(0, at));
            if r.end > position {
                kept.push(r);
                proof {
                    from@ = from@.push(at);
                    assert forall|k: int|
                        at <= k < orig.len() && #[trigger] orig[k].end > position implies kept@.contains(
                            orig[k],
                        ) by {
                        if k > at {
                            let i = choose|i: int| 0 <= i < kept_before.len() && kept_before[i] == orig[k];
                            assert(kept@[i] == orig[k]);
                        } else {
                            assert(kept@[kept@.len() - 1] == orig[k]);
                        }
                    }
                }
            }
        }
        proof {
            assert forall|a: int, b: int| 0 <= a < b < kept@.len() implies kept@[a].record_id
                != kept@[b].record_id by {
                assert(from@[a] > from@[b]);
            }
            assert forall|k: int| 0 <= k < kept@.len() implies calls_wf(#[trigger] kept@[k].calls@) by {
                assert(kept@[k] == orig[from@[k]]);
            }
            assert forall|k: int| 0 <= k < kept@.len() implies orig.contains(#[trigger] kept@[k]) by {
                assert(kept@[k] == orig[from@[k]]);
            }
        }
        self.reads = kept;
    }
}

} // verus!
