use vstd::prelude::*;
use crate::mod_bam::{BaseModCall, CollapseMethod};
use crate::mod_base_code::{base_complement, canonical_code_of, mod_code_of_repr, DnaBase, ModCode};
use crate::mod_base_code::{base_of_char, ModCodeRepr};
use crate::read_cache::{cached_call, record_codes, ReadCache};
use crate::threshold_mod_caller::MultipleThresholdModCaller;
use crate::util::{flags_secondary, Strand};

verus! {

/// One observation of one alignment at one reference position.
#[derive(Debug, Copy, Clone, PartialEq, Eq, Structural)]
pub enum Feature {
    Delete,
    Filtered,
    NoCall(DnaBase),
    ModCall(ModCode),
}

/// One output row: the counts behind one modification code on one strand.
#[derive(Debug, Copy, Clone, PartialEq, Eq, Structural)]
pub struct PileupFeatureCounts {
    pub strand: Strand,
    pub filtered_coverage: u32,
    pub raw_mod_code: char,
    pub n_canonical: u32,
    pub n_modified: u32,
    pub n_other_modified: u32,
    pub n_delete: u32,
    pub n_filtered: u32,
    pub n_diff: u32,
    pub n_nocall: u32,
}

/// How the codes of one base family are reported.
#[derive(Debug, Copy, Clone, PartialEq, Eq, Structural)]
pub enum PileupNumericOptions {
    Passthrough,
    Combine,
    Collapse(CollapseMethod),
}

impl PileupNumericOptions {
    pub fn get_collapse_method(&self) -> (r: Option<CollapseMethod>)
        ensures
            r == (match *self {
                PileupNumericOptions::Collapse(m) => Some(m),
                _ => None,
            }),
    {
        match self {
            PileupNumericOptions::Collapse(method) => Some(*method),
            _ => None,
        }
    }
}

/// Number of counters per strand.
pub const STRAND_SLOTS: usize = 11;

/// The first counter of a strand.
pub open spec fn strand_offset(s: Strand) -> int {
    match s {
        Strand::Positive => 0,
        Strand::Negative => 11,
    }
}

/// The counter that a feature on a strand increments, within the strand:
/// 0 deletions, 1 filtered calls, 2..5 no-calls on A, C, G, T, 6 and 7
/// canonical calls on A and C, 8 `a`, 9 `h`, 10 `m`. Canonical calls on G
/// and T are not counted.
pub open spec fn feature_slot(f: Feature) -> Option<int> {
    match f {
        Feature::Delete => Some(0),
        Feature::Filtered => Some(1),
        Feature::NoCall(DnaBase::A) => Some(2),
        Feature::NoCall(DnaBase::C) => Some(3),
        Feature::NoCall(DnaBase::G) => Some(4),
        Feature::NoCall(DnaBase::T) => Some(5),
        Feature::ModCall(ModCode::A) => Some(6),
        Feature::ModCall(ModCode::C) => Some(7),
        Feature::ModCall(ModCode::a) => Some(8),
        Feature::ModCall(ModCode::h) => Some(9),
        Feature::ModCall(ModCode::m) => Some(10),
        Feature::ModCall(ModCode::G) => None,
        Feature::ModCall(ModCode::T) => None,
    }
}

/// `x` capped at the largest `u32`.
pub open spec fn sat(x: int) -> u32 {
    if x > u32::MAX {
        u32::MAX
    } else if x < 0 {
        0
    } else {
        x as u32
    }
}

/// The sum of the counters of one strand.
pub open spec fn strand_total(c: Seq<u32>, o: int) -> int {
    c[o] + c[o + 1] + c[o + 2] + c[o + 3] + c[o + 4] + c[o + 5] + c[o + 6] + c[o + 7] + c[o + 8]
        + c[o + 9] + c[o + 10]
}

pub open spec fn make_row(
    strand: Strand,
    filtered_coverage: u32,
    raw_mod_code: char,
    n_canonical: u32,
    n_modified: u32,
    n_other_modified: u32,
    n_delete: u32,
    n_filtered: u32,
    n_diff: u32,
    n_nocall: u32,
) -> PileupFeatureCounts {
    PileupFeatureCounts {
        strand,
        filtered_coverage,
        raw_mod_code,
        n_canonical,
        n_modified,
        n_other_modified,
        n_delete,
        n_filtered,
        n_diff,
        n_nocall,
    }
}

/// The row of the adenine family on a strand, if `a` was observed and the
/// family has a call there.
pub open spec fn a_family_rows(c: Seq<u32>, s: Strand, has_a: bool) -> Seq<PileupFeatureCounts> {
    let o = strand_offset(s);
    if (c[o + 6] > 0 || c[o + 8] > 0) && has_a {
        seq![
            make_row(
                s,
                sat(c[o + 6] + c[o + 8]),
                'a',
                c[o + 6],
                c[o + 8],
                0,
                c[o],
                c[o + 1],
                sat(c[o + 3] + c[o + 4] + c[o + 5] + c[o + 7] + c[o + 9] + c[o + 10]),
                c[o + 2],
            ),
        ]
    } else {
        seq![]
    }
}

/// The rows of the cytosine family on a strand, given its counts.
pub open spec fn c_family_counts_rows(
    options: PileupNumericOptions,
    has_h: bool,
    has_m: bool,
    s: Strand,
    filtered_coverage: u32,
    n_h: u32,
    n_m: u32,
    n_canonical: u32,
    n_delete: u32,
    n_filtered: u32,
    n_diff: u32,
    n_nocall: u32,
) -> Seq<PileupFeatureCounts> {
    match options {
        PileupNumericOptions::Combine => seq![
            make_row(
                s,
                filtered_coverage,
                'C',
                n_canonical,
                sat(n_h + n_m),
                0,
                n_delete,
                n_filtered,
                n_diff,
                n_nocall,
            ),
        ],
        _ => {
            let h_row = make_row(
                s,
                filtered_coverage,
                'h',
                n_canonical,
                n_h,
                n_m,
                n_delete,
                n_filtered,
                n_diff,
                n_nocall,
            );
            let m_row = make_row(
                s,
                filtered_coverage,
                'm',
                n_canonical,
                n_m,
                n_h,
                n_delete,
                n_filtered,
                n_diff,
                n_nocall,
            );
            (if has_h {
                seq![h_row]
            } else {
                seq![]
            }) + (if has_m {
                seq![m_row]
            } else {
                seq![]
            })
        },
    }
}

/// The rows of the cytosine family on a strand, if it has a call there.
pub open spec fn c_family_rows(
    c: Seq<u32>,
    s: Strand,
    observed: Seq<ModCode>,
    options: PileupNumericOptions,
) -> Seq<PileupFeatureCounts> {
    let o = strand_offset(s);
    if c[o + 7] > 0 || c[o + 9] > 0 || c[o + 10] > 0 {
        c_family_counts_rows(
            options,
            observed.contains(ModCode::h),
            observed.contains(ModCode::m),
            s,
            sat(c[o + 7] + c[o + 9] + c[o + 10]),
            c[o + 9],
            c[o + 10],
            c[o + 7],
            c[o],
            c[o + 1],
            sat(c[o + 2] + c[o + 4] + c[o + 5] + c[o + 6] + c[o + 8]),
            c[o + 3],
        )
    } else {
        seq![]
    }
}

/// All rows of a position: adenine then cytosine on `+`, then the same on `-`.
pub open spec fn decoded_rows(
    c: Seq<u32>,
    observed: Seq<ModCode>,
    options: PileupNumericOptions,
) -> Seq<PileupFeatureCounts> {
    a_family_rows(c, Strand::Positive, observed.contains(ModCode::a)) + c_family_rows(
        c,
        Strand::Positive,
        observed,
        options,
    ) + a_family_rows(c, Strand::Negative, observed.contains(ModCode::a)) + c_family_rows(
        c,
        Strand::Negative,
        observed,
        options,
    )
}

/// Fixed-width counters for one reference position, 11 per strand (see
/// `feature_slot`).
pub struct FeatureVector {
    counts: [u32; 22],
}

fn contains_code(codes: &Vec<ModCode>, code: ModCode) -> (r: bool)
    ensures
        r == codes@.contains(code),
{
    let mut i: usize = 0;
    while i < codes.len()
        invariant
            i <= codes.len(),
            forall|j: int| 0 <= j < i ==> codes@[j] != code,
        decreases codes.len() - i,
    {
        if codes[i] == code {
            return true;
        }
        i = i + 1;
    }
    false
}

fn sat_add(a: u32, b: u32) -> (r: u32)
    ensures
        r == sat(a + b),
{
    a.saturating_add(b)
}

impl FeatureVector {
    pub closed spec fn view(&self) -> Seq<u32> {
        self.counts@
    }

    pub fn new() -> (r: FeatureVector)
        ensures
            r.view() == Seq::new(22, |i: int| 0u32),
    {
        let r = FeatureVector { counts: [0u32; 22] };
        assert(r.view() =~= Seq::new(22, |i: int| 0u32));
        r
    }

    pub fn add_feature(&mut self, strand: Strand, feature: Feature)
        ensures
            final(self).view() == (match feature_slot(feature) {
                Some(k) => {
                    let i = strand_offset(strand) + k;
                    old(self).view().update(i, sat(old(self).view()[i] + 1))
                },
                None => old(self).view(),
            }),
    {
        let slot: usize = match feature {
            Feature::Delete => 0,
            Feature::Filtered => 1,
            Feature::NoCall(DnaBase::A) => 2,
            Feature::NoCall(DnaBase::C) => 3,
            Feature::NoCall(DnaBase::G) => 4,
            Feature::NoCall(DnaBase::T) => 5,
            Feature::ModCall(ModCode::A) => 6,
            Feature::ModCall(ModCode::C) => 7,
            Feature::ModCall(ModCode::a) => 8,
            Feature::ModCall(ModCode::h) => 9,
            Feature::ModCall(ModCode::m) => 10,
            Feature::ModCall(ModCode::G) | Feature::ModCall(ModCode::T) => {
                return ;
            },
        };
        let offset: usize = match strand {
            Strand::Positive => 0,
            Strand::Negative => STRAND_SLOTS,
        };
        let i = offset + slot;
        let v = self.counts[i].saturating_add(1);
        self.counts[i] = v;
    }

    #[allow(clippy::too_many_arguments)]
    fn add_pileup_counts(
        pileup_options: &PileupNumericOptions,
        counts: &mut Vec<PileupFeatureCounts>,
        observed_mods: &Vec<ModCode>,
        strand: Strand,
        filtered_coverage: u32,
        n_h: u32,
        n_m: u32,
        n_canonical: u32,
        n_delete: u32,
        n_filtered: u32,
        n_diff: u32,
        n_nocall: u32,
    )
        ensures
            final(counts)@ == old(counts)@ + c_family_counts_rows(
                *pileup_options,
                observed_mods@.contains(ModCode::h),
                observed_mods@.contains(ModCode::m),
                strand,
                filtered_coverage,
                n_h,
                n_m,
                n_canonical,
                n_delete,
                n_filtered,
                n_diff,
                n_nocall,
            ),
    {
        match pileup_options {
            PileupNumericOptions::Combine => {
                counts.push(
                    PileupFeatureCounts {
                        strand,
                        filtered_coverage,
                        raw_mod_code: 'C',
                        n_canonical,
                        n_modified: sat_add(n_h, n_m),
                        n_other_modified: 0,
                        n_delete,
                        n_filtered,
                        n_diff,
                        n_nocall,
                    },
                );
            },
            _ => {
                let ghost start = counts@;
                let has_h = contains_code(observed_mods, ModCode::h);
                let has_m = contains_code(observed_mods, ModCode::m);
                if has_h {
                    counts.push(
                        PileupFeatureCounts {
                            strand,
                            filtered_coverage,
                            raw_mod_code: 'h',
                            n_canonical,
                            n_modified: n_h,
                            n_other_modified: n_m,
                            n_delete,
                            n_filtered,
                            n_diff,
                            n_nocall,
                        },
                    );
                }
                let ghost mid = counts@;
                if has_m {
                    counts.push(
                        PileupFeatureCounts {
                            strand,
                            filtered_coverage,
                            raw_mod_code: 'm',
                            n_canonical,
                            n_modified: n_m,
                            n_other_modified: n_h,
                            n_delete,
                            n_filtered,
                            n_diff,
                            n_nocall,
                        },
                    );
                }
                assert(counts@ =~= start + c_family_counts_rows(
                    *pileup_options,
                    has_h,
                    has_m,
                    strand,
                    filtered_coverage,
                    n_h,
                    n_m,
                    n_canonical,
                    n_delete,
                    n_filtered,
                    n_diff,
                    n_nocall,
                ));
            },
        }
    }

    fn push_a_family_row(&self, strand: Strand, has_a: bool, counts: &mut Vec<PileupFeatureCounts>)
        ensures
            final(counts)@ == old(counts)@ + a_family_rows(self.view(), strand, has_a),
    {
        let o: usize = match strand {
            Strand::Positive => 0,
            Strand::Negative => STRAND_SLOTS,
        };
        let n_canonical = self.counts[o + 6];
        let n_mod = self.counts[o + 8];
        if (n_canonical > 0 || n_mod > 0) && has_a {
            let filtered_coverage = sat_add(n_canonical, n_mod);
            let n_diff = sat_add(
                sat_add(
                    sat_add(
                        sat_add(sat_add(self.counts[o + 3], self.counts[o + 4]), self.counts[o + 5]),
                        self.counts[o + 7],
                    ),
                    self.counts[o + 9],
                ),
                self.counts[o + 10],
            );
            counts.push(
                PileupFeatureCounts {
                    strand,
                    filtered_coverage,
                    raw_mod_code: 'a',
                    n_canonical,
                    n_modified: n_mod,
                    n_other_modified: 0,
                    n_delete: self.counts[o],
                    n_filtered: self.counts[o + 1],
                    n_diff,
                    n_nocall: self.counts[o + 2],
                },
            );
        }
        assert(counts@ =~= old(counts)@ + a_family_rows(self.view(), strand, has_a));
    }

    fn push_c_family_rows(
        &self,
        strand: Strand,
        observed_mods: &Vec<ModCode>,
        pileup_options: &PileupNumericOptions,
        counts: &mut Vec<PileupFeatureCounts>,
    )
        ensures
            final(counts)@ == old(counts)@ + c_family_rows(
                self.view(),
                strand,
                observed_mods@,
                *pileup_options,
            ),
    {
        let o: usize = match strand {
            Strand::Positive => 0,
            Strand::Negative => STRAND_SLOTS,
        };
        let n_canonical = self.counts[o + 7];
        let n_h = self.counts[o + 9];
        let n_m = self.counts[o + 10];
        if n_canonical > 0 || n_h > 0 || n_m > 0 {
            let filtered_coverage = sat_add(sat_add(n_canonical, n_h), n_m);
            let n_diff = sat_add(
                sat_add(
                    sat_add(sat_add(self.counts[o + 2], self.counts[o + 4]), self.counts[o + 5]),
                    self.counts[o + 6],
                ),
                self.counts[o + 8],
            );
            Self::add_pileup_counts(
                pileup_options,
                counts,
                observed_mods,
                strand,
                filtered_coverage,
                n_h,
                n_m,
                n_canonical,
                self.counts[o],
                self.counts[o + 1],
                n_diff,
                self.counts[o + 3],
            );
        } else {
            assert(counts@ =~= old(counts)@ + c_family_rows(
                self.view(),
                strand,
                observed_mods@,
                *pileup_options,
            ));
        }
    }

    /// The rows of this position: for each strand, one row for the adenine
    /// family if `a` was observed and the family has a call, and rows for the
    /// cytosine family as `pileup_options` says, if it has a call.
    pub fn decode(
        self,
        observed_mods: &Vec<ModCode>,
        pileup_options: &PileupNumericOptions,
    ) -> (r: Vec<PileupFeatureCounts>)
        ensures
            r@ == decoded_rows(self.view(), observed_mods@, *pileup_options),
    {
        let mut counts: Vec<PileupFeatureCounts> = Vec::new();
        let has_a = contains_code(observed_mods, ModCode::a);
        self.push_a_family_row(Strand::Positive, has_a, &mut counts);
        self.push_c_family_rows(Strand::Positive, observed_mods, pileup_options, &mut counts);
        self.push_a_family_row(Strand::Negative, has_a, &mut counts);
        self.push_c_family_rows(Strand::Negative, observed_mods, pileup_options, &mut counts);
        assert(counts@ =~= decoded_rows(self.view(), observed_mods@, *pileup_options));
        counts
    }
}


/// The sum of the counts that a row reports.
pub open spec fn row_total(r: PileupFeatureCounts) -> int {
    r.n_canonical + r.n_modified + r.n_other_modified + r.n_delete + r.n_filtered + r.n_diff
        + r.n_nocall
}

/// What holds of each emitted row: its family had a call on its strand, and
/// where the counters of that strand did not reach the `u32` limit, the row's
/// counts add up to the number of observations on the strand.
pub open spec fn row_accounts(c: Seq<u32>, r: PileupFeatureCounts) -> bool {
    &&& r.filtered_coverage > 0
    &&& strand_total(c, strand_offset(r.strand)) <= u32::MAX ==> row_total(r) == strand_total(
        c,
        strand_offset(r.strand),
    )
}

proof fn lemma_family_rows_account(
    c: Seq<u32>,
    s: Strand,
    observed: Seq<ModCode>,
    options: PileupNumericOptions,
)
    requires
        c.len() == 22,
    ensures
        forall|i: int|
            0 <= i < a_family_rows(c, s, observed.contains(ModCode::a)).len() ==> row_accounts(
                c,
                #[trigger] a_family_rows(c, s, observed.contains(ModCode::a))[i],
            ),
        forall|i: int|
            0 <= i < c_family_rows(c, s, observed, options).len() ==> row_accounts(
                c,
                #[trigger] c_family_rows(c, s, observed, options)[i],
            ),
{
}

/// No row of `decode` belongs to a family without observations, and the
/// counts of each row add up to all alignments seen on its strand (deletions,
/// filtered calls and no-calls included), as long as no counter saturated.
pub proof fn lemma_decode_accounts_for_alignments(
    c: Seq<u32>,
    observed: Seq<ModCode>,
    options: PileupNumericOptions,
)
    requires
        c.len() == 22,
    ensures
        forall|i: int|
            0 <= i < decoded_rows(c, observed, options).len() ==> row_accounts(
                c,
                #[trigger] decoded_rows(c, observed, options)[i],
            ),
{
    lemma_family_rows_account(c, Strand::Positive, observed, options);
    lemma_family_rows_account(c, Strand::Negative, observed, options);
    let a1 = a_family_rows(c, Strand::Positive, observed.contains(ModCode::a));
    let c1 = c_family_rows(c, Strand::Positive, observed, options);
    let a2 = a_family_rows(c, Strand::Negative, observed.contains(ModCode::a));
    let c2 = c_family_rows(c, Strand::Negative, observed, options);
    let rows = decoded_rows(c, observed, options);
    assert(rows == a1 + c1 + a2 + c2);
    assert forall|i: int| 0 <= i < rows.len() implies row_accounts(c, #[trigger] rows[i]) by {
        if i < a1.len() {
            assert(rows[i] == a1[i]);
        } else if i < a1.len() + c1.len() {
            assert(rows[i] == c1[i - a1.len()]);
        } else if i < a1.len() + c1.len() + a2.len() {
            assert(rows[i] == a2[i - a1.len() - c1.len()]);
        } else {
            assert(rows[i] == c2[i - a1.len() - c1.len() - a2.len()]);
        }
    }
}

/// The feature that an alignment adds at a position: a deletion, or else
/// the call on its base (a canonical call counts as the base's own code, a
/// modification outside the counted alphabet adds nothing), a no-call where
/// the read holds no probabilities there, and nothing where the read has no
/// base.
pub open spec fn alignment_feature_spec(
    is_del: bool,
    read_base: Option<DnaBase>,
    mod_call: Option<BaseModCall>,
) -> Option<Feature> {
    if is_del {
        Some(Feature::Delete)
    } else {
        match read_base {
            None => None,
            Some(b) => match mod_call {
                None => Some(Feature::NoCall(b)),
                Some(BaseModCall::Canonical(_)) => Some(Feature::ModCall(canonical_code_of(b))),
                Some(BaseModCall::Filtered) => Some(Feature::Filtered),
                Some(BaseModCall::Modified(_, raw)) => match mod_code_of_repr(raw) {
                    Some(code) => Some(Feature::ModCall(code)),
                    None => None,
                },
            },
        }
    }
}

pub fn alignment_feature(
    is_del: bool,
    read_base: Option<DnaBase>,
    mod_call: Option<BaseModCall>,
) -> (r: Option<Feature>)
    ensures
        r == alignment_feature_spec(is_del, read_base, mod_call),
{
    if is_del {
        return Some(Feature::Delete);
    }
    match read_base {
        None => None,
        Some(b) => match mod_call {
            None => Some(Feature::NoCall(b)),
            Some(BaseModCall::Canonical(_)) => Some(Feature::ModCall(b.canonical_mod_code())),
            Some(BaseModCall::Filtered) => Some(Feature::Filtered),
            Some(BaseModCall::Modified(_, raw)) => match ModCode::parse_raw_mod_code(raw) {
                Some(code) => Some(Feature::ModCall(code)),
                None => None,
            },
        },
    }
}

/// The read's own base from the base stored for it: reads aligned to the
/// reverse strand are stored reverse-complemented, so their base is
/// complemented back.
pub fn read_strand_base(read_char: char, is_reverse: bool) -> (r: Option<DnaBase>)
    ensures
        r == (match crate::mod_base_code::base_of_char(read_char) {
            Some(b) => Some(if is_reverse {
                base_complement(b)
            } else {
                b
            }),
            None => None,
        }),
{
    match DnaBase::parse(read_char) {
        Some(b) => if is_reverse {
            Some(b.complement())
        } else {
            Some(b)
        },
        None => None,
    }
}

/// The counters after recording each feature in turn, from all zeros.
pub open spec fn counts_after(features: Seq<(Strand, Feature)>) -> Seq<u32>
    decreases features.len(),
{
    if features.len() == 0 {
        Seq::new(22, |i: int| 0u32)
    } else {
        let c = counts_after(features.drop_last());
        let (strand, f) = features.last();
        match feature_slot(f) {
            Some(k) => {
                let i = strand_offset(strand) + k;
                c.update(i, sat(c[i] + 1))
            },
            None => c,
        }
    }
}

proof fn lemma_counts_after_len(features: Seq<(Strand, Feature)>)
    ensures
        counts_after(features).len() == 22,
    decreases features.len(),
{
    if features.len() > 0 {
        lemma_counts_after_len(features.drop_last());
    }
}

/// The rows of one position: each alignment's feature counted, then decoded.
pub fn pileup_position(
    features: &Vec<(Strand, Feature)>,
    observed_mods: &Vec<ModCode>,
    pileup_options: &PileupNumericOptions,
) -> (r: Vec<PileupFeatureCounts>)
    ensures
        r@ == decoded_rows(counts_after(features@), observed_mods@, *pileup_options),
{
    let mut fv = FeatureVector::new();
    let mut i: usize = 0;
    assert(features@.subrange(0, 0) =~= Seq::<(Strand, Feature)>::empty());
    while i < features.len()
        invariant
            i <= features@.len(),
            fv.view() == counts_after(features@.subrange(0, i as int)),
        decreases features.len() - i,
    {
        let (strand, feature) = features[i];
        assert(features@.subrange(0, i as int + 1).drop_last() =~= features@.subrange(0, i as int));
        fv.add_feature(strand, feature);
        i = i + 1;
    }
    assert(features@.subrange(0, i as int) =~= features@);
    fv.decode(observed_mods, pileup_options)
}

/// Positions strictly ascending.
pub open spec fn positions_sorted(s: Seq<(u32, Vec<PileupFeatureCounts>)>) -> bool {
    forall|a: int, b: int| 0 <= a < b < s.len() ==> s[a].0 < s[b].0
}

/// The rows of a window of one reference sequence, by position.
pub struct ModBasePileup {
    pub chrom_name: String,
    position_feature_counts: Vec<(u32, Vec<PileupFeatureCounts>)>,
}

impl ModBasePileup {
    pub closed spec fn view(&self) -> Seq<(u32, Vec<PileupFeatureCounts>)> {
        self.position_feature_counts@
    }

    pub closed spec fn wf(&self) -> bool {
        positions_sorted(self.position_feature_counts@)
    }

    pub closed spec fn name(&self) -> Seq<char> {
        self.chrom_name@
    }

    pub fn new(chrom_name: String) -> (r: ModBasePileup)
        ensures
            r.wf(),
            r.view().len() == 0,
            r.name() == chrom_name@,
    {
        ModBasePileup { chrom_name, position_feature_counts: Vec::new() }
    }

    /// Positions ascend strictly.
    pub proof fn lemma_wf(&self)
        ensures
            self.wf() == positions_sorted(self.view()),
    {
    }

    pub fn num_results(&self) -> (r: usize)
        ensures
            r == self.view().len(),
    {
        self.position_feature_counts.len()
    }

    /// The rows of each position, in ascending position order.
    pub fn iter_counts(&self) -> (r: &Vec<(u32, Vec<PileupFeatureCounts>)>)
        requires
            self.wf(),
        ensures
            r@ == self.view(),
            r@.len() == self.view().len(),
            positions_sorted(r@),
    {
        &self.position_feature_counts
    }

    /// Record the rows of a position, in place of any rows it had; returns
    /// the index at which they stand.
    pub fn insert(&mut self, position: u32, counts: Vec<PileupFeatureCounts>) -> (k: usize)
        requires
            old(self).wf(),
        ensures
            final(self).wf(),
            final(self).name() == old(self).name(),
            k <= old(self).view().len(),
            k < old(self).view().len() && old(self).view()[k as int].0 == position
                ==> final(self).view() == old(self).view().update(k as int, (position, counts)),
            !(k < old(self).view().len() && old(self).view()[k as int].0 == position)
                ==> final(self).view() == old(self).view().insert(k as int, (position, counts)),
    {
        let ghost old_v = self.position_feature_counts@;
        let n = self.position_feature_counts.len();
        if n == 0 || self.position_feature_counts[n - 1].0 < position {
            // positions mostly come in ascending order: append
            self.position_feature_counts.push((position, counts));
            assert(self.position_feature_counts@ =~= old_v.insert(n as int, (position, counts)));
            return n;
        }
        let mut k: usize = 0;
        while k < self.position_feature_counts.len() && self.position_feature_counts[k].0 < position
            invariant
                self.position_feature_counts@ == old_v,
                k <= old_v.len(),
                forall|a: int| 0 <= a < k ==> old_v[a].0 < position,
            decreases self.position_feature_counts.len() - k,
        {
            k = k + 1;
        }
        if k < self.position_feature_counts.len() && self.position_feature_counts[k].0 == position {
            self.position_feature_counts.remove(k);
            self.position_feature_counts.insert(k, (position, counts));
            assert(self.position_feature_counts@ =~= old_v.update(k as int, (position, counts)));
        } else {
            self.position_feature_counts.insert(k, (position, counts));
            assert(self.position_feature_counts@ =~= old_v.insert(k as int, (position, counts)));
            assert forall|a: int, b: int|
                0 <= a < b < self.position_feature_counts@.len() implies self.position_feature_counts@[a].0
                < self.position_feature_counts@[b].0 by {
                if b < k {
                } else if a < k && b == k {
                } else if a < k {
                    assert(self.position_feature_counts@[b] == old_v[b - 1]);
                    if b - 1 >= k {
                        assert(old_v[k as int].0 > position);
                    }
                } else if a == k {
                    assert(self.position_feature_counts@[b] == old_v[b - 1]);
                    assert(old_v[k as int].0 > position);
                    if b - 1 > k {
                        assert(old_v[k as int].0 < old_v[b - 1].0);
                    }
                } else {
                    assert(self.position_feature_counts@[a] == old_v[a - 1]);
                    assert(self.position_feature_counts@[b] == old_v[b - 1]);
                }
            }
        }
        k
    }
}

/// What the pileup reads of one alignment at a column.
#[derive(Debug, Clone, Copy, PartialEq, Eq, Structural)]
pub struct AlignmentView {
    /// Identity of the alignment record, as the read cache keys it.
    pub record_id: u64,
    /// The column falls in a reference skip of the alignment.
    pub is_refskip: bool,
    /// SAM flags of the record.
    pub flags: u16,
    /// Length of the record's sequence.
    pub seq_len: usize,
    /// The column falls in a deletion of the alignment.
    pub is_del: bool,
    pub is_reverse: bool,
    /// The base stored for the read at the column, if the read has one.
    pub stored_base: Option<char>,
}

/// Alignments that count: not a reference skip, not secondary,
/// supplementary or duplicate, and with a sequence.
pub open spec fn counted(a: AlignmentView) -> bool {
    !a.is_refskip && !flags_secondary(a.flags) && a.seq_len > 0
}

pub open spec fn strand_of(a: AlignmentView) -> Strand {
    if a.is_reverse {
        Strand::Negative
    } else {
        Strand::Positive
    }
}

/// The read's own base at the column.
pub open spec fn read_base_of(a: AlignmentView) -> Option<DnaBase> {
    match a.stored_base {
        Some(c) => match base_of_char(c) {
            Some(b) => Some(if a.is_reverse {
                base_complement(b)
            } else {
                b
            }),
            None => None,
        },
        None => None,
    }
}

/// The strand and feature that an alignment adds at the column.
pub open spec fn column_feature(
    reads: Seq<crate::read_cache::CachedRead>,
    a: AlignmentView,
    pos: u64,
    caller: MultipleThresholdModCaller,
) -> Option<(Strand, Feature)> {
    if !counted(a) {
        None
    } else {
        let base = read_base_of(a);
        let call = match base {
            Some(b) => if a.is_del {
                None
            } else {
                cached_call(reads, a.record_id, pos, b, caller)
            },
            None => None,
        };
        match alignment_feature_spec(a.is_del, base, call) {
            Some(f) => Some((strand_of(a), f)),
            None => None,
        }
    }
}

/// The features of a column, alignment by alignment.
pub open spec fn column_features(
    reads: Seq<crate::read_cache::CachedRead>,
    alignments: Seq<AlignmentView>,
    pos: u64,
    caller: MultipleThresholdModCaller,
) -> Seq<(Strand, Feature)>
    decreases alignments.len(),
{
    if alignments.len() == 0 {
        seq![]
    } else {
        let prev = column_features(reads, alignments.drop_last(), pos, caller);
        match column_feature(reads, alignments.last(), pos, caller) {
            Some(x) => prev.push(x),
            None => prev,
        }
    }
}

/// `obs` with the counted codes among `codes` that it lacks, in order.
pub open spec fn add_codes(obs: Seq<ModCode>, codes: Seq<ModCodeRepr>) -> Seq<ModCode>
    decreases codes.len(),
{
    if codes.len() == 0 {
        obs
    } else {
        let prev = add_codes(obs, codes.drop_last());
        match mod_code_of_repr(codes.last()) {
            Some(c) => if prev.contains(c) {
                prev
            } else {
                prev.push(c)
            },
            None => prev,
        }
    }
}

/// The codes observed at a column: those of the counted alignments' records.
pub open spec fn column_codes(
    reads: Seq<crate::read_cache::CachedRead>,
    alignments: Seq<AlignmentView>,
) -> Seq<ModCode>
    decreases alignments.len(),
{
    if alignments.len() == 0 {
        seq![]
    } else {
        let prev = column_codes(reads, alignments.drop_last());
        if counted(alignments.last()) {
            add_codes(prev, record_codes(reads, alignments.last().record_id))
        } else {
            prev
        }
    }
}

fn add_codes_exec(observed: &mut Vec<ModCode>, codes: &Vec<ModCodeRepr>)
    ensures
        final(observed)@ == add_codes(old(observed)@, codes@),
{
    let ghost start = observed@;
    let mut i: usize = 0;
    while i < codes.len()
        invariant
            i <= codes@.len(),
            observed@ == add_codes(start, codes@.subrange(0, i as int)),
        decreases codes.len() - i,
    {
        assert(codes@.subrange(0, i as int + 1).drop_last() =~= codes@.subrange(0, i as int));
        if let Some(c) = ModCode::parse_raw_mod_code(codes[i]) {
            if !contains_code(observed, c) {
                observed.push(c);
            }
        }
        i = i + 1;
    }
    assert(codes@.subrange(0, i as int) =~= codes@);
}

/// The rows of one reference position: the counted alignments' features,
/// with calls from the read cache, counted and decoded.
pub fn process_column(
    cache: &ReadCache,
    alignments: &Vec<AlignmentView>,
    pos: u64,
    caller: &MultipleThresholdModCaller,
    pileup_options: &PileupNumericOptions,
) -> (r: Vec<PileupFeatureCounts>)
    requires
        cache.wf(),
    ensures
        r@ == decoded_rows(
            counts_after(column_features(cache.view(), alignments@, pos, *caller)),
            column_codes(cache.view(), alignments@),
            *pileup_options,
        ),
{
    let mut features: Vec<(Strand, Feature)> = Vec::new();
    let mut observed: Vec<ModCode> = Vec::new();
    let mut i: usize = 0;
    while i < alignments.len()
        invariant
            cache.wf(),
            i <= alignments@.len(),
            features@ == column_features(cache.view(), alignments@.subrange(0, i as int), pos, *caller),
            observed@ == column_codes(cache.view(), alignments@.subrange(0, i as int)),
        decreases alignments.len() - i,
    {
        let a = alignments[i];
        assert(alignments@.subrange(0, i as int + 1).drop_last() =~= alignments@.subrange(0, i as int));
        if !a.is_refskip && !crate::util::record_is_secondary(a.flags) && a.seq_len > 0 {
            let codes = cache.get_mod_codes_for_record(a.record_id);
            add_codes_exec(&mut observed, &codes);
            let strand = if a.is_reverse {
                Strand::Negative
            } else {
                Strand::Positive
            };
            let base = match a.stored_base {
                Some(c) => read_strand_base(c, a.is_reverse),
                None => None,
            };
            let call = match base {
                Some(b) => if a.is_del {
                    None
                } else {
                    cache.get_mod_call(a.record_id, pos, b, caller)
                },
                None => None,
            };
            if let Some(f) = alignment_feature(a.is_del, base, call) {
                features.push((strand, f));
            }
        }
        i = i + 1;
    }
    assert(alignments@.subrange(0, i as int) =~= alignments@);
    pileup_position(&features, &observed, pileup_options)
}

/// What to do with a pileup column at `pos` for the window `[start, end)`.
#[derive(Debug, Clone, Copy, PartialEq, Eq, Structural)]
pub enum ColumnAction {
    /// Before the window: pass over it.
    Skip,
    /// In the window: count it.
    Process,
    /// At or past the window's end: stop.
    Stop,
}

pub fn column_action(pos: u32, start: u32, end: u32) -> (r: ColumnAction)
    ensures
        pos >= end ==> r == ColumnAction::Stop,
        pos < end && pos < start ==> r == ColumnAction::Skip,
        start <= pos < end ==> r == ColumnAction::Process,
{
    if pos >= end {
        ColumnAction::Stop
    } else if pos < start {
        ColumnAction::Skip
    } else {
        ColumnAction::Process
    }
}

/// Whether the alignment's record must be decoded into the cache before its
/// column is processed: it counts and the cache does not hold it yet.
pub fn needs_decoding(cache: &ReadCache, a: &AlignmentView) -> (r: bool)
    requires
        cache.wf(),
    ensures
        r == (counted(*a) && crate::read_cache::read_index(cache.view(), a.record_id) is None),
{
    !a.is_refskip && !crate::util::record_is_secondary(a.flags) && a.seq_len > 0
        && !cache.contains_record(a.record_id)
}

/// The number of features of `features` that are counted on strand `s`
/// (canonical calls on G and T are not).
pub open spec fn features_on(features: Seq<(Strand, Feature)>, s: Strand) -> int
    decreases features.len(),
{
    if features.len() == 0 {
        0
    } else {
        features_on(features.drop_last(), s) + if features.last().0 == s && feature_slot(
            features.last().1,
        ) is Some {
            1int
        } else {
            0int
        }
    }
}

proof fn lemma_counts_after_strand(features: Seq<(Strand, Feature)>, s: Strand)
    requires
        features_on(features, s) <= u32::MAX,
    ensures
        counts_after(features).len() == 22,
        strand_total(counts_after(features), strand_offset(s)) == features_on(features, s),
        forall|k: int|
            0 <= k < 11 ==> #[trigger] counts_after(features)[strand_offset(s) + k] <= features_on(
                features,
                s,
            ),
    decreases features.len(),
{
    lemma_counts_after_len(features);
    if features.len() > 0 {
        let prev = features.drop_last();
        assert(features_on(prev, s) <= features_on(features, s));
        lemma_counts_after_strand(prev, s);
        lemma_counts_after_len(prev);
        let c = counts_after(prev);
        let (strand, f) = features.last();
        let o = strand_offset(s);
        match feature_slot(f) {
            Some(k) => {
                let i = strand_offset(strand) + k;
                assert(counts_after(features) == c.update(i, sat(c[i] + 1)));
                if strand == s {
                    assert(c[i] + 1 <= u32::MAX);
                    assert(sat(c[i] + 1) == c[i] + 1);
                } else {
                    assert(i < o || i >= o + 11);
                }
            },
            None => {},
        }
    }
}

/// Each row that `decode` gives for a position, after the features of its
/// alignments were recorded from an empty vector, has at least one canonical
/// or modified call of its family behind it, and where the strand's features
/// fit in a `u32`: its coverage is its canonical plus modified counts, and all
/// its counts add up to the number of features recorded on its strand.
pub proof fn lemma_decode_counts_features(
    features: Seq<(Strand, Feature)>,
    observed: Seq<ModCode>,
    options: PileupNumericOptions,
)
    ensures
        forall|i: int|
            0 <= i < decoded_rows(counts_after(features), observed, options).len() ==> {
                let r = #[trigger] decoded_rows(counts_after(features), observed, options)[i];
                &&& r.filtered_coverage > 0
                &&& features_on(features, r.strand) <= u32::MAX ==> {
                    &&& row_total(r) == features_on(features, r.strand)
                    &&& r.filtered_coverage == r.n_canonical + r.n_modified + r.n_other_modified
                }
            },
{
    let c = counts_after(features);
    lemma_counts_after_len(features);
    lemma_decode_accounts_for_alignments(c, observed, options);
    let rows = decoded_rows(c, observed, options);
    assert forall|i: int| 0 <= i < rows.len() implies {
        let r = #[trigger] rows[i];
        &&& r.filtered_coverage > 0
        &&& features_on(features, r.strand) <= u32::MAX ==> {
            &&& row_total(r) == features_on(features, r.strand)
            &&& r.filtered_coverage == r.n_canonical + r.n_modified + r.n_other_modified
        }
    } by {
        let r = rows[i];
        assert(row_accounts(c, r));
        if features_on(features, r.strand) <= u32::MAX {
            lemma_counts_after_strand(features, r.strand);
            lemma_row_coverage(c, observed, options, i);
        }
    }
}

proof fn lemma_row_coverage(
    c: Seq<u32>,
    observed: Seq<ModCode>,
    options: PileupNumericOptions,
    i: int,
)
    requires
        c.len() == 22,
        0 <= i < decoded_rows(c, observed, options).len(),
        strand_total(c, strand_offset(decoded_rows(c, observed, options)[i].strand)) <= u32::MAX,
    ensures
        ({
            let r = decoded_rows(c, observed, options)[i];
            r.filtered_coverage == r.n_canonical + r.n_modified + r.n_other_modified
        }),
{
    let a1 = a_family_rows(c, Strand::Positive, observed.contains(ModCode::a));
    let c1 = c_family_rows(c, Strand::Positive, observed, options);
    let a2 = a_family_rows(c, Strand::Negative, observed.contains(ModCode::a));
    let c2 = c_family_rows(c, Strand::Negative, observed, options);
    let rows = decoded_rows(c, observed, options);
    assert(rows == a1 + c1 + a2 + c2);
    if i < a1.len() {
        assert(rows[i] == a1[i]);
    } else if i < a1.len() + c1.len() {
        assert(rows[i] == c1[i - a1.len()]);
    } else if i < a1.len() + c1.len() + a2.len() {
        assert(rows[i] == a2[i - a1.len() - c1.len()]);
    } else {
        assert(rows[i] == c2[i - a1.len() - c1.len() - a2.len()]);
    }
}

} // verus!
