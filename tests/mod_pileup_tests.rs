use modkit::mod_bam::{BaseModCall, BaseModProbs, PROB_SCALE};
use modkit::mod_base_code::{DnaBase, ModCode, ModCodeRepr};
use modkit::mod_pileup::{
    alignment_feature, column_action, needs_decoding, pileup_position, process_column, ColumnAction, read_strand_base, AlignmentView, Feature,
    FeatureVector, ModBasePileup, PileupFeatureCounts, PileupNumericOptions,
};
use modkit::read_cache::ReadCache;
use modkit::threshold_mod_caller::MultipleThresholdModCaller;
use modkit::util::Strand;

fn row_total(c: &PileupFeatureCounts) -> u32 {
    c.n_canonical + c.n_modified + c.n_other_modified + c.n_delete + c.n_filtered + c.n_diff + c.n_nocall
}

#[test]
fn test_feature_vector() {
    let observed_mods = vec![ModCode::m, ModCode::h];
    let mut fv = FeatureVector::new();
    fv.add_feature(Strand::Positive, Feature::NoCall(DnaBase::A));
    fv.add_feature(Strand::Positive, Feature::ModCall(ModCode::C));
    fv.add_feature(Strand::Positive, Feature::ModCall(ModCode::m));
    fv.add_feature(Strand::Positive, Feature::ModCall(ModCode::m));
    fv.add_feature(Strand::Positive, Feature::NoCall(DnaBase::C));
    fv.add_feature(Strand::Negative, Feature::NoCall(DnaBase::G));
    fv.add_feature(Strand::Negative, Feature::NoCall(DnaBase::G));
    let counts = fv.decode(&observed_mods, &PileupNumericOptions::Passthrough);
    assert_eq!(counts.len(), 2); // h and m, negative strand should not be there
    for pileup_counts in counts {
        assert_eq!(pileup_counts.filtered_coverage, 3);
        assert_eq!(pileup_counts.n_nocall, 1);
        assert_eq!(pileup_counts.n_diff, 1);
        assert_eq!(pileup_counts.strand, Strand::Positive);
    }
    let mut fv = FeatureVector::new();
    fv.add_feature(Strand::Positive, Feature::ModCall(ModCode::C));
    fv.add_feature(Strand::Negative, Feature::ModCall(ModCode::m));
    fv.add_feature(Strand::Negative, Feature::NoCall(DnaBase::G));
    fv.add_feature(Strand::Negative, Feature::NoCall(DnaBase::G));
    let counts = fv.decode(&observed_mods, &PileupNumericOptions::Passthrough);
    assert_eq!(counts.len(), 4);
    counts
        .iter()
        .filter(|c| c.strand == Strand::Negative)
        .for_each(|c| assert_eq!(c.n_diff, 2));
}

#[test]
fn decode_combine_merges_cytosine_codes() {
    let observed = vec![ModCode::m, ModCode::h];
    let mut fv = FeatureVector::new();
    fv.add_feature(Strand::Positive, Feature::ModCall(ModCode::C));
    fv.add_feature(Strand::Positive, Feature::ModCall(ModCode::h));
    fv.add_feature(Strand::Positive, Feature::ModCall(ModCode::m));
    fv.add_feature(Strand::Positive, Feature::ModCall(ModCode::m));
    let rows = fv.decode(&observed, &PileupNumericOptions::Combine);
    assert_eq!(rows.len(), 1);
    assert_eq!(rows[0].raw_mod_code, 'C');
    assert_eq!(rows[0].n_modified, 3);
    assert_eq!(rows[0].n_other_modified, 0);
    assert_eq!(rows[0].filtered_coverage, 4);
}

#[test]
fn decode_adenine_row_needs_observed_code() {
    let mut fv = FeatureVector::new();
    fv.add_feature(Strand::Negative, Feature::ModCall(ModCode::a));
    fv.add_feature(Strand::Negative, Feature::ModCall(ModCode::A));
    fv.add_feature(Strand::Negative, Feature::Delete);
    fv.add_feature(Strand::Negative, Feature::ModCall(ModCode::m));
    let rows = fv.decode(&vec![ModCode::a], &PileupNumericOptions::Passthrough);
    assert_eq!(rows.len(), 1);
    let r = rows[0];
    assert_eq!(r.raw_mod_code, 'a');
    assert_eq!(r.strand, Strand::Negative);
    assert_eq!(r.n_modified, 1);
    assert_eq!(r.n_canonical, 1);
    assert_eq!(r.n_delete, 1);
    assert_eq!(r.n_diff, 1);
    let rows = FeatureVector::new().decode(&vec![], &PileupNumericOptions::Passthrough);
    assert!(rows.is_empty());
}

#[test]
fn decode_rows_account_for_all_alignments() {
    let observed = vec![ModCode::m, ModCode::h, ModCode::a];
    let features = vec![
        (Strand::Positive, Feature::ModCall(ModCode::C)),
        (Strand::Positive, Feature::ModCall(ModCode::m)),
        (Strand::Positive, Feature::ModCall(ModCode::h)),
        (Strand::Positive, Feature::ModCall(ModCode::a)),
        (Strand::Positive, Feature::Filtered),
        (Strand::Positive, Feature::Delete),
        (Strand::Positive, Feature::NoCall(DnaBase::T)),
        (Strand::Positive, Feature::NoCall(DnaBase::C)),
    ];
    let rows = pileup_position(&features, &observed, &PileupNumericOptions::Passthrough);
    assert_eq!(rows.len(), 3);
    for r in rows.iter() {
        assert!(r.filtered_coverage > 0);
        assert_eq!(row_total(r), 8);
    }
}

#[test]
fn repeated_features_accumulate() {
    let features: Vec<(Strand, Feature)> =
        (0..5).map(|_| (Strand::Positive, Feature::ModCall(ModCode::m))).collect();
    let rows = pileup_position(&features, &vec![ModCode::m], &PileupNumericOptions::Passthrough);
    assert_eq!(rows[0].n_modified, 5);
}

#[test]
fn alignment_features_follow_the_call() {
    assert_eq!(alignment_feature(true, None, None), Some(Feature::Delete));
    assert_eq!(alignment_feature(false, None, None), None);
    assert_eq!(
        alignment_feature(false, Some(DnaBase::C), None),
        Some(Feature::NoCall(DnaBase::C))
    );
    assert_eq!(
        alignment_feature(false, Some(DnaBase::C), Some(BaseModCall::Canonical(900_000))),
        Some(Feature::ModCall(ModCode::C))
    );
    assert_eq!(
        alignment_feature(false, Some(DnaBase::C), Some(BaseModCall::Filtered)),
        Some(Feature::Filtered)
    );
    assert_eq!(
        alignment_feature(
            false,
            Some(DnaBase::C),
            Some(BaseModCall::Modified(900_000, ModCodeRepr::ChEBI(76792)))
        ),
        Some(Feature::ModCall(ModCode::h))
    );
    assert_eq!(read_strand_base('G', true), Some(DnaBase::C));
    assert_eq!(read_strand_base('g', false), Some(DnaBase::G));
    assert_eq!(read_strand_base('N', false), None);
}

#[test]
fn end_to_end_reverse_read_modified_call() {
    // one read on the reverse strand, a 5mC call of probability 0.9 at
    // reference position 500, threshold 0.5
    let caller = MultipleThresholdModCaller::new(vec![], vec![], 500_000);
    let mut cache = ReadCache::new(None);
    let probs =
        BaseModProbs::from_entries(vec![(ModCodeRepr::Code('m'), 900_000)], false).unwrap();
    cache.add_record(7, 1000, vec![(500, DnaBase::C, probs)], vec![ModCodeRepr::Code('m')]);
    let mut observed = Vec::new();
    for code in cache.get_mod_codes_for_record(7) {
        observed.push(ModCode::parse_raw_mod_code(code).unwrap());
    }
    let stored_base = 'G';
    let read_base = read_strand_base(stored_base, true);
    let call = cache.get_mod_call(7, 500, read_base.unwrap(), &caller);
    assert_eq!(call, Some(BaseModCall::Modified(900_000, ModCodeRepr::Code('m'))));
    let feature = alignment_feature(false, read_base, call).unwrap();
    let rows = pileup_position(&vec![(Strand::Negative, feature)], &observed, &PileupNumericOptions::Passthrough);
    let row = rows
        .iter()
        .find(|r| r.strand == Strand::Negative && r.raw_mod_code == 'm')
        .unwrap();
    assert_eq!(row.filtered_coverage, 1);
    assert_eq!(row.n_modified, 1);
    assert_eq!(row.n_canonical, 0);
    let fraction_modified = row.n_modified as f32 / row.filtered_coverage as f32;
    assert_eq!(fraction_modified, 1.0);
    let mut pileup = ModBasePileup::new("chr1".to_string());
    pileup.insert(500, rows.clone());
    assert_eq!(pileup.num_results(), 1);
    assert_eq!(pileup.iter_counts()[0].0, 500);
}

#[test]
fn filtered_call_counts_as_filtered_not_modified() {
    let caller = MultipleThresholdModCaller::new(vec![], vec![(ModCodeRepr::Code('m'), 850_000)], 0);
    let mut cache = ReadCache::new(None);
    let canonical =
        BaseModProbs::from_entries(vec![(ModCodeRepr::Code('m'), 50_000)], false).unwrap();
    let modified =
        BaseModProbs::from_entries(vec![(ModCodeRepr::Code('m'), 800_000)], false).unwrap();
    cache.add_record(1, 100, vec![(10, DnaBase::C, canonical)], vec![ModCodeRepr::Code('m')]);
    cache.add_record(2, 100, vec![(10, DnaBase::C, modified)], vec![ModCodeRepr::Code('m')]);
    let c1 = cache.get_mod_call(1, 10, DnaBase::C, &caller);
    let c2 = cache.get_mod_call(2, 10, DnaBase::C, &caller);
    assert_eq!(c1, Some(BaseModCall::Canonical(950_000)));
    assert_eq!(c2, Some(BaseModCall::Filtered));
    let features = vec![
        (Strand::Positive, alignment_feature(false, Some(DnaBase::C), c1).unwrap()),
        (Strand::Positive, alignment_feature(false, Some(DnaBase::C), c2).unwrap()),
    ];
    let rows = pileup_position(&features, &vec![ModCode::m], &PileupNumericOptions::Passthrough);
    assert_eq!(rows.len(), 1);
    assert_eq!(rows[0].raw_mod_code, 'm');
    assert_eq!(rows[0].n_canonical, 1);
    assert_eq!(rows[0].n_modified, 0);
    assert_eq!(rows[0].n_filtered, 1);
    assert_eq!(PROB_SCALE, 1_000_000);
}

#[test]
fn pileup_insert_keeps_positions_ordered() {
    let mut pileup = ModBasePileup::new("chr2".to_string());
    pileup.insert(30, vec![]);
    pileup.insert(10, vec![]);
    pileup.insert(20, vec![]);
    pileup.insert(10, vec![]);
    let positions: Vec<u32> = pileup.iter_counts().iter().map(|(p, _)| *p).collect();
    assert_eq!(positions, vec![10, 20, 30]);
    assert_eq!(PileupNumericOptions::Passthrough.get_collapse_method(), None);
}

#[test]
fn column_counts_only_primary_alignments() {
    let caller = MultipleThresholdModCaller::new(vec![], vec![], 500_000);
    let mut cache = ReadCache::new(None);
    let m_call = BaseModProbs::from_entries(vec![(ModCodeRepr::Code('m'), 900_000)], false).unwrap();
    let c_call = BaseModProbs::from_entries(vec![(ModCodeRepr::Code('m'), 100_000)], false).unwrap();
    cache.add_record(1, 100, vec![(50, DnaBase::C, m_call)], vec![ModCodeRepr::Code('m')]);
    cache.add_record(2, 100, vec![(50, DnaBase::C, c_call)], vec![ModCodeRepr::Code('m')]);
    let view = |id: u64, flags: u16, is_del: bool, base: Option<char>| AlignmentView {
        record_id: id,
        is_refskip: false,
        flags,
        seq_len: 100,
        is_del,
        is_reverse: false,
        stored_base: base,
    };
    let alignments = vec![
        view(1, 0, false, Some('C')),
        view(2, 0, false, Some('C')),
        view(1, 0x400, false, Some('C')),
        view(3, 0, true, None),
        view(4, 0, false, Some('T')),
    ];
    let rows = process_column(&cache, &alignments, 50, &caller, &PileupNumericOptions::Passthrough);
    assert_eq!(rows.len(), 1);
    let r = rows[0];
    assert_eq!(r.raw_mod_code, 'm');
    assert_eq!(r.n_modified, 1);
    assert_eq!(r.n_canonical, 1);
    assert_eq!(r.n_delete, 1);
    assert_eq!(r.n_diff, 1);
    assert_eq!(r.filtered_coverage, 2);
}

#[test]
fn column_window_and_decoding_decisions() {
    assert_eq!(column_action(5, 10, 20), ColumnAction::Skip);
    assert_eq!(column_action(10, 10, 20), ColumnAction::Process);
    assert_eq!(column_action(20, 10, 20), ColumnAction::Stop);
    let mut cache = ReadCache::new(None);
    let v = AlignmentView {
        record_id: 3,
        is_refskip: false,
        flags: 0,
        seq_len: 10,
        is_del: false,
        is_reverse: false,
        stored_base: Some('C'),
    };
    assert!(needs_decoding(&cache, &v));
    assert!(!needs_decoding(&cache, &AlignmentView { flags: 0x100, ..v }));
    cache.add_record(3, 50, vec![], vec![]);
    assert!(!needs_decoding(&cache, &v));
}
