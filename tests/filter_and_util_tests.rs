use modkit::dmr::{BedMethylLine, DmrInterval};
use modkit::mod_bam::{prob_from_ml, BaseModCall, BaseModProbs, CollapseMethod};
use modkit::mod_base_code::{DnaBase, ModCodeRepr};
use modkit::parsing_utils::{parse_u64, split_fields};
use modkit::position_filter::{
    parse_bed_line, BedRegion, ReferencePositionFilter, StrandedPositionFilter,
};
use modkit::read_cache::ReadCache;
use modkit::threshold_mod_caller::MultipleThresholdModCaller;
use modkit::util::{
    get_aligned_pair_forward, get_forward_sequence, get_reference_mod_strand, get_targets,
    record_is_secondary, InputError, Region, RunError, Strand,
};

fn names() -> Vec<(String, u32)> {
    vec![("chr1".to_string(), 0), ("chr2".to_string(), 1)]
}

#[test]
fn bed_lines_parse_to_regions() {
    assert_eq!(
        parse_bed_line("chr1\t10\t20\tx\t0\t+", &names()),
        Some(BedRegion { chrom_id: 0, start: 10, stop: 20, positive: true, negative: false })
    );
    assert_eq!(
        parse_bed_line("chr2 5 6 x 0 .", &names()),
        Some(BedRegion { chrom_id: 1, start: 5, stop: 6, positive: true, negative: true })
    );
    assert_eq!(parse_bed_line("chr3\t10\t20\tx\t0\t+", &names()), None);
    assert_eq!(parse_bed_line("chr1\t10\t20\tx\t0", &names()), None);
    assert_eq!(parse_bed_line("chr1\tten\t20\tx\t0\t+", &names()), None);
    assert_eq!(parse_bed_line("chr1\t10\t20\tx\t0\t*", &names()), None);
    assert_eq!(parse_bed_line("", &names()), None);
}

#[test]
fn stranded_filter_contains_merged_regions() {
    let lines = vec![
        "chr1\t10\t20\ta\t0\t+".to_string(),
        "chr1\t15\t30\tb\t0\t+".to_string(),
        "chr1\t100\t101\tc\t0\t.".to_string(),
        "chr2\t0\t5\td\t0\t-".to_string(),
        "chrX\t0\t5\te\t0\t-".to_string(),
        "not a bed line".to_string(),
    ];
    let filter = StrandedPositionFilter::from_bed_lines(&lines, &names());
    assert!(filter.contains(0, 10, Strand::Positive));
    assert!(filter.contains(0, 25, Strand::Positive));
    assert!(!filter.contains(0, 30, Strand::Positive));
    assert!(!filter.contains(0, 9, Strand::Positive));
    assert!(!filter.contains(0, 12, Strand::Negative));
    assert!(filter.contains(0, 100, Strand::Negative));
    assert!(filter.contains(0, 100, Strand::Positive));
    assert!(filter.contains(1, 4, Strand::Negative));
    assert!(!filter.contains(1, 4, Strand::Positive));
    assert!(!filter.contains(2, 4, Strand::Negative));
    assert!(!filter.contains(-1, 4, Strand::Negative));
    assert!(!filter.contains(0, u64::MAX, Strand::Positive));
    let touching = StrandedPositionFilter::from_bed_lines(
        &vec!["chr1\t0\t5\ta\t0\t+".to_string(), "chr1\t5\t9\tb\t0\t+".to_string()],
        &names(),
    );
    assert!((0..9).all(|p| touching.contains(0, p, Strand::Positive)));
    assert!(!touching.contains(0, 9, Strand::Positive));
}

#[test]
fn strand_chars() {
    assert_eq!(Strand::parse_char('+'), Ok(Strand::Positive));
    assert_eq!(Strand::parse_char('-'), Ok(Strand::Negative));
    assert_eq!(Strand::parse_char('.'), Err(InputError::BadStrand('.')));
    assert_eq!(Strand::Negative.to_char(), '-');
    assert_eq!(Strand::Positive.opposite(), Strand::Negative);
    assert_eq!(Strand::Negative.opposite(), Strand::Positive);
}

#[test]
fn regions_parse_and_print() {
    let r = Region::parse_raw_with_start_and_end("chr1:100-200").unwrap();
    assert_eq!(r.name, "chr1");
    assert_eq!((r.start, r.end), (100, 200));
    assert_eq!(r.length(), 100);
    assert_eq!(r.to_string(), "chr1:100-200");
    assert!(Region::parse_raw_with_start_and_end("chr1:200-100").is_err());
    assert!(Region::parse_raw_with_start_and_end("chr1:100").is_err());
    assert!(Region::parse_raw_with_start_and_end("chr1:1-2-3").is_err());
    assert!(Region::parse_raw_with_start_and_end("chr1:a-2").is_err());
    assert!(Region::parse_raw_with_start_and_end("a:b:1-2").is_err());
    let targets = vec![("chr1".to_string(), Some(1000u64)), ("chr2".to_string(), None)];
    let whole = Region::parse_str("chr1", &targets).unwrap();
    assert_eq!((whole.name.as_str(), whole.start, whole.end), ("chr1", 0, 1000));
    assert_eq!(Region::parse_str("chr2", &targets).err(), Some(InputError::UnknownReference));
    assert_eq!(Region::parse_str("chr9", &targets).err(), Some(InputError::UnknownReference));
    let part = Region::parse_str("chr2:5-10", &targets).unwrap();
    assert_eq!((part.start, part.end), (5, 10));
    let fetch = part.get_fetch_definition(&vec!["chr1".to_string(), "chr2".to_string()]).unwrap();
    assert_eq!((fetch.tid, fetch.start, fetch.end), (1, 5, 10));
    assert!(part.get_fetch_definition(&vec!["chr1".to_string()]).is_err());
}

#[test]
fn targets_follow_region_or_header() {
    let targets = vec![
        (0u32, "chr1".to_string(), Some(1000u64)),
        (1u32, "chr2".to_string(), None),
        (2u32, "chr3".to_string(), Some(50u64)),
    ];
    let all = get_targets(&targets, None);
    assert_eq!(all.len(), 2);
    assert_eq!((all[0].tid, all[0].start, all[0].length), (0, 0, 1000));
    assert_eq!((all[1].tid, all[1].name.as_str()), (2, "chr3"));
    let region = Region { name: "chr3".to_string(), start: 10, end: 40 };
    let one = get_targets(&targets, Some(&region));
    assert_eq!(one.len(), 1);
    assert_eq!((one[0].tid, one[0].start, one[0].length), (2, 10, 30));
}

#[test]
fn read_helpers() {
    assert_eq!(get_forward_sequence(&b"ACGTN".to_vec(), true), Ok(b"NACGT".to_vec()));
    assert_eq!(get_forward_sequence(&b"GaTtaCA".to_vec(), true), Ok(b"TGtaAtC".to_vec()));
    assert_eq!(get_forward_sequence(&b"ACG".to_vec(), false), Ok(b"ACG".to_vec()));
    assert_eq!(get_forward_sequence(&vec![], false), Err(RunError::Failed));
    assert_eq!(get_aligned_pair_forward(0, 10, 5, true), Some((4, 10)));
    assert_eq!(get_aligned_pair_forward(2, 10, 5, false), Some((2, 10)));
    assert_eq!(get_aligned_pair_forward(5, 10, 5, true), None);
    assert_eq!(get_aligned_pair_forward(1, -1, 5, false), None);
    assert!(record_is_secondary(0x100));
    assert!(record_is_secondary(0x800 | 0x10));
    assert!(record_is_secondary(0x400));
    assert!(!record_is_secondary(0x10));
}

#[test]
fn text_helpers() {
    assert_eq!(split_fields("  a\tbb  c "), vec!["a", "bb", "c"]);
    assert!(split_fields(" \t ").is_empty());
    assert_eq!(parse_u64("18446744073709551615"), Some(u64::MAX));
    assert_eq!(parse_u64("18446744073709551616"), None);
    assert_eq!(parse_u64(""), None);
    assert_eq!(parse_u64("+1"), None);
}

#[test]
fn read_cache_serves_and_evicts() {
    let caller = MultipleThresholdModCaller::new_passthrough();
    let mut cache = ReadCache::new(Some(CollapseMethod::ReDistribute(ModCodeRepr::Code('h'))));
    let probs = BaseModProbs::from_entries(
        vec![(ModCodeRepr::Code('h'), 400_000), (ModCodeRepr::Code('m'), 400_000)],
        false,
    )
    .unwrap();
    cache.add_record(1, 20, vec![(15, DnaBase::C, probs)], vec![ModCodeRepr::Code('h'), ModCodeRepr::Code('m')]);
    assert!(cache.contains_record(1));
    assert_eq!(
        cache.get_mod_call(1, 15, DnaBase::C, &caller),
        Some(BaseModCall::Modified(600_000, ModCodeRepr::Code('m')))
    );
    assert_eq!(cache.get_mod_call(1, 16, DnaBase::C, &caller), None);
    assert_eq!(cache.get_mod_call(1, 15, DnaBase::A, &caller), None);
    assert_eq!(cache.get_mod_call(2, 15, DnaBase::C, &caller), None);
    assert_eq!(cache.get_mod_codes_for_record(1).len(), 2);
    assert!(cache.get_mod_codes_for_record(3).is_empty());
    cache.add_record(2, 40, vec![], vec![]);
    cache.evict_ended(20);
    assert!(!cache.contains_record(1));
    assert!(cache.contains_record(2));
}

#[test]
fn test_dev_parse_bedmethyl() {
    let line = "chr20\t10034963\t10034964\tm,CG,0\t19\t-\t10034963\t10034964\t255,0,0\t19 94.74 18 1 0 0 1 0 2";
    let bm_line = BedMethylLine::parse(line).unwrap();
    let start = 10034963;
    let stop = 10034964;
    let expected = BedMethylLine::new("chr20".to_string(), start, stop, 'm', 18, 19);
    assert_eq!(bm_line, expected);
    let line = "chr20\t10034963\t10034964\tm\t19\t-\t10034963\t10034964\t255,0,0\t19 94.74 18 1 0 0 1 0 2";
    let bm_line = BedMethylLine::parse(line).unwrap();
    assert_eq!(bm_line, expected);

    let line = "oligo_1512_adapters\t9\t10\th\t4\t+\t9\t10\t255,0,0\t4\t50.00\t2\t1\t1\t0\t0\t2\t0 ";
    let bm_line = BedMethylLine::parse(line).unwrap();
    let expected = BedMethylLine::new("oligo_1512_adapters".to_string(), 9, 10, 'h', 2, 4);
    assert_eq!(bm_line, expected);
}

#[test]
fn test_parse_rois() {
    let obs = DmrInterval::parse_str(
        "chr20\t279148\t279507\tCpG: 39 359\t39\t260\t21.7\t72.4\t0.83",
    )
    .unwrap();
    let expected = DmrInterval::new(279148, 279507, "chr20".to_string(), "CpG: 39 359".to_string());
    assert_eq!(obs, expected);
    let obs = DmrInterval::parse_str(
        "chr20\t279148\t279507\tCpGby_any_other_name\t39\t260\t21.7\t72.4\t0.83",
    )
    .unwrap();
    let expected = DmrInterval::new(
        279148,
        279507,
        "chr20".to_string(),
        "CpGby_any_other_name".to_string(),
    );
    assert_eq!(obs, expected);
}

#[test]
fn malformed_text_lines_are_refused() {
    assert!(DmrInterval::parse_str("chr20\t1\t2").is_err());
    assert!(DmrInterval::parse_str("chr20\tx\t2\tname").is_err());
    assert!(BedMethylLine::parse("chr20 1 2 m 19").is_err());
}

#[test]
fn include_and_exclude_filters() {
    let wanted = StrandedPositionFilter::from_bed_lines(&vec!["chr1\t0\t100\tx\t0\t+".to_string()], &names());
    let exclude = StrandedPositionFilter::from_bed_lines(&vec!["chr1\t50\t60\tx\t0\t.".to_string()], &names());
    let f = ReferencePositionFilter { include_pos: Some(wanted), exclude_pos: Some(exclude), include_unmapped: false };
    assert!(f.keep(0, 10, Strand::Positive, Strand::Positive));
    assert!(!f.keep(0, 55, Strand::Positive, Strand::Positive));
    // a call on the read's + strand of a reverse alignment lies on the reference's - strand
    assert!(!f.keep(0, 10, Strand::Negative, Strand::Positive));
    assert!(f.keep(0, 10, Strand::Negative, Strand::Negative));
    assert!(!f.keep_call(None, Some(10), Some(Strand::Positive), Strand::Positive));
    assert!(f.keep_call(Some(0), Some(10), Some(Strand::Positive), Strand::Positive));
    let open = ReferencePositionFilter { include_pos: None, exclude_pos: None, include_unmapped: true };
    assert!(open.keep(5, 5, Strand::Negative, Strand::Positive));
    assert!(open.keep_call(None, None, None, Strand::Positive));
    assert_eq!(get_reference_mod_strand(Strand::Positive, Strand::Negative), Strand::Negative);
    assert_eq!(get_reference_mod_strand(Strand::Negative, Strand::Positive), Strand::Negative);
}

#[test]
fn quantized_probabilities_convert() {
    assert_eq!(prob_from_ml(0), 1953);
    assert_eq!(prob_from_ml(255), 998_046);
    assert_eq!(prob_from_ml(230), 900_390);
}

#[test]
fn read_cache_finds_calls_in_any_order() {
    let caller = MultipleThresholdModCaller::new_passthrough();
    let call = |p: u32| {
        BaseModProbs::from_entries(vec![(ModCodeRepr::Code('m'), p)], false).unwrap()
    };
    let mut cache = ReadCache::new(None);
    let ordered: Vec<(u64, DnaBase, BaseModProbs)> =
        (0..50).map(|i| (i * 2, DnaBase::C, call(600_000 + i as u32))).collect();
    cache.add_record(1, 200, ordered, vec![]);
    let unordered = vec![(30, DnaBase::C, call(700_000)), (10, DnaBase::A, call(800_000)), (10, DnaBase::C, call(900_000))];
    cache.add_record(2, 200, unordered, vec![]);
    for i in 0..50u64 {
        assert_eq!(
            cache.get_mod_call(1, i * 2, DnaBase::C, &caller),
            Some(BaseModCall::Modified(600_000 + i as u32, ModCodeRepr::Code('m')))
        );
        assert_eq!(cache.get_mod_call(1, i * 2 + 1, DnaBase::C, &caller), None);
    }
    assert_eq!(cache.get_mod_call(1, 4, DnaBase::A, &caller), None);
    assert_eq!(
        cache.get_mod_call(2, 10, DnaBase::C, &caller),
        Some(BaseModCall::Modified(900_000, ModCodeRepr::Code('m')))
    );
    assert_eq!(
        cache.get_mod_call(2, 10, DnaBase::A, &caller),
        Some(BaseModCall::Modified(800_000, ModCodeRepr::Code('m')))
    );
    assert_eq!(cache.get_mod_call(2, 20, DnaBase::C, &caller), None);
}
