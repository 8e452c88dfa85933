use modkit::interval_chunks::IntervalChunks;
use modkit::mod_bam::{BaseModProbs, CollapseMethod};
use modkit::mod_base_code::{DnaBase, ModCodeRepr};
use modkit::read_ids_to_base_mod_probs::{process_records, ReadCalls, ReadIdsToBaseModProbs};
use modkit::reads_sampler::{Indicator, RecordSampler, SamplingSchedule};
use modkit::thresholds::{estimate_threshold, mle_probs, Percentiles, ThresholdError};

#[test]
fn chunks_cover_range_without_gaps() {
    let chunks = IntervalChunks::new(1000, 300, 100).all_chunks();
    assert_eq!(chunks, vec![(100, 400), (400, 700), (700, 1000)]);
    let chunks = IntervalChunks::new(1001, 300, 100).all_chunks();
    assert_eq!(chunks.len(), 4);
    assert_eq!(chunks[3], (1000, 1001));
    for w in chunks.windows(2) {
        assert_eq!(w[0].1, w[1].0);
    }
    assert!(IntervalChunks::new(10, 5, 10).all_chunks().is_empty());
    assert!(IntervalChunks::new(10, 5, 20).all_chunks().is_empty());
}

#[test]
fn chunks_iterate_and_restart() {
    let mut it = IntervalChunks::new(25, 10, 0);
    assert_eq!(it.next_chunk(), Some((0, 10)));
    assert_eq!(it.next_chunk(), Some((10, 20)));
    assert_eq!(it.next_chunk(), Some((20, 25)));
    assert_eq!(it.next_chunk(), None);
    it.reset();
    assert_eq!(it.next_chunk(), Some((0, 10)));
    let big = IntervalChunks::new(u32::MAX, u32::MAX, 0).all_chunks();
    assert_eq!(big, vec![(0, u32::MAX)]);
}

#[test]
fn percentiles_at_extremes_are_min_and_max() {
    let samples = vec![500_000, 100_000, 900_000, 300_000];
    let p = Percentiles::compute(&samples, &vec![0, 1_000_000, 500_000]).unwrap();
    assert_eq!(p.qs[0], (0, 100_000));
    assert_eq!(p.qs[1], (1_000_000, 900_000));
    // sorted 0.1 0.3 0.5 0.9; position 1.5 lies halfway between 0.3 and 0.5
    assert_eq!(p.qs[2], (500_000, 400_000));
    let one = Percentiles::compute(&vec![42], &vec![0, 250_000, 1_000_000]).unwrap();
    assert!(one.qs.iter().all(|(_, v)| *v == 42));
}

#[test]
fn percentile_errors() {
    assert_eq!(Percentiles::compute(&vec![], &vec![0]).err(), Some(ThresholdError::EmptySample));
    assert_eq!(
        Percentiles::compute(&vec![1, 2], &vec![1_000_001]).err(),
        Some(ThresholdError::InvalidQuantile)
    );
}

fn read(name: &str, probs: Vec<u32>) -> ReadCalls {
    let calls = probs
        .into_iter()
        .map(|p| {
            (
                DnaBase::C,
                BaseModProbs::from_entries(vec![(ModCodeRepr::Code('m'), p)], false).unwrap(),
            )
        })
        .collect();
    ReadCalls { name: name.to_string(), calls }
}

#[test]
fn zero_fraction_samples_nothing_and_estimation_fails() {
    let mut sampler = RecordSampler::new_fraction(0, 42);
    for _ in 0..100 {
        assert_eq!(sampler.ask(), Indicator::Skip);
    }
    let mut sampler = RecordSampler::new_fraction(0, 7);
    let records = vec![read("r1", vec![900_000]), read("r2", vec![100_000])];
    let sampled = process_records(records, &mut sampler, None);
    assert_eq!(sampled.num_reads(), 0);
    let probs = sampled.mle_probs_per_base(DnaBase::C);
    assert!(probs.is_empty());
    let empty: Vec<BaseModProbs> = Vec::new();
    assert_eq!(
        estimate_threshold(DnaBase::C, &empty, 100_000).err(),
        Some(ThresholdError::EmptySampleForBase(DnaBase::C))
    );
    assert_eq!(Percentiles::compute(&probs, &vec![100_000]).err(), Some(ThresholdError::EmptySample));
}

#[test]
fn sampler_is_deterministic_under_a_seed() {
    let mut a = RecordSampler::new_fraction(500_000, 1234);
    let mut b = RecordSampler::new_fraction(500_000, 1234);
    let xs: Vec<Indicator> = (0..50).map(|_| a.ask()).collect();
    let ys: Vec<Indicator> = (0..50).map(|_| b.ask()).collect();
    assert_eq!(xs, ys);
    assert!(xs.contains(&Indicator::Use));
    assert!(xs.contains(&Indicator::Skip));
    let mut all = RecordSampler::new_fraction(1_000_000, 3);
    assert!((0..20).all(|_| all.ask() == Indicator::Use));
}

#[test]
fn count_sampler_stops_after_quota() {
    let mut sampler = RecordSampler::new_num_reads(2);
    let records = vec![
        read("r1", vec![900_000]),
        read("r1", vec![800_000]),
        read("r2", vec![]),
        read("r3", vec![700_000]),
        read("r4", vec![600_000]),
    ];
    let sampled = process_records(records, &mut sampler, None);
    // r1 is kept once, r2 has no calls and is not counted as used
    assert_eq!(sampled.num_reads(), 3);
    assert_eq!(sampled.mle_probs_per_base(DnaBase::C), vec![900_000, 700_000]);
    let mut pass = RecordSampler::new_passthrough();
    assert_eq!(pass.ask(), Indicator::Use);
}

#[test]
fn estimated_threshold_is_percentile_of_winning_probs() {
    let probs: Vec<BaseModProbs> = vec![50_000, 700_000, 900_000, 400_000]
        .into_iter()
        .map(|p| BaseModProbs::from_entries(vec![(ModCodeRepr::Code('m'), p)], false).unwrap())
        .collect();
    // winning probabilities: 0.95, 0.7, 0.9, 0.6
    assert_eq!(mle_probs(&probs), vec![950_000, 700_000, 900_000, 600_000]);
    assert_eq!(estimate_threshold(DnaBase::C, &probs, 0), Ok(600_000));
    assert_eq!(estimate_threshold(DnaBase::C, &probs, 1_000_000), Ok(950_000));
    assert_eq!(
        estimate_threshold(DnaBase::C, &probs, 2_000_000).err(),
        Some(ThresholdError::InvalidQuantile)
    );
    let mut acc = ReadIdsToBaseModProbs::zero();
    acc.add_read(read("x", vec![100_000]));
    assert!(acc.seen(&"x".to_string()));
    assert!(!acc.seen(&"y".to_string()));
}

#[test]
fn schedule_shares_quota_by_length() {
    let s = SamplingSchedule::from_lengths(&vec![100, 300, 600], 10);
    assert_eq!(s.quotas, vec![1, 3, 6]);
    let s = SamplingSchedule::from_lengths(&vec![1, 1, 1], 10);
    assert_eq!(s.quotas, vec![3, 3, 3]);
    let s = SamplingSchedule::from_lengths(&vec![0, 0], 10);
    assert_eq!(s.quotas, vec![0, 0]);
}

#[test]
fn merged_samples_keep_first_reads_and_estimate() {
    let mut a = ReadIdsToBaseModProbs::zero();
    a.add_read(read("r1", vec![900_000, 800_000]));
    let mut b = ReadIdsToBaseModProbs::zero();
    b.add_read(read("r1", vec![100_000]));
    b.add_read(read("r2", vec![700_000]));
    a.op_mut(b);
    assert_eq!(a.num_reads(), 2);
    assert_eq!(a.mle_probs_per_base(DnaBase::C), vec![900_000, 800_000, 700_000]);
    assert_eq!(a.estimate_threshold(DnaBase::C, 0), Ok(700_000));
    assert_eq!(a.estimate_threshold(DnaBase::C, 500_000), Ok(800_000));
    assert_eq!(
        a.estimate_threshold(DnaBase::A, 500_000),
        Err(ThresholdError::EmptySampleForBase(DnaBase::A))
    );
}

#[test]
fn winning_probabilities_by_state() {
    let mut acc = ReadIdsToBaseModProbs::zero();
    // winners: m 0.9, canonical 0.8, m 0.7
    acc.add_read(read("r1", vec![900_000, 200_000]));
    acc.add_read(read("r2", vec![700_000]));
    assert_eq!(acc.mle_probs_per_state(DnaBase::C, Some(ModCodeRepr::Code('m'))), vec![900_000, 700_000]);
    assert_eq!(acc.mle_probs_per_state(DnaBase::C, None), vec![800_000]);
    assert!(acc.mle_probs_per_state(DnaBase::A, None).is_empty());
    assert_eq!(acc.size(), 3);
}

#[test]
fn sampling_collapses_calls_when_asked() {
    let mut sampler = RecordSampler::new_passthrough();
    let probs = BaseModProbs::from_entries(
        vec![(ModCodeRepr::Code('h'), 400_000), (ModCodeRepr::Code('m'), 400_000)],
        false,
    )
    .unwrap();
    let records = vec![ReadCalls { name: "r1".to_string(), calls: vec![(DnaBase::C, probs)] }];
    let method = CollapseMethod::ReDistribute(ModCodeRepr::Code('h'));
    let sampled = process_records(records, &mut sampler, Some(&method));
    assert_eq!(sampled.num_reads(), 1);
    assert_eq!(sampled.mle_probs_per_state(DnaBase::C, Some(ModCodeRepr::Code('m'))), vec![600_000]);
    assert!(sampled.mle_probs_per_state(DnaBase::C, Some(ModCodeRepr::Code('h'))).is_empty());
}

#[test]
fn streaming_sampling_takes_each_name_once() {
    let mut sampler = RecordSampler::new_num_reads(1);
    let mut acc = ReadIdsToBaseModProbs::zero();
    assert_eq!(sampler.ask(), Indicator::Use);
    acc.take_sampled(read("r1", vec![900_000]), &mut sampler, None);
    assert_eq!(sampler.ask(), Indicator::Done);
    let mut open = RecordSampler::new_passthrough();
    acc.take_sampled(read("r1", vec![100_000]), &mut open, None);
    assert_eq!(acc.num_reads(), 1);
    assert_eq!(acc.mle_probs_per_base(DnaBase::C), vec![900_000]);
}
