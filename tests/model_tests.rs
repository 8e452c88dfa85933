use modkit::mod_bam::{BaseModCall, BaseModProbs, CollapseMethod, ProbsError, PROB_SCALE};
use modkit::mod_base_code::{DnaBase, ModCode, ModCodeRepr};
use modkit::threshold_mod_caller::{
    parse_base_entry, parse_code_entry, parse_probability, MultipleThresholdModCaller, ParseError,
};

fn m() -> ModCodeRepr {
    ModCodeRepr::Code('m')
}

fn h() -> ModCodeRepr {
    ModCodeRepr::Code('h')
}

fn total(p: &BaseModProbs) -> u32 {
    let sum: u32 = p.entries().iter().map(|e| e.1).sum();
    sum + p.canonical_prob()
}

#[test]
fn empty_probs_call_canonical_one() {
    let empty = BaseModProbs::new_empty(false);
    let strict = MultipleThresholdModCaller::new(vec![], vec![], PROB_SCALE);
    assert_eq!(strict.call(DnaBase::C, &empty), BaseModCall::Canonical(1_000_000));
    let pass = MultipleThresholdModCaller::new_passthrough();
    assert_eq!(pass.call(DnaBase::A, &empty), BaseModCall::Canonical(1_000_000));
    assert_eq!(empty.argmax_base_mod_call(), BaseModCall::Canonical(1_000_000));
}

#[test]
fn call_is_filtered_below_threshold_only() {
    let probs = BaseModProbs::from_entries(vec![(h(), 100_000), (m(), 700_000)], false).unwrap();
    assert_eq!(probs.argmax_base_mod_call(), BaseModCall::Modified(700_000, m()));
    let at = MultipleThresholdModCaller::new(vec![], vec![], 700_000);
    assert_eq!(at.call(DnaBase::C, &probs), BaseModCall::Modified(700_000, m()));
    let above = MultipleThresholdModCaller::new(vec![], vec![], 700_001);
    assert_eq!(above.call(DnaBase::C, &probs), BaseModCall::Filtered);
    let pass = MultipleThresholdModCaller::new_passthrough();
    assert_eq!(pass.call(DnaBase::C, &probs), BaseModCall::Modified(700_000, m()));
}

#[test]
fn canonical_wins_ties_and_first_code_wins_among_codes() {
    let tie = BaseModProbs::from_entries(vec![(m(), 500_000)], false).unwrap();
    assert_eq!(tie.argmax_base_mod_call(), BaseModCall::Canonical(500_000));
    let codes = BaseModProbs::from_entries(vec![(h(), 450_000), (m(), 450_000)], false).unwrap();
    assert_eq!(codes.argmax_base_mod_call(), BaseModCall::Modified(450_000, h()));
}

#[test]
fn threshold_resolution_prefers_code_then_base() {
    let caller = MultipleThresholdModCaller::new(
        vec![(DnaBase::C, 800_000)],
        vec![(m(), 950_000)],
        650_000,
    );
    assert_eq!(caller.resolve_threshold(DnaBase::C, Some(m())), 950_000);
    assert_eq!(caller.resolve_threshold(DnaBase::C, Some(h())), 800_000);
    assert_eq!(caller.resolve_threshold(DnaBase::C, None), 800_000);
    assert_eq!(caller.resolve_threshold(DnaBase::A, None), 650_000);
}

#[test]
fn entries_must_be_ordered_and_sum_to_at_most_one() {
    assert_eq!(
        BaseModProbs::from_entries(vec![(m(), 1), (h(), 1)], false).err(),
        Some(ProbsError::UnsortedCodes)
    );
    assert_eq!(
        BaseModProbs::from_entries(vec![(h(), 600_000), (m(), 600_000)], false).err(),
        Some(ProbsError::TotalAboveOne)
    );
    let ok = BaseModProbs::from_entries(vec![(ModCodeRepr::Code('a'), 1), (ModCodeRepr::ChEBI(5), 2)], true)
        .unwrap();
    assert!(ok.inferred());
    assert_eq!(ok.canonical_prob(), 999_997);
}

#[test]
fn collapse_removes_code_and_keeps_total() {
    let probs = BaseModProbs::from_entries(vec![(h(), 300_000), (m(), 600_000)], false).unwrap();
    assert_eq!(total(&probs), 1_000_000);
    let collapsed = probs.to_collapsed(&CollapseMethod::ReDistribute(h()));
    assert_eq!(collapsed.entries(), vec![(m(), 750_000)]);
    assert_eq!(collapsed.canonical_prob(), 250_000);
    assert_eq!(total(&collapsed), 1_000_000);
    let uneven = BaseModProbs::from_entries(vec![(h(), 100_001), (m(), 1)], false).unwrap();
    let c = uneven.into_collapsed(&CollapseMethod::ReDistribute(h()));
    assert_eq!(c.entries(), vec![(m(), 50_001)]);
    assert_eq!(total(&c), 1_000_000);
    let absent = BaseModProbs::from_entries(vec![(m(), 10)], false).unwrap();
    let same = absent.into_collapsed(&CollapseMethod::ReDistribute(h()));
    assert_eq!(same.entries(), vec![(m(), 10)]);
    assert_eq!(CollapseMethod::ReDistribute(h()).get_codes_to_remove(), vec![h()]);
}

#[test]
fn bases_and_codes() {
    assert_eq!(DnaBase::parse('c'), Some(DnaBase::C));
    assert_eq!(DnaBase::parse('N'), None);
    assert_eq!(DnaBase::A.complement(), DnaBase::T);
    assert_eq!(DnaBase::G.char(), 'G');
    assert_eq!(DnaBase::C.canonical_mod_code(), ModCode::C);
    assert!(ModCode::C.is_canonical());
    assert!(!ModCode::m.is_canonical());
    assert_eq!(ModCode::h.char(), 'h');
    assert_eq!(ModCode::parse_raw_mod_code(ModCodeRepr::ChEBI(27551)), Some(ModCode::m));
    assert_eq!(ModCode::parse_raw_mod_code(ModCodeRepr::ChEBI(28871)), Some(ModCode::a));
    assert_eq!(ModCode::parse_raw_mod_code(ModCodeRepr::Code('f')), None);
    assert!(ModCodeRepr::Code('h').precedes(&ModCodeRepr::Code('m')));
    assert!(ModCodeRepr::Code('z').precedes(&ModCodeRepr::ChEBI(1)));
}

#[test]
fn probabilities_parse_in_parts_per_million() {
    assert_eq!(parse_probability(&"0.85".chars().collect()), Ok(850_000));
    assert_eq!(parse_probability(&"1".chars().collect()), Ok(1_000_000));
    assert_eq!(parse_probability(&"0.000001".chars().collect()), Ok(1));
    assert_eq!(parse_probability(&"1.5".chars().collect()), Err(ParseError::BadProbability));
    assert_eq!(parse_probability(&"0.1234567".chars().collect()), Err(ParseError::BadProbability));
    assert_eq!(parse_probability(&"x".chars().collect()), Err(ParseError::BadProbability));
}

#[test]
fn threshold_entries_parse() {
    assert_eq!(parse_base_entry("C:0.8"), Ok((Some(DnaBase::C), 800_000)));
    assert_eq!(parse_base_entry("0.8"), Ok((None, 800_000)));
    assert_eq!(parse_base_entry("X:0.8"), Err(ParseError::BadBase));
    assert_eq!(parse_code_entry("m:0.95"), Ok((m(), 950_000)));
    assert_eq!(parse_code_entry("27551:0.95"), Ok((ModCodeRepr::ChEBI(27551), 950_000)));
    assert_eq!(parse_code_entry("mh:0.95"), Err(ParseError::BadCode));
    assert_eq!(parse_code_entry("m"), Err(ParseError::BadEntry));
}

#[test]
fn caller_from_text() {
    let filters = vec!["A:0.65".to_string(), "C:0.85".to_string()];
    let mods = vec!["a:0.95".to_string(), "m:0.95".to_string()];
    let caller = MultipleThresholdModCaller::from_text(&filters, &mods).unwrap();
    assert_eq!(caller.resolve_threshold(DnaBase::A, None), 650_000);
    assert_eq!(caller.resolve_threshold(DnaBase::C, Some(m())), 950_000);
    assert_eq!(caller.resolve_threshold(DnaBase::T, None), 0);
    let bare = MultipleThresholdModCaller::from_text(&vec!["0.7".to_string()], &vec![]).unwrap();
    assert_eq!(bare.resolve_threshold(DnaBase::G, None), 700_000);
    let mixed = vec!["0.7".to_string(), "C:0.8".to_string()];
    assert_eq!(
        MultipleThresholdModCaller::from_text(&mixed, &vec![]).err(),
        Some(ParseError::BareThreshold)
    );
    assert_eq!(
        MultipleThresholdModCaller::from_text(&vec!["Q:0.7".to_string()], &vec![]).err(),
        Some(ParseError::BadBase)
    );
}

#[test]
fn user_thresholds_supersede_estimates() {
    let caller = MultipleThresholdModCaller::with_estimates(
        vec![(DnaBase::C, 700_000), (DnaBase::A, 600_000)],
        vec![(DnaBase::C, 900_000)],
        vec![(m(), 950_000)],
        0,
    );
    assert_eq!(caller.resolve_threshold(DnaBase::C, None), 900_000);
    assert_eq!(caller.resolve_threshold(DnaBase::A, None), 600_000);
    assert_eq!(caller.resolve_threshold(DnaBase::T, None), 0);
    assert_eq!(caller.resolve_threshold(DnaBase::C, Some(m())), 950_000);
}

#[test]
fn unordered_entries_are_put_in_code_order() {
    let p = BaseModProbs::from_unordered(&vec![(m(), 200_000), (h(), 100_000)], false).unwrap();
    assert_eq!(p.entries(), vec![(h(), 100_000), (m(), 200_000)]);
    assert_eq!(
        BaseModProbs::from_unordered(&vec![(m(), 1), (h(), 1), (m(), 2)], false).err(),
        Some(ProbsError::DuplicateCode)
    );
    assert_eq!(
        BaseModProbs::from_unordered(&vec![(m(), 600_000), (h(), 600_000)], false).err(),
        Some(ProbsError::TotalAboveOne)
    );
    assert!(BaseModProbs::from_unordered(&vec![], true).unwrap().is_empty());
}
