use vstd::prelude::*;
use crate::parsing_utils::{
    chars_of, decimal_u64, fields, lemma_fields_nonempty, parse_u64, parse_u64_chars, split_fields,
    string_from_chars,
};
use crate::util::{split_char, split_on_chars};

verus! {

/// A region of interest: `[start, stop)` on a reference sequence, with a name.
#[derive(Debug, Clone, PartialEq, Eq)]
pub struct DmrInterval {
    pub start: u64,
    pub stop: u64,
    pub chrom: String,
    pub name: String,
}

/// The interval that a tab-separated line `chrom start stop name ...` gives.
pub open spec fn dmr_interval_of(line: Seq<char>) -> Option<(Seq<char>, u64, u64, Seq<char>)> {
    let parts = split_char(line, '\t');
    if parts.len() < 4 || parts[0].len() == 0 || parts[3].len() == 0 {
        None
    } else {
        match (decimal_u64(parts[1]), decimal_u64(parts[2])) {
            (Some(start), Some(stop)) => Some((parts[0], start, stop, parts[3])),
            _ => None,
        }
    }
}

/// Why a line could not be parsed.
#[derive(Debug, Clone, Copy, PartialEq, Eq, Structural)]
pub enum LineError {
    Malformed,
}

impl DmrInterval {
    pub fn new(start: u64, stop: u64, chrom: String, name: String) -> (r: DmrInterval)
        ensures
            r.start == start && r.stop == stop && r.chrom@ == chrom@ && r.name@ == name@,
    {
        DmrInterval { start, stop, chrom, name }
    }

    /// Parse `chrom<TAB>start<TAB>stop<TAB>name`, further fields ignored.
    pub fn parse_str(line: &str) -> (r: Result<DmrInterval, LineError>)
        ensures
            dmr_interval_of(line@) is None <==> r is Err,
            dmr_interval_of(line@) matches Some(v) ==> r is Ok && r->Ok_0.chrom@ == v.0
                && r->Ok_0.start == v.1 && r->Ok_0.stop == v.2 && r->Ok_0.name@ == v.3,
    {
        let chars = chars_of(line);
        let parts = split_on_chars(&chars, '\t');
        let ghost pv = parts@.map_values(|v: Vec<char>| v@);
        assert(pv.len() == parts@.len());
        if parts.len() < 4 || parts[0].len() == 0 || parts[3].len() == 0 {
            return Err(LineError::Malformed);
        }
        assert(pv[0] == parts@[0]@ && pv[1] == parts@[1]@ && pv[2] == parts@[2]@ && pv[3]
            == parts@[3]@);
        let start = parse_u64_chars(&parts[1]);
        let stop = parse_u64_chars(&parts[2]);
        match (start, stop) {
            (Some(start), Some(stop)) => {
                let chrom = string_from_chars(&parts[0]);
                let name = string_from_chars(&parts[3]);
                Ok(DmrInterval { start, stop, chrom, name })
            },
            _ => Err(LineError::Malformed),
        }
    }
}

/// The counts of one row of a bedMethyl file.
#[derive(Debug, PartialEq, Eq)]
pub struct BedMethylLine {
    pub chrom: String,
    pub start: u64,
    pub stop: u64,
    pub raw_mod_code: char,
    pub count_methylated: u64,
    pub valid_coverage: u64,
}

/// The row that a bedMethyl line gives: whitespace-separated fields, the
/// code as the first character of the fourth field (`m` of `m,CG,0`), the
/// valid coverage in the fifth and the modified count in the twelfth.
pub open spec fn bedmethyl_of(line: Seq<char>) -> Option<(Seq<char>, u64, u64, char, u64, u64)> {
    let f = fields(line);
    if f.len() < 12 {
        None
    } else {
        match (decimal_u64(f[1]), decimal_u64(f[2]), decimal_u64(f[4]), decimal_u64(f[11])) {
            (Some(start), Some(stop), Some(cov), Some(n_mod)) => Some(
                (f[0], start, stop, f[3][0], n_mod, cov),
            ),
            _ => None,
        }
    }
}

impl BedMethylLine {
    pub fn new(
        chrom: String,
        start: u64,
        stop: u64,
        raw_mod_code: char,
        count_methylated: u64,
        valid_coverage: u64,
    ) -> (r: BedMethylLine)
        ensures
            r.chrom@ == chrom@ && r.start == start && r.stop == stop && r.raw_mod_code
                == raw_mod_code && r.count_methylated == count_methylated && r.valid_coverage
                == valid_coverage,
    {
        BedMethylLine { chrom, start, stop, raw_mod_code, count_methylated, valid_coverage }
    }

    /// Parse one line of a bedMethyl file.
    pub fn parse(line: &str) -> (r: Result<BedMethylLine, LineError>)
        ensures
            bedmethyl_of(line@) is None <==> r is Err,
            bedmethyl_of(line@) matches Some(v) ==> r is Ok && r->Ok_0.chrom@ == v.0
                && r->Ok_0.start == v.1 && r->Ok_0.stop == v.2 && r->Ok_0.raw_mod_code == v.3
                && r->Ok_0.count_methylated == v.4 && r->Ok_0.valid_coverage == v.5,
    {
        let f = split_fields(line);
        let ghost fv = fields(line@);
        assert(f@.len() == fv.len());
        if f.len() < 12 {
            return Err(LineError::Malformed);
        }
        assert(f@[0]@ == fv[0] && f@[1]@ == fv[1] && f@[2]@ == fv[2] && f@[3]@ == fv[3] && f@[4]@
            == fv[4] && f@[11]@ == fv[11]);
        let start = parse_u64(f[1].as_str());
        let stop = parse_u64(f[2].as_str());
        let cov = parse_u64(f[4].as_str());
        let n_mod = parse_u64(f[11].as_str());
        match (start, stop, cov, n_mod) {
            (Some(start), Some(stop), Some(cov), Some(n_mod)) => {
                let code_field = chars_of(f[3].as_str());
                proof {
                    lemma_fields_nonempty(line@, 3);
                }
                let code = code_field[0];
                Ok(BedMethylLine {
                    chrom: f[0].clone(),
                    start,
                    stop,
                    raw_mod_code: code,
                    count_methylated: n_mod,
                    valid_coverage: cov,
                })
            },
            _ => Err(LineError::Malformed),
        }
    }
}

} // verus!
