use vstd::prelude::*;
use crate::mod_bam::{argmax_call, call_prob, BaseModCall, BaseModProbs, PROB_SCALE};
use crate::mod_base_code::{base_of_char, DnaBase, ModCodeRepr};
use crate::parsing_utils::{
    all_digits, chars_of, decimal_u64, digits_value, lemma_digits_value_nonneg, parse_u64_chars,
};
use crate::util::{split_char, split_on_chars};

verus! {

/// The first threshold listed for a base.
pub open spec fn base_threshold(s: Seq<(DnaBase, u32)>, b: DnaBase) -> Option<u32>
    decreases s.len(),
{
    if s.len() == 0 {
        None
    } else if s[0].0 == b {
        Some(s[0].1)
    } else {
        base_threshold(s.drop_first(), b)
    }
}

proof fn lemma_base_threshold_concat(a: Seq<(DnaBase, u32)>, b: Seq<(DnaBase, u32)>, x: DnaBase)
    ensures
        base_threshold(a + b, x) == match base_threshold(a, x) {
            Some(t) => Some(t),
            None => base_threshold(b, x),
        },
    decreases a.len(),
{
    if a.len() > 0 {
        assert((a + b).drop_first() =~= a.drop_first() + b);
        assert((a + b)[0] == a[0]);
        lemma_base_threshold_concat(a.drop_first(), b, x);
    } else {
        assert(a + b =~= b);
    }
}

/// The first threshold listed for a modification code.
pub open spec fn code_threshold(s: Seq<(ModCodeRepr, u32)>, c: ModCodeRepr) -> Option<u32>
    decreases s.len(),
{
    if s.len() == 0 {
        None
    } else if s[0].0 == c {
        Some(s[0].1)
    } else {
        code_threshold(s.drop_first(), c)
    }
}

/// The threshold for a call: the code's own, else the base's, else the default.
pub open spec fn resolved_threshold(
    bases: Seq<(DnaBase, u32)>,
    codes: Seq<(ModCodeRepr, u32)>,
    default: u32,
    base: DnaBase,
    code: Option<ModCodeRepr>,
) -> u32 {
    let for_base = match base_threshold(bases, base) {
        Some(t) => t,
        None => default,
    };
    match code {
        Some(c) => match code_threshold(codes, c) {
            Some(t) => t,
            None => for_base,
        },
        None => for_base,
    }
}

/// The code of a call, if it is a modification.
pub open spec fn call_code(c: BaseModCall) -> Option<ModCodeRepr> {
    match c {
        BaseModCall::Modified(_, code) => Some(code),
        _ => None,
    }
}

/// Calling thresholds: a default, per-base overrides and per-code overrides.
pub struct MultipleThresholdModCaller {
    base_thresholds: Vec<(DnaBase, u32)>,
    mod_thresholds: Vec<(ModCodeRepr, u32)>,
    default_threshold: u32,
}

impl MultipleThresholdModCaller {
    pub closed spec fn bases(&self) -> Seq<(DnaBase, u32)> {
        self.base_thresholds@
    }

    pub closed spec fn codes(&self) -> Seq<(ModCodeRepr, u32)> {
        self.mod_thresholds@
    }

    pub closed spec fn default(&self) -> u32 {
        self.default_threshold
    }

    /// The threshold that `call` applies to a winning code (`None` for the
    /// canonical state) on a base.
    pub open spec fn threshold_for(&self, base: DnaBase, code: Option<ModCodeRepr>) -> u32 {
        resolved_threshold(self.bases(), self.codes(), self.default(), base, code)
    }

    /// What `call` returns: `Canonical(1)` without entries, else the most
    /// probable state, or `Filtered` where its probability is under its
    /// threshold.
    pub open spec fn call_spec(&self, base: DnaBase, probs: Seq<(ModCodeRepr, u32)>) -> BaseModCall {
        if probs.len() == 0 {
            BaseModCall::Canonical(PROB_SCALE)
        } else {
            let c = argmax_call(probs);
            if call_prob(c) < self.threshold_for(base, call_code(c)) {
                BaseModCall::Filtered
            } else {
                c
            }
        }
    }

    pub fn new(
        base_thresholds: Vec<(DnaBase, u32)>,
        mod_thresholds: Vec<(ModCodeRepr, u32)>,
        default_threshold: u32,
    ) -> (r: MultipleThresholdModCaller)
        ensures
            r.bases() == base_thresholds@,
            r.codes() == mod_thresholds@,
            r.default() == default_threshold,
    {
        MultipleThresholdModCaller { base_thresholds, mod_thresholds, default_threshold }
    }

    /// A caller from estimated per-base thresholds, where the user's own
    /// per-base values supersede the estimates and the user's per-code values
    /// apply to their codes.
    pub fn with_estimates(
        estimated: Vec<(DnaBase, u32)>,
        user_bases: Vec<(DnaBase, u32)>,
        user_codes: Vec<(ModCodeRepr, u32)>,
        default_threshold: u32,
    ) -> (r: MultipleThresholdModCaller)
        ensures
            r.bases() == user_bases@ + estimated@,
            r.codes() == user_codes@,
            r.default() == default_threshold,
            forall|b: DnaBase|
                base_threshold(user_bases@, b) is Some ==> r.threshold_for(b, None)
                    == base_threshold(user_bases@, b)->Some_0,
            forall|b: DnaBase|
                base_threshold(user_bases@, b) is None ==> r.threshold_for(b, None) == match base_threshold(
                    estimated@,
                    b,
                ) {
                    Some(t) => t,
                    None => default_threshold,
                },
    {
        let mut bases = user_bases;
        let ghost ub = bases@;
        let mut est = estimated;
        bases.append(&mut est);
        proof {
            assert forall|b: DnaBase| #[trigger] base_threshold(bases@, b) == match base_threshold(ub, b) {
                Some(t) => Some(t),
                None => base_threshold(estimated@, b),
            } by {
                lemma_base_threshold_concat(ub, estimated@, b);
            }
        }
        MultipleThresholdModCaller { base_thresholds: bases, mod_thresholds: user_codes, default_threshold }
    }

    /// A caller that filters nothing.
    pub fn new_passthrough() -> (r: MultipleThresholdModCaller)
        ensures
            forall|b: DnaBase, c: Option<ModCodeRepr>| r.threshold_for(b, c) == 0,
    {
        MultipleThresholdModCaller {
            base_thresholds: Vec::new(),
            mod_thresholds: Vec::new(),
            default_threshold: 0,
        }
    }

    pub fn resolve_threshold(&self, base: DnaBase, code: Option<ModCodeRepr>) -> (r: u32)
        ensures
            r == self.threshold_for(base, code),
    {
        if let Some(c) = code {
            let mut i: usize = 0;
            assert(self.codes().subrange(0, self.codes().len() as int) =~= self.codes());
            while i < self.mod_thresholds.len()
                invariant
                    code == Some(c),
                    i <= self.mod_thresholds.len(),
                    code_threshold(self.codes(), c) == code_threshold(
                        self.codes().subrange(i as int, self.codes().len() as int),
                        c,
                    ),
                decreases self.mod_thresholds.len() - i,
            {
                let ghost rest = self.codes().subrange(i as int, self.codes().len() as int);
                assert(rest.drop_first() =~= self.codes().subrange(
                    i as int + 1,
                    self.codes().len() as int,
                ));
                assert(rest[0] == self.codes()[i as int]);
                if self.mod_thresholds[i].0 == c {
                    assert(rest.len() > 0);
                    assert(code_threshold(rest, c) == Some(rest[0].1));
                    return self.mod_thresholds[i].1;
                }
                i = i + 1;
            }
        }
        let mut j: usize = 0;
        assert(self.bases().subrange(0, self.bases().len() as int) =~= self.bases());
        while j < self.base_thresholds.len()
            invariant
                j <= self.base_thresholds.len(),
                base_threshold(self.bases(), base) == base_threshold(
                    self.bases().subrange(j as int, self.bases().len() as int),
                    base,
                ),
                code matches Some(c) ==> code_threshold(self.codes(), c) is None,
            decreases self.base_thresholds.len() - j,
        {
            let ghost rest = self.bases().subrange(j as int, self.bases().len() as int);
            assert(rest.drop_first() =~= self.bases().subrange(
                j as int + 1,
                self.bases().len() as int,
            ));
            assert(rest[0] == self.bases()[j as int]);
            if self.base_thresholds[j].0 == base {
                return self.base_thresholds[j].1;
            }
            j = j + 1;
        }
        self.default_threshold
    }

    /// Call the base: the most probable state, `Filtered` if its probability
    /// is under the threshold for that state. Empty probabilities give
    /// `Canonical(1)` whatever the thresholds.
    pub fn call(&self, base: DnaBase, probs: &BaseModProbs) -> (r: BaseModCall)
        requires
            probs.wf(),
        ensures
            r == self.call_spec(base, probs.view()),
            probs.view().len() == 0 ==> r == BaseModCall::Canonical(PROB_SCALE),
            probs.view().len() > 0 ==> (r is Filtered <==> call_prob(argmax_call(probs.view()))
                < self.threshold_for(base, call_code(argmax_call(probs.view())))),
    {
        if probs.is_empty() {
            return BaseModCall::Canonical(PROB_SCALE);
        }
        let c = probs.argmax_base_mod_call();
        let (p, code) = match c {
            BaseModCall::Canonical(p) => (p, None),
            BaseModCall::Modified(p, code) => (p, Some(code)),
            BaseModCall::Filtered => (0, None),
        };
        let t = self.resolve_threshold(base, code);
        if p < t {
            BaseModCall::Filtered
        } else {
            c
        }
    }
}

/// Why user-supplied thresholds were refused.
#[derive(Debug, Clone, Copy, PartialEq, Eq, Structural)]
pub enum ParseError {
    /// A base other than A, C, G or T.
    BadBase,
    /// A modification code that is neither one character nor a number.
    BadCode,
    /// A probability that is not a decimal number between 0 and 1 with at
    /// most six decimals.
    BadProbability,
    /// A threshold without a base among several thresholds.
    BareThreshold,
    /// An entry that is not `key:value`.
    BadEntry,
}

pub open spec fn pow10(n: nat) -> int
    decreases n,
{
    if n == 0 {
        1
    } else {
        10 * pow10((n - 1) as nat)
    }
}

/// The probability, in parts per million, that `0.85`-style text writes.
pub open spec fn prob_of(s: Seq<char>) -> Option<u32> {
    let parts = split_char(s, '.');
    let value = if parts.len() == 1 && all_digits(parts[0]) {
        Some(digits_value(parts[0]) * PROB_SCALE)
    } else if parts.len() == 2 && all_digits(parts[0]) && all_digits(parts[1]) && parts[1].len()
        <= 6 {
        Some(digits_value(parts[0]) * PROB_SCALE + digits_value(parts[1]) * pow10(
            (6 - parts[1].len()) as nat,
        ))
    } else {
        None
    };
    match value {
        Some(v) => if v <= PROB_SCALE {
            Some(v as u32)
        } else {
            None
        },
        None => None,
    }
}

proof fn lemma_digits_value_bound(s: Seq<char>)
    requires
        forall|i: int| 0 <= i < s.len() ==> '0' <= #[trigger] s[i] <= '9',
    ensures
        0 <= digits_value(s) < pow10(s.len()),
    decreases s.len(),
{
    if s.len() > 0 {
        lemma_digits_value_bound(s.drop_last());
    }
}

/// Parse a probability written in decimal, at most one.
pub fn parse_probability(chars: &Vec<char>) -> (r: Result<u32, ParseError>)
    ensures
        prob_of(chars@) matches Some(v) ==> r == Ok::<u32, ParseError>(v),
        prob_of(chars@) is None ==> r == Err::<u32, ParseError>(ParseError::BadProbability),
{
    let parts = split_on_chars(chars, '.');
    let ghost pv = parts@.map_values(|v: Vec<char>| v@);
    assert(pv.len() == parts@.len());
    if parts.len() == 1 {
        assert(pv[0] == parts@[0]@);
        match parse_u64_chars(&parts[0]) {
            Some(v) => {
                assert(digits_value(pv[0]) == v);
                if v <= 1 {
                    assert(prob_of(chars@) == Some((v * 1_000_000) as u32));
                    return Ok((v as u32) * PROB_SCALE);
                }
                assert(prob_of(chars@) is None);
                return Err(ParseError::BadProbability);
            },
            None => {
                proof {
                    if all_digits(pv[0]) {
                        lemma_digits_value_nonneg(pv[0]);
                    }
                }
                return Err(ParseError::BadProbability);
            },
        }
    }
    if parts.len() != 2 {
        return Err(ParseError::BadProbability);
    }
    assert(pv[0] == parts@[0]@ && pv[1] == parts@[1]@);
    proof {
        lemma_pow10_pos((6 - pv[1].len()) as nat);
        if all_digits(pv[0]) {
            lemma_digits_value_nonneg(pv[0]);
        }
        if all_digits(pv[1]) {
            lemma_digits_value_nonneg(pv[1]);
            assert(digits_value(pv[1]) * pow10((6 - pv[1].len()) as nat) >= 0) by (nonlinear_arith)
                requires
                    digits_value(pv[1]) >= 0,
                    pow10((6 - pv[1].len()) as nat) >= 1,
            ;
        }
    }
    let int_part = match parse_u64_chars(&parts[0]) {
        Some(v) => v,
        None => {
            return Err(ParseError::BadProbability);
        },
    };
    let n_frac = parts[1].len();
    if n_frac > 6 || n_frac == 0 {
        return Err(ParseError::BadProbability);
    }
    let frac = match parse_u64_chars(&parts[1]) {
        Some(v) => v,
        None => {
            proof {
                if all_digits(pv[1]) {
                    lemma_digits_value_bound(pv[1]);
                    reveal_with_fuel(pow10, 7);
                    assert(pow10(pv[1].len()) <= 1_000_000);
                }
            }
            return Err(ParseError::BadProbability);
        },
    };
    assert(int_part == digits_value(pv[0]));
    assert(frac == digits_value(pv[1]));
    if int_part > 1 {
        return Err(ParseError::BadProbability);
    }
    proof {
        lemma_digits_value_bound(pv[1]);
    }
    let scale: u64 = if n_frac == 1 {
        100_000
    } else if n_frac == 2 {
        10_000
    } else if n_frac == 3 {
        1_000
    } else if n_frac == 4 {
        100
    } else if n_frac == 5 {
        10
    } else {
        1
    };
    proof {
        reveal_with_fuel(pow10, 7);
        assert(scale == pow10((6 - n_frac) as nat));
        lemma_pow10_add(n_frac as nat, (6 - n_frac) as nat);
        assert(pow10(6) == 1_000_000);
    }
    assert(frac * scale < 1_000_000) by (nonlinear_arith)
        requires
            frac < pow10(n_frac as nat),
            scale == pow10((6 - n_frac) as nat),
            pow10(n_frac as nat) * pow10((6 - n_frac) as nat) == 1_000_000,
            scale >= 1,
    ;
    let v = int_part * (PROB_SCALE as u64) + frac * scale;
    if v > PROB_SCALE as u64 {
        return Err(ParseError::BadProbability);
    }
    Ok(v as u32)
}

proof fn lemma_pow10_pos(n: nat)
    ensures
        pow10(n) >= 1,
    decreases n,
{
    if n > 0 {
        lemma_pow10_pos((n - 1) as nat);
    }
}

proof fn lemma_pow10_add(a: nat, b: nat)
    ensures
        pow10(a) * pow10(b) == pow10(a + b),
    decreases a,
{
    if a > 0 {
        lemma_pow10_add((a - 1) as nat, b);
        assert(pow10(a) == 10 * pow10((a - 1) as nat));
        assert(pow10(a + b) == 10 * pow10((a + b - 1) as nat));
        assert(pow10(a) * pow10(b) == 10 * (pow10((a - 1) as nat) * pow10(b))) by (nonlinear_arith)
            requires pow10(a) == 10 * pow10((a - 1) as nat);
    }
}

/// A base threshold entry: `X:p` for a base, or a bare probability (`None`).
pub open spec fn base_entry_of(s: Seq<char>) -> Result<(Option<DnaBase>, u32), ParseError> {
    let parts = split_char(s, ':');
    if parts.len() == 1 {
        match prob_of(parts[0]) {
            Some(p) => Ok((None, p)),
            None => Err(ParseError::BadProbability),
        }
    } else if parts.len() == 2 {
        if parts[0].len() != 1 || base_of_char(parts[0][0]) is None || !('A' <= parts[0][0] <= 'Z') {
            Err(ParseError::BadBase)
        } else {
            match prob_of(parts[1]) {
                Some(p) => Ok((base_of_char(parts[0][0]), p)),
                None => Err(ParseError::BadProbability),
            }
        }
    } else {
        Err(ParseError::BadEntry)
    }
}

/// A code threshold entry: `c:p` for a one-character code, or `n:p` for a
/// numeric one.
pub open spec fn code_entry_of(s: Seq<char>) -> Result<(ModCodeRepr, u32), ParseError> {
    let parts = split_char(s, ':');
    if parts.len() != 2 {
        Err(ParseError::BadEntry)
    } else {
        let code = if all_digits(parts[0]) && decimal_u64(parts[0]) is Some && decimal_u64(
            parts[0],
        )->Some_0 <= u32::MAX {
            Some(ModCodeRepr::ChEBI(decimal_u64(parts[0])->Some_0 as u32))
        } else if parts[0].len() == 1 {
            Some(ModCodeRepr::Code(parts[0][0]))
        } else {
            None
        };
        match code {
            None => Err(ParseError::BadCode),
            Some(c) => match prob_of(parts[1]) {
                Some(p) => Ok((c, p)),
                None => Err(ParseError::BadProbability),
            },
        }
    }
}

/// Parse a base threshold entry: `X:p`, or a bare probability.
pub fn parse_base_entry(s: &str) -> (r: Result<(Option<DnaBase>, u32), ParseError>)
    ensures
        r == base_entry_of(s@),
{
    let chars = chars_of(s);
    let parts = split_on_chars(&chars, ':');
    let ghost pv = parts@.map_values(|v: Vec<char>| v@);
    assert(pv.len() == parts@.len());
    if parts.len() == 1 {
        assert(pv[0] == parts@[0]@);
        return match parse_probability(&parts[0]) {
            Ok(p) => Ok((None, p)),
            Err(e) => Err(e),
        };
    }
    if parts.len() != 2 {
        return Err(ParseError::BadEntry);
    }
    assert(pv[0] == parts@[0]@ && pv[1] == parts@[1]@);
    if parts[0].len() != 1 || !('A' <= parts[0][0] && parts[0][0] <= 'Z') {
        return Err(ParseError::BadBase);
    }
    let base = match DnaBase::parse(parts[0][0]) {
        Some(b) => b,
        None => {
            return Err(ParseError::BadBase);
        },
    };
    match parse_probability(&parts[1]) {
        Ok(p) => Ok((Some(base), p)),
        Err(e) => Err(e),
    }
}

/// Parse a code threshold entry: `c:p` or `n:p` for a numeric code.
pub fn parse_code_entry(s: &str) -> (r: Result<(ModCodeRepr, u32), ParseError>)
    ensures
        r == code_entry_of(s@),
{
    let chars = chars_of(s);
    let parts = split_on_chars(&chars, ':');
    let ghost pv = parts@.map_values(|v: Vec<char>| v@);
    assert(pv.len() == parts@.len());
    if parts.len() != 2 {
        return Err(ParseError::BadEntry);
    }
    assert(pv[0] == parts@[0]@ && pv[1] == parts@[1]@);
    let numeric = parse_u64_chars(&parts[0]);
    let code = match numeric {
        Some(n) if n <= u32::MAX as u64 => ModCodeRepr::ChEBI(n as u32),
        _ => {
            if parts[0].len() == 1 {
                ModCodeRepr::Code(parts[0][0])
            } else {
                return Err(ParseError::BadCode);
            }
        },
    };
    match parse_probability(&parts[1]) {
        Ok(p) => Ok((code, p)),
        Err(e) => Err(e),
    }
}

/// Every base entry parses.
pub open spec fn base_entries_ok(filters: Seq<String>) -> bool {
    forall|i: int| 0 <= i < filters.len() ==> (#[trigger] base_entry_of(filters[i]@)) is Ok
}

/// Every code entry parses.
pub open spec fn code_entries_ok(mods: Seq<String>) -> bool {
    forall|i: int| 0 <= i < mods.len() ==> (#[trigger] code_entry_of(mods[i]@)) is Ok
}

/// Some base entry among several is a bare probability.
pub open spec fn has_bare_among_several(filters: Seq<String>) -> bool {
    filters.len() > 1 && exists|i: int|
        0 <= i < filters.len() && (#[trigger] base_entry_of(filters[i]@)) is Ok && base_entry_of(
            filters[i]@,
        )->Ok_0.0 is None
}

impl MultipleThresholdModCaller {
    /// Build a caller from user text: base thresholds (`C:0.8`, or a single
    /// bare `0.8` for the default) and code thresholds (`m:0.9`).
    pub fn from_text(filter_thresholds: &Vec<String>, mod_thresholds: &Vec<String>) -> (r: Result<
        MultipleThresholdModCaller,
        ParseError,
    >)
        ensures
            r is Ok <==> base_entries_ok(filter_thresholds@) && code_entries_ok(mod_thresholds@)
                && !has_bare_among_several(filter_thresholds@),
            r matches Err(e) ==> e == ParseError::BareThreshold || (exists|i: int|
                0 <= i < filter_thresholds@.len() && #[trigger] base_entry_of(
                    filter_thresholds@[i]@,
                ) == Err::<(Option<DnaBase>, u32), ParseError>(e)) || (exists|i: int|
                0 <= i < mod_thresholds@.len() && #[trigger] code_entry_of(mod_thresholds@[i]@)
                    == Err::<(ModCodeRepr, u32), ParseError>(e)),
            r matches Ok(c) ==> {
                &&& c.codes().len() == mod_thresholds@.len()
                &&& forall|i: int|
                    0 <= i < mod_thresholds@.len() ==> #[trigger] c.codes()[i] == code_entry_of(
                        mod_thresholds@[i]@,
                    )->Ok_0
                &&& if filter_thresholds@.len() == 1 && base_entry_of(
                    filter_thresholds@[0]@,
                )->Ok_0.0 is None {
                    c.bases().len() == 0 && c.default() == base_entry_of(
                        filter_thresholds@[0]@,
                    )->Ok_0.1
                } else {
                    &&& c.default() == 0
                    &&& c.bases().len() == filter_thresholds@.len()
                    &&& forall|i: int|
                        0 <= i < filter_thresholds@.len() ==> #[trigger] c.bases()[i] == (
                            base_entry_of(filter_thresholds@[i]@)->Ok_0.0->Some_0,
                            base_entry_of(filter_thresholds@[i]@)->Ok_0.1,
                        )
                }
            },
    {
        let mut bases: Vec<(DnaBase, u32)> = Vec::new();
        let mut default_threshold: u32 = 0;
        let n = filter_thresholds.len();
        let mut i: usize = 0;
        while i < n
            invariant
                n == filter_thresholds@.len(),
                i <= n,
                forall|a: int| 0 <= a < i ==> (#[trigger] base_entry_of(filter_thresholds@[a]@)) is Ok,
                n > 1 ==> forall|a: int|
                    0 <= a < i ==> (#[trigger] base_entry_of(filter_thresholds@[a]@))->Ok_0.0 is Some,
                n > 1 ==> bases@.len() == i && default_threshold == 0,
                n > 1 ==> forall|a: int|
                    0 <= a < i ==> #[trigger] bases@[a] == (
                        base_entry_of(filter_thresholds@[a]@)->Ok_0.0->Some_0,
                        base_entry_of(filter_thresholds@[a]@)->Ok_0.1,
                    ),
                n == 1 && i == 1 ==> (base_entry_of(filter_thresholds@[0]@)->Ok_0.0 is None ==> (
                bases@.len() == 0 && default_threshold == base_entry_of(
                    filter_thresholds@[0]@,
                )->Ok_0.1)),
                n == 1 && i == 1 ==> (base_entry_of(filter_thresholds@[0]@)->Ok_0.0 is Some ==> (
                bases@.len() == 1 && default_threshold == 0 && bases@[0] == (
                    base_entry_of(filter_thresholds@[0]@)->Ok_0.0->Some_0,
                    base_entry_of(filter_thresholds@[0]@)->Ok_0.1,
                ))),
                i == 0 ==> bases@.len() == 0 && default_threshold == 0,
            decreases n - i,
        {
            match parse_base_entry(filter_thresholds[i].as_str()) {
                Ok((Some(b), p)) => {
                    bases.push((b, p));
                },
                Ok((None, p)) => {
                    if n > 1 {
                        assert(has_bare_among_several(filter_thresholds@));
                        return Err(ParseError::BareThreshold);
                    }
                    default_threshold = p;
                },
                Err(e) => {
                    return Err(e);
                },
            }
            i = i + 1;
        }
        let mut codes: Vec<(ModCodeRepr, u32)> = Vec::new();
        let mut j: usize = 0;
        while j < mod_thresholds.len()
            invariant
                j <= mod_thresholds@.len(),
                codes@.len() == j,
                forall|a: int| 0 <= a < j ==> (#[trigger] code_entry_of(mod_thresholds@[a]@)) is Ok,
                forall|a: int|
                    0 <= a < j ==> #[trigger] codes@[a] == code_entry_of(mod_thresholds@[a]@)->Ok_0,
            decreases mod_thresholds.len() - j,
        {
            match parse_code_entry(mod_thresholds[j].as_str()) {
                Ok(entry) => {
                    codes.push(entry);
                },
                Err(e) => {
                    proof {
                        if base_entries_ok(filter_thresholds@) && code_entries_ok(mod_thresholds@) {
                            assert(code_entry_of(mod_thresholds@[j as int]@) is Ok);
                        }
                    }
                    return Err(e);
                },
            }
            j = j + 1;
        }
        proof {
            if has_bare_among_several(filter_thresholds@) {
                let a = choose|a: int|
                    0 <= a < filter_thresholds@.len() && (#[trigger] base_entry_of(
                        filter_thresholds@[a]@,
                    )) is Ok && base_entry_of(filter_thresholds@[a]@)->Ok_0.0 is None;
            }
        }
        let c = MultipleThresholdModCaller {
            base_thresholds: bases,
            mod_thresholds: codes,
            default_threshold,
        };
        if n == 1 {
            assert(i == 1);
        }
        Ok(c)
    }
}

} // verus!
