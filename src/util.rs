use vstd::prelude::*;
use crate::parsing_utils::{chars_of, decimal_u64, parse_u64_chars};

verus! {

/// The reason a piece of user input was refused.
#[derive(Debug, Clone, PartialEq, Eq)]
pub enum InputError {
    /// A strand field other than `+` or `-`.
    BadStrand(char),
    /// A region that is not `name:start-end` with `start < end`.
    BadRegion,
    /// A region name that the alignment header does not list.
    UnknownReference,
}

#[derive(Debug, PartialEq, Eq, Structural, Copy, Clone, Hash)]
pub enum Strand {
    Positive,
    Negative,
}

pub open spec fn strand_char(s: Strand) -> char {
    match s {
        Strand::Positive => '+',
        Strand::Negative => '-',
    }
}

impl Strand {
    pub fn parse_char(x: char) -> (r: Result<Strand, InputError>)
        ensures
            x == '+' <==> r == Ok::<Strand, InputError>(Strand::Positive),
            x == '-' <==> r == Ok::<Strand, InputError>(Strand::Negative),
            x != '+' && x != '-' <==> r == Err::<Strand, InputError>(InputError::BadStrand(x)),
    {
        match x {
            '+' => Ok(Strand::Positive),
            '-' => Ok(Strand::Negative),
            _ => Err(InputError::BadStrand(x)),
        }
    }

    pub fn to_char(&self) -> (r: char)
        ensures
            r == strand_char(*self),
    {
        match self {
            Strand::Positive => '+',
            Strand::Negative => '-',
        }
    }

    pub fn opposite(&self) -> (r: Strand)
        ensures
            r != *self,
            r == (match *self {
                Strand::Positive => Strand::Negative,
                Strand::Negative => Strand::Positive,
            }),
    {
        match self {
            Strand::Positive => Strand::Negative,
            Strand::Negative => Strand::Positive,
        }
    }
}

/// The index of the first `c` in `s`, or -1.
pub open spec fn find_char(s: Seq<char>, c: char) -> int
    decreases s.len(),
{
    if s.len() == 0 {
        -1
    } else if s[0] == c {
        0
    } else {
        let r = find_char(s.drop_first(), c);
        if r < 0 {
            -1
        } else {
            r + 1
        }
    }
}

/// The pieces of `s` between occurrences of `c`, empty ones included, as
/// `str::split` gives them.
pub open spec fn split_char(s: Seq<char>, c: char) -> Seq<Seq<char>>
    decreases s.len(),
{
    let i = find_char(s, c);
    if i < 0 || i >= s.len() {
        seq![s]
    } else {
        seq![s.subrange(0, i)] + split_char(s.subrange(i + 1, s.len() as int), c)
    }
}

proof fn lemma_find_char(s: Seq<char>, c: char, j: int)
    requires
        0 <= j <= s.len(),
        forall|k: int| 0 <= k < j ==> s[k] != c,
        j == s.len() || s[j] == c,
    ensures
        find_char(s, c) == (if j == s.len() {
            -1
        } else {
            j
        }),
    decreases j,
{
    if s.len() > 0 && j > 0 {
        lemma_find_char(s.drop_first(), c, j - 1);
    }
}

proof fn lemma_split_char_len(s: Seq<char>, c: char)
    ensures
        split_char(s, c).len() >= 1,
        split_char(s, c)[0] == s.subrange(0, split_char(s, c)[0].len() as int),
        split_char(s, c)[0].len() <= s.len(),
        split_char(s, c).len() > 1 ==> split_char(s, c)[0].len() < s.len() && s[split_char(
            s,
            c,
        )[0].len() as int] == c && split_char(s, c).drop_first() == split_char(
            s.subrange(split_char(s, c)[0].len() as int + 1, s.len() as int),
            c,
        ),
    decreases s.len(),
{
    let i = find_char(s, c);
    lemma_find_char_bounds(s, c);
    if !(i < 0 || i >= s.len()) {
        let rest = s.subrange(i + 1, s.len() as int);
        lemma_split_char_len(rest, c);
        assert((seq![s.subrange(0, i)] + split_char(rest, c)).drop_first() =~= split_char(rest, c));
    } else {
        assert(s.subrange(0, s.len() as int) =~= s);
    }
}

proof fn lemma_find_char_bounds(s: Seq<char>, c: char)
    ensures
        find_char(s, c) < s.len(),
        find_char(s, c) >= 0 ==> s[find_char(s, c)] == c,
    decreases s.len(),
{
    if s.len() > 0 && s[0] != c {
        lemma_find_char_bounds(s.drop_first(), c);
    }
}

/// Split characters on `c`.
pub fn split_on_chars(chars: &Vec<char>, c: char) -> (r: Vec<Vec<char>>)
    ensures
        r@.map_values(|v: Vec<char>| v@) == split_char(chars@, c),
{
    let ghost s = chars@;
    let n = chars.len();
    let mut out: Vec<Vec<char>> = Vec::new();
    let mut piece: Vec<char> = Vec::new();
    let mut start: usize = 0;
    let mut j: usize = 0;
    assert(s.subrange(0, n as int) =~= s);
    while j < n
        invariant
            chars@ == s,
            n == s.len(),
            start <= j <= n,
            piece@ == s.subrange(start as int, j as int),
            forall|k: int| start <= k < j ==> s[k] != c,
            out@.map_values(|v: Vec<char>| v@) + split_char(
                s.subrange(start as int, n as int),
                c,
            ) == split_char(s, c),
        decreases n - j,
    {
        if chars[j] == c {
            let ghost rest = s.subrange(start as int, n as int);
            proof {
                lemma_find_char(rest, c, j - start);
                assert(rest.subrange(0, j - start) =~= piece@);
                assert(rest.subrange(j - start + 1, rest.len() as int) =~= s.subrange(
                    j + 1,
                    n as int,
                ));
            }
            let ghost before = out@.map_values(|v: Vec<char>| v@);
            out.push(piece);
            assert(out@.map_values(|v: Vec<char>| v@) =~= before.push(s.subrange(start as int, j as int)));
            piece = Vec::new();
            start = j + 1;
            assert(piece@ =~= s.subrange(start as int, start as int));
        } else {
            piece.push(chars[j]);
            assert(piece@ =~= s.subrange(start as int, j + 1));
        }
        j = j + 1;
    }
    proof {
        let rest = s.subrange(start as int, n as int);
        lemma_find_char(rest, c, rest.len() as int);
        assert(piece@ =~= rest);
    }
    let ghost before = out@.map_values(|v: Vec<char>| v@);
    out.push(piece);
    assert(out@.map_values(|v: Vec<char>| v@) =~= before + split_char(s.subrange(start as int, n as int), c));
    out
}

fn parse_u32_chars(chars: &Vec<char>) -> (r: Option<u32>)
    ensures
        r == decimal_u32(chars@),
{
    match parse_u64_chars(chars) {
        Some(v) => if v <= u32::MAX as u64 {
            Some(v as u32)
        } else {
            None
        },
        None => None,
    }
}

/// Whether `s` contains `c`.
fn has_char(s: &str, c: char) -> (r: bool)
    ensures
        r == s@.contains(c),
{
    let chars = chars_of(s);
    let mut i: usize = 0;
    while i < chars.len()
        invariant
            chars@ == s@,
            i <= chars@.len(),
            forall|k: int| 0 <= k < i ==> s@[k] != c,
        decreases chars.len() - i,
    {
        if chars[i] == c {
            return true;
        }
        i = i + 1;
    }
    false
}

/// The strand of the reference that a call's base lies on: the call's own
/// strand for a forward alignment, the other one for a reverse alignment.
pub open spec fn reference_mod_strand(mod_strand: Strand, alignment_strand: Strand) -> Strand {
    match alignment_strand {
        Strand::Positive => mod_strand,
        Strand::Negative => match mod_strand {
            Strand::Positive => Strand::Negative,
            Strand::Negative => Strand::Positive,
        },
    }
}

pub fn get_reference_mod_strand(mod_strand: Strand, alignment_strand: Strand) -> (r: Strand)
    ensures
        r == reference_mod_strand(mod_strand, alignment_strand),
{
    match alignment_strand {
        Strand::Positive => mod_strand,
        Strand::Negative => mod_strand.opposite(),
    }
}

/// A number that fits in a `u32`, in decimal digits.
pub open spec fn decimal_u32(s: Seq<char>) -> Option<u32> {
    match decimal_u64(s) {
        Some(v) => if v <= u32::MAX {
            Some(v as u32)
        } else {
            None
        },
        None => None,
    }
}

/// A reference sequence and the part of it to work on.
#[derive(Debug, Clone)]
pub struct ReferenceRecord {
    pub tid: u32,
    pub start: u32,
    pub length: u32,
    pub name: String,
}

impl ReferenceRecord {
    pub fn new(tid: u32, start: u32, length: u32, name: String) -> (r: ReferenceRecord)
        ensures
            r.tid == tid,
            r.start == start,
            r.length == length,
            r.name@ == name@,
    {
        ReferenceRecord { tid, start, length, name }
    }
}

/// `[start, end)` of a named reference sequence.
#[derive(Debug)]
pub struct Region {
    pub name: String,
    pub start: u32,
    pub end: u32,
}

/// The region that `name:start-end` writes, with `start < end`.
pub open spec fn region_of(raw: Seq<char>) -> Option<(Seq<char>, u32, u32)> {
    let parts = split_char(raw, ':');
    if parts.len() != 2 {
        None
    } else {
        let se = split_char(parts[1], '-');
        if se.len() != 2 {
            None
        } else {
            match (decimal_u32(se[0]), decimal_u32(se[1])) {
                (Some(start), Some(end)) => if end <= start {
                    None
                } else {
                    Some((parts[0], start, end))
                },
                _ => None,
            }
        }
    }
}

/// Decimal digits of a number.
pub open spec fn decimal_of(n: nat) -> Seq<char>
    decreases n,
{
    if n < 10 {
        seq![(n + '0' as nat) as char]
    } else {
        decimal_of(n / 10) + seq![((n % 10) + '0' as nat) as char]
    }
}

/// `name:start-end`.
pub open spec fn region_text(name: Seq<char>, start: u32, end: u32) -> Seq<char> {
    name + seq![':'] + decimal_of(start as nat) + seq!['-'] + decimal_of(end as nat)
}

/// Relies on `format!` writing integers in plain decimal.
#[verifier::external_body]
fn format_region(name: &String, start: u32, end: u32) -> (r: String)
    ensures
        r@ == region_text(name@, start, end),
{
    format!("{}:{}-{}", name, start, end)
}

/// The reference id and coordinates to fetch alignments from.
#[derive(Debug, Clone, Copy, PartialEq, Eq, Structural)]
pub struct FetchRegion {
    pub tid: i32,
    pub start: i64,
    pub end: i64,
}

/// The index of the first name equal to `name`, or -1.
pub open spec fn first_name_index(names: Seq<Seq<char>>, name: Seq<char>) -> int
    decreases names.len(),
{
    if names.len() == 0 {
        -1
    } else if names[0] == name {
        0
    } else {
        let r = first_name_index(names.drop_first(), name);
        if r < 0 {
            -1
        } else {
            r + 1
        }
    }
}

pub open spec fn names_view(names: Seq<String>) -> Seq<Seq<char>> {
    names.map_values(|n: String| n@)
}

fn find_name(names: &Vec<String>, name: &String) -> (r: Option<usize>)
    ensures
        r matches Some(i) ==> i < names@.len() && first_name_index(names_view(names@), name@) == i,
        r is None ==> first_name_index(names_view(names@), name@) == -1,
{
    let ghost nv = names_view(names@);
    let mut i: usize = 0;
    while i < names.len() && !(names[i] == *name)
        invariant
            nv == names_view(names@),
            i <= names@.len(),
            forall|k: int| 0 <= k < i ==> nv[k] != name@,
        decreases names.len() - i,
    {
        i = i + 1;
    }
    proof {
        lemma_first_name_index(nv, name@, i as int);
    }
    if i == names.len() {
        None
    } else {
        Some(i)
    }
}

proof fn lemma_first_name_index(names: Seq<Seq<char>>, name: Seq<char>, j: int)
    requires
        0 <= j <= names.len(),
        forall|k: int| 0 <= k < j ==> names[k] != name,
        j == names.len() || names[j] == name,
    ensures
        first_name_index(names, name) == (if j == names.len() {
            -1
        } else {
            j
        }),
    decreases j,
{
    if names.len() > 0 && j > 0 {
        lemma_first_name_index(names.drop_first(), name, j - 1);
    }
}

impl Region {
    pub fn length(&self) -> (r: u32)
        requires
            self.start <= self.end,
        ensures
            r == self.end - self.start,
    {
        self.end - self.start
    }

    /// Parse `name:start-end`.
    pub fn parse_raw_with_start_and_end(raw: &str) -> (r: Result<Region, InputError>)
        ensures
            region_of(raw@) is None <==> r == Err::<Region, InputError>(InputError::BadRegion),
            region_of(raw@) matches Some(v) ==> r is Ok && r->Ok_0.name@ == v.0 && r->Ok_0.start
                == v.1 && r->Ok_0.end == v.2,
    {
        let chars = chars_of(raw);
        let parts = split_on_chars(&chars, ':');
        let ghost pv = parts@.map_values(|v: Vec<char>| v@);
        assert(pv.len() == parts@.len());
        if parts.len() != 2 {
            return Err(InputError::BadRegion);
        }
        assert(pv[0] == parts@[0]@ && pv[1] == parts@[1]@);
        proof {
            lemma_split_char_len(raw@, ':');
        }
        let name = raw.substring_char(0, parts[0].len()).to_owned();
        let se = split_on_chars(&parts[1], '-');
        let ghost sv = se@.map_values(|v: Vec<char>| v@);
        assert(sv.len() == se@.len());
        if se.len() != 2 {
            return Err(InputError::BadRegion);
        }
        assert(sv[0] == se@[0]@ && sv[1] == se@[1]@);
        let start = parse_u32_chars(&se[0]);
        let end = parse_u32_chars(&se[1]);
        match (start, end) {
            (Some(start), Some(end)) => {
                if end <= start {
                    Err(InputError::BadRegion)
                } else {
                    Ok(Region { name, start, end })
                }
            },
            _ => Err(InputError::BadRegion),
        }
    }

    /// Parse a region: `name:start-end`, or the name of a reference sequence
    /// alone for the whole of it. `targets` lists each reference sequence of
    /// the alignment header with its length, where known.
    pub fn parse_str(raw: &str, targets: &Vec<(String, Option<u64>)>) -> (r: Result<Region, InputError>)
        ensures
            raw@.contains(':') ==> (region_of(raw@) is None <==> r == Err::<Region, InputError>(
                InputError::BadRegion)),
            raw@.contains(':') ==> (region_of(raw@) matches Some(v) ==> r is Ok && r->Ok_0.name@
                == v.0 && r->Ok_0.start == v.1 && r->Ok_0.end == v.2),
            !raw@.contains(':') ==> {
                let i = first_name_index(
                    names_view(targets@.map_values(|t: (String, Option<u64>)| t.0)),
                    raw@,
                );
                if i >= 0 && targets@[i].1 is Some && targets@[i].1->Some_0 <= u32::MAX {
                    r is Ok && r->Ok_0.name@ == raw@ && r->Ok_0.start == 0 && r->Ok_0.end
                        == targets@[i].1->Some_0
                } else {
                    r == Err::<Region, InputError>(InputError::UnknownReference)
                }
            },
    {
        if has_char(raw, ':') {
            return Self::parse_raw_with_start_and_end(raw);
        }
        let mut names: Vec<String> = Vec::new();
        let mut k: usize = 0;
        while k < targets.len()
            invariant
                k <= targets@.len(),
                names@.len() == k,
                forall|a: int| 0 <= a < k ==> names@[a]@ == targets@[a].0@,
            decreases targets.len() - k,
        {
            names.push(targets[k].0.clone());
            k = k + 1;
        }
        let ghost tv = names_view(targets@.map_values(|t: (String, Option<u64>)| t.0));
        assert(names_view(names@) =~= tv);
        let name = raw.to_owned();
        match find_name(&names, &name) {
            Some(i) => match targets[i].1 {
                Some(len) => if len <= u32::MAX as u64 {
                    Ok(Region { name, start: 0, end: len as u32 })
                } else {
                    Err(InputError::UnknownReference)
                },
                None => Err(InputError::UnknownReference),
            },
            None => Err(InputError::UnknownReference),
        }
    }

    /// Where to fetch alignments from: the id of the region's reference
    /// sequence among `names`, the header's names in id order.
    pub fn get_fetch_definition(&self, names: &Vec<String>) -> (r: Result<FetchRegion, InputError>)
        requires
            names@.len() <= i32::MAX,
        ensures
            ({
                let i = first_name_index(names_view(names@), self.name@);
                if i >= 0 {
                    r == Ok::<FetchRegion, InputError>(
                        FetchRegion { tid: i as i32, start: self.start as i64, end: self.end as i64 },
                    )
                } else {
                    r == Err::<FetchRegion, InputError>(InputError::UnknownReference)
                }
            }),
    {
        match find_name(names, &self.name) {
            Some(i) => Ok(
                FetchRegion { tid: i as i32, start: self.start as i64, end: self.end as i64 },
            ),
            None => Err(InputError::UnknownReference),
        }
    }

    /// `name:start-end`.
    pub fn to_string(&self) -> (r: String)
        ensures
            r@ == region_text(self.name@, self.start, self.end),
    {
        format_region(&self.name, self.start, self.end)
    }
}

/// The name and bounds of a region.
pub open spec fn region_key(region: Option<&Region>) -> Option<(Seq<char>, u32, u32)> {
    match region {
        Some(reg) => Some((reg.name@, reg.start, reg.end)),
        None => None,
    }
}

/// A record as plain values: id, start, length, name.
pub open spec fn record_view(r: ReferenceRecord) -> (u32, u32, u32, Seq<char>) {
    (r.tid, r.start, r.length, r.name@)
}

/// The records that `get_targets` makes of the targets, in order.
pub open spec fn target_records(
    ts: Seq<(u32, String, Option<u64>)>,
    region: Option<(Seq<char>, u32, u32)>,
) -> Seq<(u32, u32, u32, Seq<char>)>
    decreases ts.len(),
{
    if ts.len() == 0 {
        seq![]
    } else {
        let prev = target_records(ts.drop_last(), region);
        let t = ts.last();
        match region {
            Some(reg) => if t.1@ == reg.0 {
                prev.push((t.0, reg.1, (reg.2 - reg.1) as u32, t.1@))
            } else {
                prev
            },
            None => match t.2 {
                Some(len) => if len <= u32::MAX {
                    prev.push((t.0, 0u32, len as u32, t.1@))
                } else {
                    prev
                },
                None => prev,
            },
        }
    }
}

/// The reference sequences to work on: the region's own, or every one of
/// known length (that fits in a `u32`) from its start. `targets` lists the
/// header's reference sequences with their ids and lengths.
pub fn get_targets(targets: &Vec<(u32, String, Option<u64>)>, region: Option<&Region>) -> (r: Vec<
    ReferenceRecord,
>)
    requires
        region matches Some(reg) ==> reg.start <= reg.end,
    ensures
        r@.map_values(|x: ReferenceRecord| record_view(x)) == target_records(targets@, region_key(region)),
{
    let mut out: Vec<ReferenceRecord> = Vec::new();
    let mut k: usize = 0;
    while k < targets.len()
        invariant
            k <= targets@.len(),
            region matches Some(reg) ==> reg.start <= reg.end,
            out@.map_values(|x: ReferenceRecord| record_view(x)) == target_records(
                targets@.subrange(0, k as int),
                region_key(region),
            ),
        decreases targets.len() - k,
    {
        let ghost before = out@.map_values(|x: ReferenceRecord| record_view(x));
        assert(targets@.subrange(0, k as int + 1).drop_last() =~= targets@.subrange(0, k as int));
        let (tid, name, len) = (targets[k].0, &targets[k].1, targets[k].2);
        match region {
            Some(reg) => {
                if *name == reg.name {
                    out.push(ReferenceRecord::new(tid, reg.start, reg.length(), name.clone()));
                }
            },
            None => {
                if let Some(size) = len {
                    if size <= u32::MAX as u64 {
                        out.push(ReferenceRecord::new(tid, 0, size as u32, name.clone()));
                    }
                }
            },
        }
        assert(out@.map_values(|x: ReferenceRecord| record_view(x)) =~= target_records(
            targets@.subrange(0, k as int + 1),
            region_key(region),
        ));
        k = k + 1;
    }
    assert(targets@.subrange(0, k as int) =~= targets@);
    out
}

/// SAM flags of secondary (0x100), duplicate (0x400) and supplementary
/// (0x800) alignments.
pub open spec fn flags_secondary(flags: u16) -> bool {
    (flags & 0x100u16) != 0 || (flags & 0x400u16) != 0 || (flags & 0x800u16) != 0
}

/// Whether an alignment with these SAM flags is secondary, supplementary or
/// a duplicate.
pub fn record_is_secondary(flags: u16) -> (r: bool)
    ensures
        r == flags_secondary(flags),
{
    (flags & 0x100u16) != 0 || (flags & 0x400u16) != 0 || (flags & 0x800u16) != 0
}

/// The position in the forward read and on the reference of an aligned
/// pair; `None` where either is not a position.
pub open spec fn forward_pair(q_pos: i64, r_pos: i64, read_length: usize, is_reverse: bool) -> Option<(usize, u64)> {
    if q_pos < 0 || r_pos < 0 {
        None
    } else if is_reverse {
        if q_pos + 1 > read_length {
            None
        } else {
            Some(((read_length - q_pos - 1) as usize, r_pos as u64))
        }
    } else if q_pos > usize::MAX {
        None
    } else {
        Some((q_pos as usize, r_pos as u64))
    }
}

pub fn get_aligned_pair_forward(q_pos: i64, r_pos: i64, read_length: usize, is_reverse: bool) -> (r: Option<(usize, u64)>)
    ensures
        r == forward_pair(q_pos, r_pos, read_length, is_reverse),
{
    if q_pos < 0 || r_pos < 0 {
        return None;
    }
    if is_reverse {
        if q_pos as u64 >= read_length as u64 {
            None
        } else {
            Some((read_length - 1 - q_pos as usize, r_pos as u64))
        }
    } else if q_pos as u64 > usize::MAX as u64 {
        None
    } else {
        Some((q_pos as usize, r_pos as u64))
    }
}

/// What bio's `complement` gives for a byte: the IUPAC complement, case kept;
/// other bytes unchanged.
pub open spec fn dna_complement(a: u8) -> u8 {
    let upper: Seq<u8> = seq![65u8, 71, 67, 84, 89, 82, 87, 83, 75, 77, 68, 86, 72, 66, 78];
    let comp: Seq<u8> = seq![84u8, 67, 71, 65, 82, 89, 87, 83, 77, 75, 72, 66, 68, 86, 78];
    if exists|i: int| 0 <= i < 15 && upper[i] == a {
        comp[choose|i: int| 0 <= i < 15 && upper[i] == a]
    } else if exists|i: int| 0 <= i < 15 && upper[i] + 32 == a {
        (comp[choose|i: int| 0 <= i < 15 && upper[i] + 32 == a] + 32) as u8
    } else {
        a
    }
}

/// Relies on `bio::alphabets::dna::revcomp`: the bytes in reverse order, each
/// complemented.
#[verifier::external_body]
fn revcomp(seq: &Vec<u8>) -> (r: Vec<u8>)
    ensures
        r@.len() == seq@.len(),
        forall|i: int| 0 <= i < seq@.len() ==> #[trigger] r@[i] == dna_complement(seq@[seq@.len() - 1 - i]),
{
    bio::alphabets::dna::revcomp(seq)
}

/// Why a read could not be used.
#[derive(Debug, Clone, PartialEq, Eq)]
pub enum RunError {
    /// The read's data is malformed.
    BadInput,
    /// The read is left out on purpose.
    Skipped,
    /// The read could not be processed.
    Failed,
}

/// The read's bases as sequenced: reverse-complemented where it aligned to
/// the reverse strand. An empty sequence fails.
pub fn get_forward_sequence(seq: &Vec<u8>, is_reverse: bool) -> (r: Result<Vec<u8>, RunError>)
    ensures
        seq@.len() == 0 <==> r == Err::<Vec<u8>, RunError>(RunError::Failed),
        r is Ok ==> r->Ok_0@.len() == seq@.len() && forall|i: int|
            0 <= i < seq@.len() ==> #[trigger] r->Ok_0@[i] == if is_reverse {
                dna_complement(seq@[seq@.len() - 1 - i])
            } else {
                seq@[i]
            },
{
    if seq.len() == 0 {
        return Err(RunError::Failed);
    }
    if is_reverse {
        Ok(revcomp(seq))
    } else {
        let mut out: Vec<u8> = Vec::new();
        let mut i: usize = 0;
        while i < seq.len()
            invariant
                i <= seq@.len(),
                out@ == seq@.subrange(0, i as int),
            decreases seq.len() - i,
        {
            out.push(seq[i]);
            assert(out@ =~= seq@.subrange(0, i as int + 1));
            i = i + 1;
        }
        assert(out@ =~= seq@);
        Ok(out)
    }
}

} // verus!
