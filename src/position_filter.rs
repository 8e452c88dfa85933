use vstd::prelude::*;
use vstd::multiset::Multiset;
use crate::parsing_utils::{decimal_u64, fields, parse_u64, split_fields};
use crate::util::{get_reference_mod_strand, reference_mod_strand, Strand};
use std::collections::HashMap;

verus! {

broadcast use {vstd::seq_lib::group_to_multiset_ensures, vstd::std_specs::hash::group_hash_axioms};

/// Half-open intervals `[start, stop)` of one reference sequence and strand,
/// indexed for point queries by rust_lapper. The index is held in a struct of
/// its own: Verus refuses a declaration of `rust_lapper::Lapper`, whose
/// bounds name num-traits' `PrimInt` and `Unsigned`.
#[verifier::external_body]
pub struct IntervalIndex {
    inner: rust_lapper::Lapper<u64, ()>,
}

/// The intervals that an index holds, as `(start, stop)` pairs.
pub uninterp spec fn index_intervals(ix: IntervalIndex) -> Multiset<(u64, u64)>;

/// Some interval of `m` holds position `p`.
pub open spec fn covers(m: Multiset<(u64, u64)>, p: int) -> bool {
    exists|iv: (u64, u64)| #[trigger] m.count(iv) > 0 && iv.0 <= p < iv.1
}

/// Relies on `rust_lapper::Lapper::new`: the index holds exactly the intervals
/// it was built from (it only sorts them).
#[verifier::external_body]
fn index_new(intervals: Vec<(u64, u64)>) -> (r: IntervalIndex)
    ensures
        index_intervals(r) == intervals@.to_multiset(),
{
    let ivs = intervals.into_iter().map(
        |(start, stop)| rust_lapper::Interval { start, stop, val: () },
    ).collect();
    IntervalIndex { inner: rust_lapper::Lapper::new(ivs) }
}

/// No two intervals of `m` overlap or touch, each is non-empty, and each is
/// held once.
pub open spec fn disjoint_intervals(m: Multiset<(u64, u64)>) -> bool {
    &&& forall|iv: (u64, u64)| #[trigger] m.count(iv) > 0 ==> m.count(iv) == 1 && iv.0 < iv.1
    &&& forall|a: (u64, u64), b: (u64, u64)|
        #[trigger] m.count(a) > 0 && #[trigger] m.count(b) > 0 && a != b ==> a.1 < b.0 || b.1 < a.0
}

/// Relies on `rust_lapper::Lapper::merge_overlaps`: over the intervals sorted
/// by start, each one that overlaps or touches the last kept one is joined
/// to it, so the same positions stay covered and the kept intervals are
/// apart from each other.
#[verifier::external_body]
fn index_merge_overlaps(ix: &mut IntervalIndex)
    requires
        forall|iv: (u64, u64)| #[trigger] index_intervals(*old(ix)).count(iv) > 0 ==> iv.0 < iv.1,
    ensures
        forall|p: int| covers(index_intervals(*final(ix)), p) == covers(index_intervals(*old(ix)), p),
        disjoint_intervals(index_intervals(*final(ix))),
{
    ix.inner.merge_overlaps();
}

/// Some interval of `m` overlaps `[start, stop)`.
pub open spec fn overlaps_any(m: Multiset<(u64, u64)>, start: u64, stop: u64) -> bool {
    exists|iv: (u64, u64)| #[trigger] m.count(iv) > 0 && iv.0 < stop && iv.1 > start
}

/// Relies on `rust_lapper::Lapper::find`: it yields the intervals that
/// overlap `[start, stop)`; whether it yields any.
#[verifier::external_body]
fn index_any_overlap(ix: &IntervalIndex, start: u64, stop: u64) -> (r: bool)
    ensures
        r == overlaps_any(index_intervals(*ix), start, stop),
{
    ix.inner.find(start, stop).next().is_some()
}

/// Whether some interval of the index holds `pos`.
fn index_find_point(ix: &IntervalIndex, pos: u64) -> (r: bool)
    requires
        pos < u64::MAX,
    ensures
        r == covers(index_intervals(*ix), pos as int),
{
    let r = index_any_overlap(ix, pos, pos + 1);
    assert(r == covers(index_intervals(*ix), pos as int)) by {
        if r {
            let iv = choose|iv: (u64, u64)|
                #[trigger] index_intervals(*ix).count(iv) > 0 && iv.0 < pos + 1 && iv.1 > pos;
        }
        if covers(index_intervals(*ix), pos as int) {
            let iv = choose|iv: (u64, u64)|
                #[trigger] index_intervals(*ix).count(iv) > 0 && iv.0 <= pos < iv.1;
        }
    }
    r
}

/// One region of a coordinate file: a reference sequence id, `[start, stop)`,
/// and the strands it applies to.
#[derive(Debug, Clone, Copy, PartialEq, Eq, Structural)]
pub struct BedRegion {
    pub chrom_id: u32,
    pub start: u64,
    pub stop: u64,
    pub positive: bool,
    pub negative: bool,
}

/// The id of the first entry named `name`.
pub open spec fn lookup_id(names: Seq<(Seq<char>, u32)>, name: Seq<char>) -> Option<u32>
    decreases names.len(),
{
    if names.len() == 0 {
        None
    } else if names[0].0 == name {
        Some(names[0].1)
    } else {
        lookup_id(names.drop_first(), name)
    }
}

/// The region that a line of a coordinate file gives: at least six fields,
/// the name of a known reference sequence, decimal start and stop, and a
/// strand of `+`, `-` or `.` (both) in the sixth field.
pub open spec fn bed_region_of(line: Seq<char>, names: Seq<(Seq<char>, u32)>) -> Option<BedRegion> {
    let f = fields(line);
    if f.len() < 6 {
        None
    } else {
        match (lookup_id(names, f[0]), decimal_u64(f[1]), decimal_u64(f[2])) {
            (Some(id), Some(start), Some(stop)) => if f[5] == seq!['+'] {
                Some(BedRegion { chrom_id: id, start, stop, positive: true, negative: false })
            } else if f[5] == seq!['-'] {
                Some(BedRegion { chrom_id: id, start, stop, positive: false, negative: true })
            } else if f[5] == seq!['.'] {
                Some(BedRegion { chrom_id: id, start, stop, positive: true, negative: true })
            } else {
                None
            },
            _ => None,
        }
    }
}

pub open spec fn name_view(names: Seq<(String, u32)>) -> Seq<(Seq<char>, u32)> {
    names.map_values(|e: (String, u32)| (e.0@, e.1))
}

fn lookup_chrom_id(names: &Vec<(String, u32)>, name: &String) -> (r: Option<u32>)
    ensures
        r == lookup_id(name_view(names@), name@),
{
    let ghost nv = name_view(names@);
    let mut i: usize = 0;
    assert(nv.subrange(0, nv.len() as int) =~= nv);
    while i < names.len()
        invariant
            nv == name_view(names@),
            i <= names.len(),
            lookup_id(nv, name@) == lookup_id(nv.subrange(i as int, nv.len() as int), name@),
        decreases names.len() - i,
    {
        let ghost rest = nv.subrange(i as int, nv.len() as int);
        assert(rest.drop_first() =~= nv.subrange(i as int + 1, nv.len() as int));
        assert(rest[0] == (names@[i as int].0@, names@[i as int].1));
        if names[i].0 == *name {
            return Some(names[i].1);
        }
        i = i + 1;
    }
    None
}

fn str_is(s: &String, c: char) -> (r: bool)
    ensures
        r == (s@ == seq![c]),
{
    let chars = crate::parsing_utils::chars_of(s.as_str());
    if chars.len() == 1 && chars[0] == c {
        assert(s@ =~= seq![c]);
        true
    } else {
        false
    }
}

/// The region on a line of a coordinate file, `None` for a line that is not
/// one or names an unknown reference sequence.
pub fn parse_bed_line(line: &str, chrom_to_target_id: &Vec<(String, u32)>) -> (r: Option<
    BedRegion,
>)
    ensures
        r == bed_region_of(line@, name_view(chrom_to_target_id@)),
{
    let parts = split_fields(line);
    let ghost f = fields(line@);
    assert(parts@.len() == f.len());
    if parts.len() < 6 {
        return None;
    }
    assert(parts@[0]@ == f[0] && parts@[1]@ == f[1] && parts@[2]@ == f[2] && parts@[5]@ == f[5]);
    let id = lookup_chrom_id(chrom_to_target_id, &parts[0]);
    let start = parse_u64(parts[1].as_str());
    let stop = parse_u64(parts[2].as_str());
    match (id, start, stop) {
        (Some(chrom_id), Some(start), Some(stop)) => {
            if str_is(&parts[5], '+') {
                Some(BedRegion { chrom_id, start, stop, positive: true, negative: false })
            } else if str_is(&parts[5], '-') {
                Some(BedRegion { chrom_id, start, stop, positive: false, negative: true })
            } else if str_is(&parts[5], '.') {
                Some(BedRegion { chrom_id, start, stop, positive: true, negative: true })
            } else {
                None
            }
        },
        _ => None,
    }
}

/// Region `r` applies to the strand and holds position `p` of `chrom`.
pub open spec fn region_covers(r: BedRegion, chrom: u32, strand: Strand, p: int) -> bool {
    &&& r.chrom_id == chrom
    &&& r.start <= p < r.stop
    &&& match strand {
        Strand::Positive => r.positive,
        Strand::Negative => r.negative,
    }
}

pub open spec fn regions_cover(regions: Seq<BedRegion>, chrom: u32, strand: Strand, p: int) -> bool {
    exists|i: int| 0 <= i < regions.len() && region_covers(#[trigger] regions[i], chrom, strand, p)
}

/// Some group for `chrom` holds an interval with `p`.
pub open spec fn groups_cover(groups: Seq<(u32, Seq<(u64, u64)>)>, chrom: u32, p: int) -> bool {
    exists|g: int, k: int|
        0 <= g < groups.len() && groups[g].0 == chrom && 0 <= k < groups[g].1.len() && (
        #[trigger] groups[g].1[k]).0 <= p < groups[g].1[k].1
}

pub open spec fn groups_view(groups: Seq<(u32, Vec<(u64, u64)>)>) -> Seq<(u32, Seq<(u64, u64)>)> {
    groups.map_values(|e: (u32, Vec<(u64, u64)>)| (e.0, e.1@))
}

pub open spec fn keys_unique<V>(s: Seq<(u32, V)>) -> bool {
    forall|a: int, b: int| 0 <= a < b < s.len() ==> s[a].0 != s[b].0
}

proof fn lemma_regions_cover_prefix(regions: Seq<BedRegion>, i: int, strand: Strand)
    requires
        0 <= i < regions.len(),
    ensures
        forall|chrom: u32, p: int|
            regions_cover(regions.subrange(0, i + 1), chrom, strand, p) == (regions_cover(
                regions.subrange(0, i),
                chrom,
                strand,
                p,
            ) || region_covers(regions[i], chrom, strand, p)),
{
    assert forall|chrom: u32, p: int|
        regions_cover(regions.subrange(0, i + 1), chrom, strand, p) == (regions_cover(
            regions.subrange(0, i),
            chrom,
            strand,
            p,
        ) || region_covers(regions[i], chrom, strand, p)) by {
        let s1 = regions.subrange(0, i + 1);
        let s0 = regions.subrange(0, i);
        if regions_cover(s1, chrom, strand, p) {
            let j = choose|j: int| 0 <= j < s1.len() && region_covers(#[trigger] s1[j], chrom, strand, p);
            if j < i {
                assert(s0[j] == s1[j]);
            }
        }
        if regions_cover(s0, chrom, strand, p) {
            let j = choose|j: int| 0 <= j < s0.len() && region_covers(#[trigger] s0[j], chrom, strand, p);
            assert(s0[j] == s1[j]);
        }
        if region_covers(regions[i], chrom, strand, p) {
            assert(s1[i] == regions[i]);
        }
    }
}

proof fn lemma_groups_cover_push(gs: Seq<(u32, Seq<(u64, u64)>)>, key: u32, iv: (u64, u64))
    ensures
        forall|c: u32, p: int|
            groups_cover(gs.push((key, seq![iv])), c, p) == (groups_cover(gs, c, p) || (c == key
                && iv.0 <= p < iv.1)),
{
    let gs2 = gs.push((key, seq![iv]));
    assert forall|c: u32, p: int|
        groups_cover(gs2, c, p) == (groups_cover(gs, c, p) || (c == key && iv.0 <= p < iv.1)) by {
        if groups_cover(gs2, c, p) {
            let (g, k) = choose|g: int, k: int|
                0 <= g < gs2.len() && gs2[g].0 == c && 0 <= k < gs2[g].1.len() && (
                #[trigger] gs2[g].1[k]).0 <= p < gs2[g].1[k].1;
            if g < gs.len() {
                assert(gs2[g] == gs[g]);
            }
        }
        if groups_cover(gs, c, p) {
            let (g, k) = choose|g: int, k: int|
                0 <= g < gs.len() && gs[g].0 == c && 0 <= k < gs[g].1.len() && (
                #[trigger] gs[g].1[k]).0 <= p < gs[g].1[k].1;
            assert(gs2[g] == gs[g]);
            assert(gs2[g].1[k] == gs[g].1[k]);
        }
        if c == key && iv.0 <= p < iv.1 {
            let g = gs.len() as int;
            assert(gs2[g].1[0] == iv);
        }
    }
}

proof fn lemma_groups_cover_update(gs: Seq<(u32, Seq<(u64, u64)>)>, g0: int, iv: (u64, u64))
    requires
        0 <= g0 < gs.len(),
    ensures
        forall|c: u32, p: int|
            groups_cover(gs.update(g0, (gs[g0].0, gs[g0].1.push(iv))), c, p) == (groups_cover(
                gs,
                c,
                p,
            ) || (c == gs[g0].0 && iv.0 <= p < iv.1)),
{
    let gs2 = gs.update(g0, (gs[g0].0, gs[g0].1.push(iv)));
    assert forall|c: u32, p: int|
        groups_cover(gs2, c, p) == (groups_cover(gs, c, p) || (c == gs[g0].0 && iv.0 <= p < iv.1)) by {
        if groups_cover(gs2, c, p) {
            let (g, k) = choose|g: int, k: int|
                0 <= g < gs2.len() && gs2[g].0 == c && 0 <= k < gs2[g].1.len() && (
                #[trigger] gs2[g].1[k]).0 <= p < gs2[g].1[k].1;
            if g != g0 {
                assert(gs2[g] == gs[g]);
            } else if k < gs[g0].1.len() {
                assert(gs2[g].1[k] == gs[g].1[k]);
            }
        }
        if groups_cover(gs, c, p) {
            let (g, k) = choose|g: int, k: int|
                0 <= g < gs.len() && gs[g].0 == c && 0 <= k < gs[g].1.len() && (
                #[trigger] gs[g].1[k]).0 <= p < gs[g].1[k].1;
            assert(gs2[g].1[k] == gs[g].1[k]);
        }
        if c == gs[g0].0 && iv.0 <= p < iv.1 {
            assert(gs2[g0].1[gs[g0].1.len() as int] == iv);
        }
    }
}

/// Group the non-empty intervals of the regions on one strand by reference
/// sequence.
fn group_regions(regions: &Vec<BedRegion>, strand: Strand) -> (r: Vec<(u32, Vec<(u64, u64)>)>)
    ensures
        keys_unique(r@),
        forall|g: int, k: int|
            0 <= g < r@.len() && 0 <= k < r@[g].1@.len() ==> (#[trigger] r@[g].1@[k]).0
                < r@[g].1@[k].1,
        forall|chrom: u32, p: int|
            groups_cover(groups_view(r@), chrom, p) == regions_cover(regions@, chrom, strand, p),
{
    let mut groups: Vec<(u32, Vec<(u64, u64)>)> = Vec::new();
    let mut i: usize = 0;
    while i < regions.len()
        invariant
            i <= regions.len(),
            keys_unique(groups@),
            forall|g: int, k: int|
                0 <= g < groups@.len() && 0 <= k < groups@[g].1@.len() ==> (
                #[trigger] groups@[g].1@[k]).0 < groups@[g].1@[k].1,
            forall|chrom: u32, p: int|
                groups_cover(groups_view(groups@), chrom, p) == regions_cover(
                    regions@.subrange(0, i as int),
                    chrom,
                    strand,
                    p,
                ),
        decreases regions.len() - i,
    {
        let reg = regions[i];
        let ghost old_groups = groups@;
        assert(forall|c: u32, p: int|
            groups_cover(groups_view(old_groups), c, p) == regions_cover(
                regions@.subrange(0, i as int),
                c,
                strand,
                p,
            ));
        let applies = match strand {
            Strand::Positive => reg.positive,
            Strand::Negative => reg.negative,
        };
        if applies && reg.start < reg.stop {
            let mut g: usize = 0;
            while g < groups.len() && groups[g].0 != reg.chrom_id
                invariant
                    groups@ == old_groups,
                    g <= groups@.len(),
                    forall|a: int| 0 <= a < g ==> groups@[a].0 != reg.chrom_id,
                decreases groups.len() - g,
            {
                g = g + 1;
            }
            let ghost gv = groups_view(groups@);
            if g == groups.len() {
                let mut ivs: Vec<(u64, u64)> = Vec::new();
                ivs.push((reg.start, reg.stop));
                groups.push((reg.chrom_id, ivs));
                proof {
                    assert(groups_view(groups@) =~= gv.push((reg.chrom_id, seq![(reg.start, reg.stop)])));
                    lemma_groups_cover_push(gv, reg.chrom_id, (reg.start, reg.stop));
                    assert(gv == groups_view(old_groups));
                    assert forall|c: u32, p: int|
                        groups_cover(groups_view(groups@), c, p) == (groups_cover(
                            groups_view(old_groups),
                            c,
                            p,
                        ) || (applies && reg.start < reg.stop && c == reg.chrom_id && reg.start <= p
                            < reg.stop)) by {
                        lemma_groups_cover_push(gv, reg.chrom_id, (reg.start, reg.stop));
                        let gs2 = gv.push((reg.chrom_id, seq![(reg.start, reg.stop)]));
                        assert(groups_view(groups@) == gs2);
                        assert(groups_cover(gs2, c, p) == (groups_cover(gv, c, p) || (c
                            == reg.chrom_id && reg.start <= p < reg.stop)));
                    }
                }
            } else {
                let mut entry = groups.remove(g);
                entry.1.push((reg.start, reg.stop));
                groups.insert(g, entry);
                proof {
                    assert(groups@ =~= old_groups.update(g as int, groups@[g as int]));
                    assert(groups_view(groups@) =~= gv.update(
                        g as int,
                        (gv[g as int].0, gv[g as int].1.push((reg.start, reg.stop))),
                    ));
                    lemma_groups_cover_update(gv, g as int, (reg.start, reg.stop));
                    assert(gv[g as int].0 == reg.chrom_id);
                    assert(gv == groups_view(old_groups));
                    assert forall|c: u32, p: int|
                        groups_cover(groups_view(groups@), c, p) == (groups_cover(
                            groups_view(old_groups),
                            c,
                            p,
                        ) || (applies && reg.start < reg.stop && c == reg.chrom_id && reg.start <= p
                            < reg.stop)) by {
                        lemma_groups_cover_update(gv, g as int, (reg.start, reg.stop));
                    }
                }
            }
        }
        assert(forall|c: u32, p: int|
            groups_cover(groups_view(groups@), c, p) == (groups_cover(groups_view(old_groups), c, p)
                || (applies && reg.start < reg.stop && c == reg.chrom_id && reg.start <= p
                < reg.stop)));
        proof {
            lemma_regions_cover_prefix(regions@, i as int, strand);
            assert(reg == regions@[i as int]);
            assert forall|c: u32, p: int|
                region_covers(regions@[i as int], c, strand, p) == (applies && reg.start < reg.stop
                    && c == reg.chrom_id && reg.start <= p < reg.stop) by {}
            assert forall|c: u32, p: int|
                groups_cover(groups_view(groups@), c, p) == regions_cover(
                    regions@.subrange(0, i as int + 1),
                    c,
                    strand,
                    p,
                ) by {
                assert(regions_cover(regions@.subrange(0, i as int + 1), c, strand, p) == (
                regions_cover(regions@.subrange(0, i as int), c, strand, p) || region_covers(
                    regions@[i as int],
                    c,
                    strand,
                    p,
                )));
                assert(region_covers(regions@[i as int], c, strand, p) == (applies && reg.start
                    < reg.stop && c == reg.chrom_id && reg.start <= p < reg.stop));
                assert(groups_cover(groups_view(old_groups), c, p) == regions_cover(
                    regions@.subrange(0, i as int),
                    c,
                    strand,
                    p,
                ));
            }
        }
        i = i + 1;
    }
    assert(regions@.subrange(0, i as int) =~= regions@);
    groups
}

/// A line of a coordinate file gives a region that holds `p` of `chrom` on
/// `strand`.
pub open spec fn line_covers(
    line: String,
    names: Seq<(Seq<char>, u32)>,
    chrom: u32,
    strand: Strand,
    p: int,
) -> bool {
    match bed_region_of(line@, names) {
        Some(r) => region_covers(r, chrom, strand, p),
        None => false,
    }
}

pub open spec fn lines_cover(
    lines: Seq<String>,
    names: Seq<(Seq<char>, u32)>,
    chrom: u32,
    strand: Strand,
    p: int,
) -> bool {
    exists|k: int| 0 <= k < lines.len() && line_covers(#[trigger] lines[k], names, chrom, strand, p)
}

/// Every index of the map holds apart, merged intervals.
pub open spec fn indices_disjoint(m: Map<u32, IntervalIndex>) -> bool {
    forall|c: u32| #[trigger] m.contains_key(c) ==> disjoint_intervals(index_intervals(m[c]))
}

/// The map's index for `chrom` holds `p`.
pub open spec fn map_covers(m: Map<u32, IntervalIndex>, chrom: u32, p: int) -> bool {
    m.contains_key(chrom) && covers(index_intervals(m[chrom]), p)
}

proof fn lemma_covers_seq(ivs: Seq<(u64, u64)>, p: int)
    ensures
        covers(ivs.to_multiset(), p) == exists|k: int|
            0 <= k < ivs.len() && (#[trigger] ivs[k]).0 <= p < ivs[k].1,
{
    if covers(ivs.to_multiset(), p) {
        let iv = choose|iv: (u64, u64)| #[trigger] ivs.to_multiset().count(iv) > 0 && iv.0 <= p < iv.1;
        assert(ivs.contains(iv));
        let k = choose|k: int| 0 <= k < ivs.len() && ivs[k] == iv;
        assert(ivs[k].0 <= p < ivs[k].1);
    }
    if exists|k: int| 0 <= k < ivs.len() && (#[trigger] ivs[k]).0 <= p < ivs[k].1 {
        let k = choose|k: int| 0 <= k < ivs.len() && (#[trigger] ivs[k]).0 <= p < ivs[k].1;
        assert(ivs.contains(ivs[k]));
        assert(ivs.to_multiset().count(ivs[k]) > 0);
    }
}

/// One merged index per reference sequence, from its intervals.
fn build_indices(groups: Vec<(u32, Vec<(u64, u64)>)>) -> (r: HashMap<u32, IntervalIndex>)
    requires
        keys_unique(groups@),
        forall|g: int, k: int|
            0 <= g < groups@.len() && 0 <= k < groups@[g].1@.len() ==> (
            #[trigger] groups@[g].1@[k]).0 < groups@[g].1@[k].1,
    ensures
        forall|c: u32, p: int| map_covers(r@, c, p) == groups_cover(groups_view(groups@), c, p),
        indices_disjoint(r@),
{
    let ghost orig = groups@;
    let mut groups = groups;
    let mut out: HashMap<u32, IntervalIndex> = HashMap::new();
    while groups.len() > 0
        invariant
            keys_unique(groups@),
            indices_disjoint(out@),
            forall|b: int| 0 <= b < groups@.len() ==> !out@.contains_key(#[trigger] groups@[b].0),
            forall|g: int, k: int|
                0 <= g < groups@.len() && 0 <= k < groups@[g].1@.len() ==> (
                #[trigger] groups@[g].1@[k]).0 < groups@[g].1@[k].1,
            forall|c: u32, p: int|
                groups_cover(groups_view(orig), c, p) == (map_covers(out@, c, p) || groups_cover(
                    groups_view(groups@),
                    c,
                    p,
                )),
        decreases groups.len(),
    {
        let ghost before = groups@;
        let ghost out_before = out@;
        let (chrom, ivs) = groups.pop().unwrap();
        assert(before == groups@.push((chrom, ivs)));
        let ghost ivs_view = ivs@;
        let mut ix = index_new(ivs);
        proof {
            assert forall|iv: (u64, u64)| #[trigger] index_intervals(ix).count(iv) > 0 implies iv.0
                < iv.1 by {
                assert(ivs_view.contains(iv));
                let k = choose|k: int| 0 <= k < ivs_view.len() && ivs_view[k] == iv;
                assert(before[before.len() - 1].1@[k] == iv);
            }
        }
        index_merge_overlaps(&mut ix);
        let ghost ixv = ix;
        assert(!out_before.contains_key(chrom)) by {
            assert(before[before.len() - 1].0 == chrom);
        }
        out.insert(chrom, ix);
        proof {
            assert(out@ == out_before.insert(chrom, ixv));
            assert forall|c: u32| #[trigger] out@.contains_key(c) implies disjoint_intervals(
                index_intervals(out@[c]),
            ) by {
                if c != chrom {
                    assert(out_before.contains_key(c));
                }
            }
            assert forall|b: int| 0 <= b < groups@.len() implies !out@.contains_key(
                #[trigger] groups@[b].0,
            ) by {
                assert(groups@[b] == before[b]);
                assert(before[b].0 != before[before.len() - 1].0);
            }
            assert forall|g: int, k: int|
                0 <= g < groups@.len() && 0 <= k < groups@[g].1@.len() implies (
                #[trigger] groups@[g].1@[k]).0 < groups@[g].1@[k].1 by {
                assert(groups@[g] == before[g]);
            }
            assert forall|c: u32, p: int|
                groups_cover(groups_view(orig), c, p) == (map_covers(out@, c, p) || groups_cover(
                    groups_view(groups@),
                    c,
                    p,
                )) by {
                lemma_covers_seq(ivs_view, p);
                let last = before.len() - 1;
                assert(groups_view(before)[last] == (chrom, ivs_view));
                if groups_cover(groups_view(before), c, p) {
                    let (g, k) = choose|g: int, k: int|
                        0 <= g < groups_view(before).len() && groups_view(before)[g].0 == c && 0
                            <= k < groups_view(before)[g].1.len() && (
                        #[trigger] groups_view(before)[g].1[k]).0 <= p < groups_view(
                            before,
                        )[g].1[k].1;
                    if g < last {
                        assert(groups_view(groups@)[g] == groups_view(before)[g]);
                        assert(groups_cover(groups_view(groups@), c, p));
                    } else {
                        assert(ivs_view[k].0 <= p < ivs_view[k].1);
                        assert(map_covers(out@, c, p));
                    }
                }
                if groups_cover(groups_view(groups@), c, p) {
                    let (g, k) = choose|g: int, k: int|
                        0 <= g < groups_view(groups@).len() && groups_view(groups@)[g].0 == c && 0
                            <= k < groups_view(groups@)[g].1.len() && (
                        #[trigger] groups_view(groups@)[g].1[k]).0 <= p < groups_view(
                            groups@,
                        )[g].1[k].1;
                    assert(groups_view(groups@)[g] == groups_view(before)[g]);
                    assert(groups_cover(groups_view(before), c, p));
                }
                if map_covers(out@, c, p) {
                    if c == chrom {
                        let k = choose|k: int|
                            0 <= k < ivs_view.len() && (#[trigger] ivs_view[k]).0 <= p
                                < ivs_view[k].1;
                        assert(groups_view(before)[last].1[k] == ivs_view[k]);
                        assert(groups_cover(groups_view(before), c, p));
                    } else {
                        assert(map_covers(out_before, c, p));
                    }
                }
                if map_covers(out_before, c, p) {
                    assert(c != chrom);
                    assert(map_covers(out@, c, p));
                }
            }
        }
    }
    proof {
        assert forall|c: u32, p: int| !groups_cover(groups_view(groups@), c, p) by {}
    }
    out
}

/// Positions of interest, per reference sequence and strand. Built once;
/// read-only afterwards.
pub struct StrandedPositionFilter {
    pos_positions: HashMap<u32, IntervalIndex>,
    neg_positions: HashMap<u32, IntervalIndex>,
}

impl StrandedPositionFilter {
    /// Whether the filter holds position `p` of `chrom` on `strand`.
    pub closed spec fn covered(&self, chrom: u32, strand: Strand, p: int) -> bool {
        match strand {
            Strand::Positive => map_covers(self.pos_positions@, chrom, p),
            Strand::Negative => map_covers(self.neg_positions@, chrom, p),
        }
    }

    pub closed spec fn wf(&self) -> bool {
        &&& indices_disjoint(self.pos_positions@)
        &&& indices_disjoint(self.neg_positions@)
    }

    /// The intervals that the filter holds for a reference sequence and
    /// strand; empty for one it does not know.
    pub closed spec fn intervals_of(&self, chrom: u32, strand: Strand) -> Multiset<(u64, u64)> {
        let m = match strand {
            Strand::Positive => self.pos_positions@,
            Strand::Negative => self.neg_positions@,
        };
        if m.contains_key(chrom) {
            index_intervals(m[chrom])
        } else {
            Multiset::empty()
        }
    }

    /// Each reference sequence and strand holds merged intervals: no two of
    /// them overlap or touch.
    pub proof fn lemma_merged(&self, chrom: u32, strand: Strand)
        requires
            self.wf(),
        ensures
            disjoint_intervals(self.intervals_of(chrom, strand)),
    {
        let m = match strand {
            Strand::Positive => self.pos_positions@,
            Strand::Negative => self.neg_positions@,
        };
        if m.contains_key(chrom) {
            assert(disjoint_intervals(index_intervals(m[chrom])));
        }
    }

    /// The filter that holds what the regions hold.
    pub fn from_regions(regions: &Vec<BedRegion>) -> (r: StrandedPositionFilter)
        ensures
            r.wf(),
            forall|c: u32, s: Strand, p: int| r.covered(c, s, p) == regions_cover(regions@, c, s, p),
    {
        let pos = build_indices(group_regions(regions, Strand::Positive));
        let neg = build_indices(group_regions(regions, Strand::Negative));
        StrandedPositionFilter { pos_positions: pos, neg_positions: neg }
    }

    /// The filter that holds what the lines of a coordinate file hold. A
    /// line that is not a region of a known reference sequence adds nothing.
    pub fn from_bed_lines(lines: &Vec<String>, chrom_to_target_id: &Vec<(String, u32)>) -> (r:
        StrandedPositionFilter)
        ensures
            r.wf(),
            forall|c: u32, s: Strand, p: int|
                r.covered(c, s, p) == lines_cover(lines@, name_view(chrom_to_target_id@), c, s, p),
    {
        let ghost nv = name_view(chrom_to_target_id@);
        let mut regions: Vec<BedRegion> = Vec::new();
        let mut i: usize = 0;
        while i < lines.len()
            invariant
                nv == name_view(chrom_to_target_id@),
                i <= lines.len(),
                forall|c: u32, s: Strand, p: int|
                    regions_cover(regions@, c, s, p) == lines_cover(
                        lines@.subrange(0, i as int),
                        nv,
                        c,
                        s,
                        p,
                    ),
            decreases lines.len() - i,
        {
            let ghost before = regions@;
            let parsed = parse_bed_line(lines[i].as_str(), chrom_to_target_id);
            if let Some(reg) = parsed {
                regions.push(reg);
            }
            proof {
                let l0 = lines@.subrange(0, i as int);
                let l1 = lines@.subrange(0, i as int + 1);
                assert forall|c: u32, s: Strand, p: int|
                    regions_cover(regions@, c, s, p) == lines_cover(l1, nv, c, s, p) by {
                    assert(regions_cover(before, c, s, p) == lines_cover(l0, nv, c, s, p));
                    if regions_cover(regions@, c, s, p) {
                        let j = choose|j: int|
                            0 <= j < regions@.len() && region_covers(#[trigger] regions@[j], c, s, p);
                        if j < before.len() {
                            assert(regions@[j] == before[j]);
                            assert(regions_cover(before, c, s, p));
                            let k = choose|k: int|
                                0 <= k < l0.len() && line_covers(#[trigger] l0[k], nv, c, s, p);
                            assert(l1[k] == l0[k]);
                        } else {
                            assert(l1[i as int] == lines@[i as int]);
                            assert(line_covers(l1[i as int], nv, c, s, p));
                        }
                    }
                    if lines_cover(l1, nv, c, s, p) {
                        let k = choose|k: int|
                            0 <= k < l1.len() && line_covers(#[trigger] l1[k], nv, c, s, p);
                        if k < i {
                            assert(l1[k] == l0[k]);
                            assert(lines_cover(l0, nv, c, s, p));
                            let j = choose|j: int|
                                0 <= j < before.len() && region_covers(#[trigger] before[j], c, s, p);
                            assert(regions@[j] == before[j]);
                        } else {
                            assert(l1[k] == lines@[i as int]);
                            assert(regions@[regions@.len() - 1] == parsed->Some_0);
                        }
                    }
                }
            }
            i = i + 1;
        }
        assert(lines@.subrange(0, i as int) =~= lines@);
        Self::from_regions(&regions)
    }

    /// Whether position `position` of reference sequence `chrom_id` on `strand`
    /// is in the filter; a negative or unknown id is in none.
    pub fn contains(&self, chrom_id: i32, position: u64, strand: Strand) -> (r: bool)
        requires
            self.wf(),
        ensures
            r == (chrom_id >= 0 && self.covered(chrom_id as u32, strand, position as int)),
    {
        if chrom_id < 0 {
            return false;
        }
        self.contains_chrom(chrom_id as u32, position, strand)
    }

    fn contains_chrom(&self, chrom: u32, position: u64, strand: Strand) -> (r: bool)
        requires
            self.wf(),
        ensures
            r == self.covered(chrom, strand, position as int),
    {
        let positions = match strand {
            Strand::Positive => &self.pos_positions,
            Strand::Negative => &self.neg_positions,
        };
        match positions.get(&chrom) {
            Some(ix) => {
                if position == u64::MAX {
                    assert(!covers(index_intervals(*ix), position as int));
                    false
                } else {
                    index_find_point(ix, position)
                }
            },
            None => false,
        }
    }
}

/// Positions to keep: inside the include filter, if there is one, and outside
/// the exclude filter, if there is one.
pub struct ReferencePositionFilter {
    pub include_pos: Option<StrandedPositionFilter>,
    pub exclude_pos: Option<StrandedPositionFilter>,
    pub include_unmapped: bool,
}

impl ReferencePositionFilter {
    pub open spec fn filters_wf(&self) -> bool {
        &&& self.include_pos matches Some(f) ==> f.wf()
        &&& self.exclude_pos matches Some(f) ==> f.wf()
    }

    /// What `keep` answers.
    pub open spec fn keeps(
        &self,
        chrom_id: u32,
        position: u64,
        alignment_strand: Strand,
        mod_strand: Strand,
    ) -> bool {
        let s = reference_mod_strand(mod_strand, alignment_strand);
        let included = match self.include_pos {
            Some(f) => f.covered(chrom_id, s, position as int),
            None => true,
        };
        let excluded = match self.exclude_pos {
            Some(f) => f.covered(chrom_id, s, position as int),
            None => false,
        };
        included && !excluded
    }

    /// Whether a call at a reference position is kept. The filters are
    /// strand-specific on the reference: the strand of the call's base there.
    pub fn keep(&self, chrom_id: u32, position: u64, alignment_strand: Strand, mod_strand: Strand) -> (r:
        bool)
        requires
            self.filters_wf(),
        ensures
            r == self.keeps(chrom_id, position, alignment_strand, mod_strand),
    {
        let strand = get_reference_mod_strand(mod_strand, alignment_strand);
        let include_hit = match &self.include_pos {
            Some(f) => f.contains_chrom(chrom_id, position, strand),
            None => true,
        };
        let exclude_hit = match &self.exclude_pos {
            Some(f) => f.contains_chrom(chrom_id, position, strand),
            None => false,
        };
        include_hit && !exclude_hit
    }

    /// Whether a call is kept, where the read may be unmapped (no reference
    /// id, position or strand): such calls are kept as `include_unmapped`
    /// says.
    pub fn keep_call(
        &self,
        chrom_id: Option<u32>,
        ref_position: Option<u64>,
        alignment_strand: Option<Strand>,
        mod_strand: Strand,
    ) -> (r: bool)
        requires
            self.filters_wf(),
        ensures
            (chrom_id is None || ref_position is None || alignment_strand is None) ==> r
                == self.include_unmapped,
            chrom_id is Some && ref_position is Some && alignment_strand is Some ==> r == self.keeps(
                chrom_id->Some_0,
                ref_position->Some_0,
                alignment_strand->Some_0,
                mod_strand,
            ),
    {
        match (chrom_id, ref_position, alignment_strand) {
            (Some(c), Some(p), Some(s)) => self.keep(c, p, s, mod_strand),
            _ => self.include_unmapped,
        }
    }
}

} // verus!
