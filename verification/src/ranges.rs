//! The address ranges that the loadable segments of the linked program cover.

use vstd::prelude::*;
use vstd::relations::{sorted_by, total_ordering};
use crate::elf_file::{ProgramHeader, sat_add};

verus! {

/// The half-open range `[start, end)` of memory addresses that a segment occupies.
pub open spec fn segment_range(p: ProgramHeader) -> (u64, u64) {
    (p.p_vaddr, sat_add(p.p_vaddr, p.p_memsz))
}

/// The ranges of the segments, in the order of the headers.
pub open spec fn segment_ranges(phdrs: Seq<ProgramHeader>) -> Seq<(u64, u64)> {
    phdrs.map_values(|p: ProgramHeader| segment_range(p))
}

/// The order of ranges: by start, then by end.
pub open spec fn range_le(a: (u64, u64), b: (u64, u64)) -> bool {
    a.0 < b.0 || (a.0 == b.0 && a.1 <= b.1)
}

/// `range_le` as a relation.
pub open spec fn range_order() -> spec_fn((u64, u64), (u64, u64)) -> bool {
    |a: (u64, u64), b: (u64, u64)| range_le(a, b)
}

/// Folds a sequence of ranges, sorted by start, into the fewest ranges that
/// cover the same addresses: a range that starts at or before the end of the
/// range built so far extends that range.
pub open spec fn merge_sorted_ranges(s: Seq<(u64, u64)>) -> Seq<(u64, u64)>
    decreases s.len(),
{
    if s.len() == 0 {
        Seq::empty()
    } else {
        let m = merge_sorted_ranges(s.drop_last());
        let r = s.last();
        if m.len() > 0 && m.last().1 >= r.0 {
            let l = m.last();
            m.update(m.len() - 1, (l.0, if l.1 >= r.1 { l.1 } else { r.1 }))
        } else {
            m.push(r)
        }
    }
}

/// The contiguous address ranges that a list of program headers covers.
pub open spec fn collapsed_ranges(phdrs: Seq<ProgramHeader>) -> Seq<(u64, u64)> {
    merge_sorted_ranges(segment_ranges(phdrs).sort_by(range_order()))
}

/// Some range of `s` holds `addr`.
pub open spec fn covers(s: Seq<(u64, u64)>, addr: int) -> bool {
    exists|i: int| 0 <= i < s.len() && #[trigger] s[i].0 <= addr && addr < s[i].1
}

/// The ranges are each well formed, ordered, and separated by a gap.
pub open spec fn separated(s: Seq<(u64, u64)>) -> bool {
    &&& forall|i: int| 0 <= i < s.len() ==> #[trigger] s[i].0 <= s[i].1
    &&& forall|i: int| 0 <= i < s.len() - 1 ==> #[trigger] s[i].1 < s[i + 1].0
}

proof fn lemma_range_order_total()
    ensures
        total_ordering(range_order()),
{
    let r = range_order();
    assert forall|x: (u64, u64), y: (u64, u64), z: (u64, u64)|
        #[trigger] r(x, y) && #[trigger] r(y, z) implies r(x, z) by {}
    assert forall|x: (u64, u64), y: (u64, u64)| #[trigger] r(x, y) && #[trigger] r(y, x) implies x
        == y by {}
}

/// The collapsed ranges depend only on which ranges the headers give, not
/// on the order of the headers nor on their other fields: headers whose
/// ranges are the same multiset collapse to the same ranges.
pub proof fn lemma_collapsed_ranges_ignore_order(ps1: Seq<ProgramHeader>, ps2: Seq<ProgramHeader>)
    requires
        segment_ranges(ps1).to_multiset() == segment_ranges(ps2).to_multiset(),
    ensures
        collapsed_ranges(ps1) == collapsed_ranges(ps2),
{
    lemma_range_order_total();
    let r1 = segment_ranges(ps1);
    let r2 = segment_ranges(ps2);
    r1.lemma_sort_by_ensures(range_order());
    r2.lemma_sort_by_ensures(range_order());
    vstd::seq_lib::lemma_sorted_unique(
        r1.sort_by(range_order()),
        r2.sort_by(range_order()),
        range_order(),
    );
}

/// Sorts ranges by start, then end.
fn sort_ranges(v: Vec<(u64, u64)>) -> (r: Vec<(u64, u64)>)
    ensures
        r@ == v@.sort_by(range_order()),
{
    broadcast use vstd::seq_lib::group_to_multiset_ensures;

    let mut out: Vec<(u64, u64)> = Vec::new();
    let mut i: usize = 0;
    while i < v.len()
        invariant
            i <= v.len(),
            sorted_by(out@, range_order()),
            out@.to_multiset() == v@.take(i as int).to_multiset(),
        decreases v.len() - i,
    {
        let x = v[i];
        let mut pos: usize = 0;
        while pos < out.len() && (out[pos].0 < x.0 || (out[pos].0 == x.0 && out[pos].1 <= x.1))
            invariant
                pos <= out.len(),
                forall|j: int| 0 <= j < pos ==> range_le(#[trigger] out@[j], x),
            decreases out.len() - pos,
        {
            pos = pos + 1;
        }
        let ghost before = out@;
        out.insert(pos, x);
        proof {
            assert forall|a: int, b: int| 0 <= a < b < out@.len() implies #[trigger] range_order()(
                out@[a],
                out@[b],
            ) by {
                if b < pos {
                    assert(range_order()(before[a], before[b]));
                } else if a > pos {
                    assert(range_order()(before[a - 1], before[b - 1]));
                } else if a == pos {
                    if b > pos + 1 {
                        assert(range_order()(before[pos as int], before[b - 1]));
                    }
                } else {
                    assert(range_le(before[a], x));
                }
            }
            assert(v@.take(i + 1) =~= v@.take(i as int).push(x));
            assert(out@ == before.insert(pos as int, x));
            vstd::seq_lib::to_multiset_insert(before, pos as int, x);
            vstd::seq_lib::to_multiset_build(v@.take(i as int), x);
            assert(out@.to_multiset() =~= v@.take(i + 1).to_multiset());
        }
        i = i + 1;
    }
    proof {
        assert(v@.take(v.len() as int) =~= v@);
        lemma_range_order_total();
        v@.lemma_sort_by_ensures(range_order());
        vstd::seq_lib::lemma_sorted_unique(out@, v@.sort_by(range_order()), range_order());
    }
    out
}

/// Every range of `s` has its start at or before its end.
pub open spec fn well_formed_ranges(s: Seq<(u64, u64)>) -> bool {
    forall|i: int| 0 <= i < s.len() ==> #[trigger] s[i].0 <= s[i].1
}

proof fn lemma_merge_sorted_ranges(s: Seq<(u64, u64)>)
    requires
        sorted_by(s, range_order()),
    ensures
        forall|a: int| #[trigger] covers(merge_sorted_ranges(s), a) <==> covers(s, a),
        s.len() > 0 ==> merge_sorted_ranges(s).len() > 0 && merge_sorted_ranges(s).last().0
            <= s.last().0,
        merge_sorted_ranges(s).len() <= s.len(),
        well_formed_ranges(s) ==> separated(merge_sorted_ranges(s)),
    decreases s.len(),
{
    if s.len() > 0 {
        let sp = s.drop_last();
        assert(sorted_by(sp, range_order())) by {
            assert forall|i: int, j: int| 0 <= i < j < sp.len() implies #[trigger] range_order()(
                sp[i],
                sp[j],
            ) by {
                assert(range_order()(s[i], s[j]));
            }
        }
        lemma_merge_sorted_ranges(sp);
        let m = merge_sorted_ranges(sp);
        let r = s.last();
        let out = merge_sorted_ranges(s);
        if m.len() > 0 && m.last().1 >= r.0 {
            let l = m.last();
            let last = m.len() - 1;
            assert(range_order()(sp.last(), r)) by {
                assert(range_order()(s[s.len() - 2], s[s.len() - 1]));
            }
            assert(l.0 <= r.0);
            assert forall|a: int| covers(out, a) implies covers(s, a) by {
                let i = choose|i: int| 0 <= i < out.len() && #[trigger] out[i].0 <= a && a < out[i].1;
                if i != last {
                    assert(m[i].0 <= a && a < m[i].1);
                    assert(covers(m, a));
                    assert(covers(sp, a));
                    let j = choose|j: int| 0 <= j < sp.len() && #[trigger] sp[j].0 <= a && a < sp[j].1;
                    assert(s[j].0 <= a && a < s[j].1);
                } else if a < l.1 {
                    assert(m[last].0 <= a && a < m[last].1);
                    assert(covers(m, a));
                    assert(covers(sp, a));
                    let j = choose|j: int| 0 <= j < sp.len() && #[trigger] sp[j].0 <= a && a < sp[j].1;
                    assert(s[j].0 <= a && a < s[j].1);
                } else {
                    assert(s[s.len() - 1].0 <= a && a < s[s.len() - 1].1);
                }
            }
            assert forall|a: int| covers(s, a) implies covers(out, a) by {
                let j = choose|j: int| 0 <= j < s.len() && #[trigger] s[j].0 <= a && a < s[j].1;
                if j < s.len() - 1 {
                    assert(sp[j].0 <= a && a < sp[j].1);
                    assert(covers(sp, a));
                    assert(covers(m, a));
                    let i = choose|i: int| 0 <= i < m.len() && #[trigger] m[i].0 <= a && a < m[i].1;
                    if i != last {
                        assert(out[i].0 <= a && a < out[i].1);
                    } else {
                        assert(out[last].0 <= a && a < out[last].1);
                    }
                } else {
                    assert(out[last].0 <= a && a < out[last].1);
                }
            }
            if well_formed_ranges(s) {
                assert(well_formed_ranges(sp)) by {
                    assert forall|i: int| 0 <= i < sp.len() implies #[trigger] sp[i].0 <= sp[i].1 by {
                        assert(s[i].0 <= s[i].1);
                    }
                }
                assert forall|i: int| 0 <= i < out.len() - 1 implies #[trigger] out[i].1 < out[i + 1].0 by {
                    assert(m[i].1 < m[i + 1].0);
                }
            }
        } else {
            assert forall|a: int| covers(out, a) implies covers(s, a) by {
                let i = choose|i: int| 0 <= i < out.len() && #[trigger] out[i].0 <= a && a < out[i].1;
                if i < m.len() {
                    assert(m[i].0 <= a && a < m[i].1);
                    assert(covers(m, a));
                    assert(covers(sp, a));
                    let j = choose|j: int| 0 <= j < sp.len() && #[trigger] sp[j].0 <= a && a < sp[j].1;
                    assert(s[j].0 <= a && a < s[j].1);
                } else {
                    assert(s[s.len() - 1].0 <= a && a < s[s.len() - 1].1);
                }
            }
            assert forall|a: int| covers(s, a) implies covers(out, a) by {
                let j = choose|j: int| 0 <= j < s.len() && #[trigger] s[j].0 <= a && a < s[j].1;
                if j < s.len() - 1 {
                    assert(sp[j].0 <= a && a < sp[j].1);
                    assert(covers(sp, a));
                    assert(covers(m, a));
                    let i = choose|i: int| 0 <= i < m.len() && #[trigger] m[i].0 <= a && a < m[i].1;
                    assert(out[i].0 <= a && a < out[i].1);
                } else {
                    assert(out[out.len() - 1].0 <= a && a < out[out.len() - 1].1);
                }
            }
            if m.len() > 0 {
                assert(range_order()(sp.last(), r)) by {
                    assert(range_order()(s[s.len() - 2], s[s.len() - 1]));
                }
            }
            if well_formed_ranges(s) {
                assert(well_formed_ranges(sp)) by {
                    assert forall|i: int| 0 <= i < sp.len() implies #[trigger] sp[i].0 <= sp[i].1 by {
                        assert(s[i].0 <= s[i].1);
                    }
                }
                assert(s[s.len() - 1].0 <= s[s.len() - 1].1);
                assert forall|i: int| 0 <= i < out.len() - 1 implies #[trigger] out[i].1 < out[i + 1].0 by {
                    if i < m.len() - 1 {
                        assert(m[i].1 < m[i + 1].0);
                    }
                }
            }
        }
    }
}

/// An address lies in one of the collapsed ranges exactly when it lies in
/// `[p_vaddr, p_vaddr + p_memsz)` (the end saturating) of one of the headers.
pub proof fn lemma_collapsed_ranges_cover_segments(phdrs: Seq<ProgramHeader>, addr: int)
    ensures
        covers(collapsed_ranges(phdrs), addr) <==> exists|i: int|
            0 <= i < phdrs.len() && (#[trigger] phdrs[i]).p_vaddr <= addr && addr < sat_add(
                phdrs[i].p_vaddr,
                phdrs[i].p_memsz,
            ),
{
    broadcast use vstd::seq_lib::group_to_multiset_ensures;

    let raw = segment_ranges(phdrs);
    let sorted = raw.sort_by(range_order());
    lemma_range_order_total();
    raw.lemma_sort_by_ensures(range_order());
    lemma_merge_sorted_ranges(sorted);
    if covers(sorted, addr) {
        let j = choose|j: int| 0 <= j < sorted.len() && #[trigger] sorted[j].0 <= addr && addr < sorted[j].1;
        assert(sorted.contains(sorted[j]));
        assert(sorted.to_multiset().count(sorted[j]) > 0);
        assert(raw.contains(sorted[j]));
        let i = choose|i: int| 0 <= i < raw.len() && raw[i] == sorted[j];
        assert(phdrs[i].p_vaddr <= addr);
    }
    if exists|i: int|
        0 <= i < phdrs.len() && (#[trigger] phdrs[i]).p_vaddr <= addr && addr < sat_add(
            phdrs[i].p_vaddr,
            phdrs[i].p_memsz,
        ) {
        let i = choose|i: int|
            0 <= i < phdrs.len() && (#[trigger] phdrs[i]).p_vaddr <= addr && addr < sat_add(
                phdrs[i].p_vaddr,
                phdrs[i].p_memsz,
            );
        assert(raw[i] == segment_range(phdrs[i]));
        assert(raw.contains(raw[i]));
        assert(raw.to_multiset().count(raw[i]) > 0);
        assert(sorted.contains(raw[i]));
        let j = choose|j: int| 0 <= j < sorted.len() && sorted[j] == raw[i];
        assert(sorted[j].0 <= addr && addr < sorted[j].1);
    }
}

/// The collapsed ranges are sorted, each runs forward, neighbours neither
/// overlap nor touch, and there are no more of them than headers.
pub proof fn lemma_collapsed_ranges_separated(phdrs: Seq<ProgramHeader>)
    ensures
        separated(collapsed_ranges(phdrs)),
        collapsed_ranges(phdrs).len() <= phdrs.len(),
{
    broadcast use vstd::seq_lib::group_to_multiset_ensures;

    let raw = segment_ranges(phdrs);
    let sorted = raw.sort_by(range_order());
    lemma_range_order_total();
    raw.lemma_sort_by_ensures(range_order());
    assert(well_formed_ranges(sorted)) by {
        assert forall|j: int| 0 <= j < sorted.len() implies #[trigger] sorted[j].0 <= sorted[j].1 by {
            assert(sorted.contains(sorted[j]));
            assert(sorted.to_multiset().count(sorted[j]) > 0);
            assert(raw.contains(sorted[j]));
        }
    }
    assert(sorted.len() == raw.len()) by {
        assert(sorted.to_multiset().len() == raw.to_multiset().len());
    }
    lemma_merge_sorted_ranges(sorted);
}

/// Collapses the program headers into the contiguous address ranges they
/// occupy, each `[p_vaddr, p_vaddr + p_memsz)` with a saturating end, sorted
/// and with overlapping or touching ranges merged.
pub fn segments_to_ranges(program_headers: &[ProgramHeader]) -> (r: Vec<(u64, u64)>)
    ensures
        r@ == collapsed_ranges(program_headers@),
{
    let mut raw: Vec<(u64, u64)> = Vec::new();
    let mut i: usize = 0;
    while i < program_headers.len()
        invariant
            i <= program_headers@.len(),
            raw@ == segment_ranges(program_headers@.take(i as int)),
        decreases program_headers.len() - i,
    {
        let p = program_headers[i];
        raw.push((p.p_vaddr, p.p_vaddr.saturating_add(p.p_memsz)));
        assert(program_headers@.take(i + 1) =~= program_headers@.take(i as int).push(p));
        i = i + 1;
    }
    assert(program_headers@.take(program_headers@.len() as int) =~= program_headers@);
    let sorted = sort_ranges(raw);
    let mut out: Vec<(u64, u64)> = Vec::new();
    let mut k: usize = 0;
    while k < sorted.len()
        invariant
            k <= sorted.len(),
            out@ == merge_sorted_ranges(sorted@.take(k as int)),
        decreases sorted.len() - k,
    {
        let (start, end) = sorted[k];
        assert(sorted@.take(k + 1).drop_last() =~= sorted@.take(k as int));
        if out.len() > 0 && out[out.len() - 1].1 >= start {
            let last = out.len() - 1;
            let (lstart, lend) = out[last];
            let new_end = if lend >= end {
                lend
            } else {
                end
            };
            out.set(last, (lstart, new_end));
        } else {
            out.push((start, end));
        }
        k = k + 1;
    }
    assert(sorted@.take(sorted@.len() as int) =~= sorted@);
    out
}

} // verus!
