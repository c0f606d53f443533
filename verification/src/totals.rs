//! The counts of an analysis as sums: each statistic is the saturated sum of
//! what the objects contribute, so the order of the objects does not matter.

use vstd::prelude::*;
use crate::build_analyzer::{
    Stats, object_step, objects_analysis, pointer_like_count, sat_add_usize, symbol_step,
    symbols_step, zero_stats,
};
use crate::elf_file::symbol_bytes;
use crate::elf_reader::ElfView;
use crate::errors::Error;
use crate::xmap_file::{SectionType, XmapKey, XmapValue};

verus! {

/// Unsaturated contributions, in the order of the fields of `Stats`: bytes
/// of C code, C data, assembly code, assembly data, properly-linked
/// pointers, hard-coded pointers.
pub type Totals = (nat, nat, nat, nat, nat, nat);

/// Nothing counted.
pub open spec fn no_totals() -> Totals {
    (0, 0, 0, 0, 0, 0)
}

/// Field-wise sum.
pub open spec fn add_totals(a: Totals, b: Totals) -> Totals {
    (a.0 + b.0, a.1 + b.1, a.2 + b.2, a.3 + b.3, a.4 + b.4, a.5 + b.5)
}

/// `st` with `t` added to each field, saturating at `usize::MAX`.
pub open spec fn saturate(st: Stats, t: Totals) -> Stats {
    Stats {
        c_code_bytes: sat_add_usize(st.c_code_bytes, t.0 as int),
        c_data_bytes: sat_add_usize(st.c_data_bytes, t.1 as int),
        asm_code_bytes: sat_add_usize(st.asm_code_bytes, t.2 as int),
        asm_data_bytes: sat_add_usize(st.asm_data_bytes, t.3 as int),
        resolved_pointers: sat_add_usize(st.resolved_pointers, t.4 as int),
        hardcoded_pointers: sat_add_usize(st.hardcoded_pointers, t.5 as int),
    }
}

/// An entry of the source map together with its object.
pub type Unit = ((Seq<char>, Seq<char>, bool), ElfView);

/// What one symbol contributes, independent of what was counted before.
pub open spec fn symbol_delta(
    sections: Seq<(crate::elf_file::SectionHeader, Seq<u8>)>,
    sym: (crate::elf_file::Symbol, Seq<char>),
    subpath: Seq<char>,
    is_c: bool,
    lookup: spec_fn(XmapKey) -> Option<XmapValue>,
    ranges: Seq<(u64, u64)>,
) -> Result<Totals, Error> {
    match lookup((subpath, is_c, sym.1)) {
        Some(rx) => if sym.0.st_size != 0 && (is_c || rx.0 == sym.1) {
            match symbol_bytes(sections, sym.0) {
                Err(e) => Err(e),
                Ok(d) => {
                    let size = rx.2 as nat;
                    let p = pointer_like_count(d, ranges);
                    Ok(
                        match rx.1 {
                            SectionType::Code => if is_c {
                                (size, 0, 0, 0, 0, p)
                            } else {
                                (0, 0, size, 0, 0, p)
                            },
                            SectionType::Data => if is_c {
                                (0, size, 0, 0, 0, p)
                            } else {
                                (0, 0, 0, size, 0, p)
                            },
                            _ => (0, 0, 0, 0, 0, p),
                        },
                    )
                },
            }
        } else {
            Ok(no_totals())
        },
        None => Ok(no_totals()),
    }
}

/// What the first `n` symbols of an object contribute; `Err` with the first failure.
pub open spec fn symbols_delta(
    o: ElfView,
    n: nat,
    subpath: Seq<char>,
    is_c: bool,
    lookup: spec_fn(XmapKey) -> Option<XmapValue>,
    ranges: Seq<(u64, u64)>,
) -> Result<Totals, Error>
    decreases n,
{
    if n == 0 {
        Ok(no_totals())
    } else {
        match symbols_delta(o, (n - 1) as nat, subpath, is_c, lookup, ranges) {
            Err(e) => Err(e),
            Ok(t) => match symbol_delta(o.0, o.2[n - 1], subpath, is_c, lookup, ranges) {
                Err(e) => Err(e),
                Ok(d) => Ok(add_totals(t, d)),
            },
        }
    }
}

/// What one object contributes: its relocations and its symbols.
pub open spec fn unit_delta(
    u: Unit,
    lookup: spec_fn(XmapKey) -> Option<XmapValue>,
    ranges: Seq<(u64, u64)>,
) -> Result<Totals, Error> {
    let o = u.1;
    match symbols_delta(o, o.2.len(), u.0.1, u.0.2, lookup, ranges) {
        Err(e) => Err(e),
        Ok(t) => Ok(add_totals((0, 0, 0, 0, o.3.len() + o.4.len(), 0), t)),
    }
}

/// What all the objects contribute together, or `None` where one fails.
pub open spec fn units_total(
    us: Seq<Unit>,
    lookup: spec_fn(XmapKey) -> Option<XmapValue>,
    ranges: Seq<(u64, u64)>,
) -> Option<Totals>
    decreases us.len(),
{
    if us.len() == 0 {
        Some(no_totals())
    } else {
        match units_total(us.drop_last(), lookup, ranges) {
            None => None,
            Some(t) => match unit_delta(us.last(), lookup, ranges) {
                Err(_) => None,
                Ok(d) => Some(add_totals(t, d)),
            },
        }
    }
}

/// The entries of a source map paired with their objects.
pub open spec fn units_of(
    entries: Seq<(Seq<char>, Seq<char>, bool)>,
    objects: Seq<ElfView>,
    n: nat,
) -> Seq<Unit> {
    Seq::new(n, |i: int| (entries[i], objects[i]))
}

proof fn lemma_saturate_twice(st: Stats, a: Totals, b: Totals)
    ensures
        saturate(saturate(st, a), b) == saturate(st, add_totals(a, b)),
{
}

proof fn lemma_symbol_step_is_delta(
    st: Stats,
    sections: Seq<(crate::elf_file::SectionHeader, Seq<u8>)>,
    sym: (crate::elf_file::Symbol, Seq<char>),
    subpath: Seq<char>,
    is_c: bool,
    lookup: spec_fn(XmapKey) -> Option<XmapValue>,
    ranges: Seq<(u64, u64)>,
)
    ensures
        symbol_step(st, sections, sym, subpath, is_c, lookup, ranges) == match symbol_delta(
            sections,
            sym,
            subpath,
            is_c,
            lookup,
            ranges,
        ) {
            Err(e) => Err(e),
            Ok(d) => Ok::<Stats, Error>(saturate(st, d)),
        },
{
}

proof fn lemma_symbols_step_is_delta(
    st: Stats,
    o: ElfView,
    n: nat,
    subpath: Seq<char>,
    is_c: bool,
    lookup: spec_fn(XmapKey) -> Option<XmapValue>,
    ranges: Seq<(u64, u64)>,
)
    ensures
        symbols_step(st, o, n, subpath, is_c, lookup, ranges) == match symbols_delta(
            o,
            n,
            subpath,
            is_c,
            lookup,
            ranges,
        ) {
            Err(e) => Err(e),
            Ok(t) => Ok::<Stats, Error>(saturate(st, t)),
        },
    decreases n,
{
    if n == 0 {
        assert(saturate(st, no_totals()) == st);
    } else {
        lemma_symbols_step_is_delta(st, o, (n - 1) as nat, subpath, is_c, lookup, ranges);
        if let Ok(t) = symbols_delta(o, (n - 1) as nat, subpath, is_c, lookup, ranges) {
            lemma_symbol_step_is_delta(saturate(st, t), o.0, o.2[n - 1], subpath, is_c, lookup, ranges);
            if let Ok(d) = symbol_delta(o.0, o.2[n - 1], subpath, is_c, lookup, ranges) {
                lemma_saturate_twice(st, t, d);
            }
        }
    }
}

/// Each statistic is the sum of what the objects contribute, saturated at
/// `usize::MAX`, and the analysis fails exactly when one object's
/// contribution cannot be found.
pub proof fn lemma_analysis_is_saturated_total(
    entries: Seq<(Seq<char>, Seq<char>, bool)>,
    objects: Seq<ElfView>,
    n: nat,
    lookup: spec_fn(XmapKey) -> Option<XmapValue>,
    ranges: Seq<(u64, u64)>,
)
    requires
        n <= entries.len(),
        n <= objects.len(),
    ensures
        match objects_analysis(entries, objects, n, lookup, ranges) {
            Ok(s) => units_total(units_of(entries, objects, n), lookup, ranges) matches Some(t)
                && s == saturate(zero_stats(), t),
            Err(_) => units_total(units_of(entries, objects, n), lookup, ranges) is None,
        },
    decreases n,
{
    let us = units_of(entries, objects, n);
    if n == 0 {
        assert(saturate(zero_stats(), no_totals()) == zero_stats());
    } else {
        lemma_analysis_is_saturated_total(entries, objects, (n - 1) as nat, lookup, ranges);
        assert(us.drop_last() =~= units_of(entries, objects, (n - 1) as nat));
        assert(us.last() == (entries[n - 1], objects[n - 1]));
        if let Ok(st) = objects_analysis(entries, objects, (n - 1) as nat, lookup, ranges) {
            let o = objects[n - 1];
            let t = units_total(units_of(entries, objects, (n - 1) as nat), lookup, ranges).unwrap();
            let rel: Totals = (0, 0, 0, 0, o.3.len() + o.4.len(), 0);
            let st2 = Stats {
                resolved_pointers: sat_add_usize(
                    sat_add_usize(st.resolved_pointers, o.3.len() as int),
                    o.4.len() as int,
                ),
                ..st
            };
            assert(st2 == saturate(zero_stats(), add_totals(t, rel)));
            lemma_symbols_step_is_delta(st2, o, o.2.len(), entries[n - 1].1, entries[n - 1].2, lookup, ranges);
            if let Ok(d) = symbols_delta(o, o.2.len(), entries[n - 1].1, entries[n - 1].2, lookup, ranges) {
                lemma_saturate_twice(zero_stats(), add_totals(t, rel), d);
                assert(add_totals(add_totals(t, rel), d) == add_totals(t, add_totals(rel, d)));
            }
        }
    }
}

proof fn lemma_units_total_append(
    a: Seq<Unit>,
    b: Seq<Unit>,
    lookup: spec_fn(XmapKey) -> Option<XmapValue>,
    ranges: Seq<(u64, u64)>,
)
    ensures
        units_total(a + b, lookup, ranges) == match (
            units_total(a, lookup, ranges),
            units_total(b, lookup, ranges),
        ) {
            (Some(x), Some(y)) => Some(add_totals(x, y)),
            _ => None::<Totals>,
        },
    decreases b.len(),
{
    if b.len() == 0 {
        assert(a + b =~= a);
        if let Some(x) = units_total(a, lookup, ranges) {
            assert(add_totals(x, no_totals()) == x);
        }
    } else {
        lemma_units_total_append(a, b.drop_last(), lookup, ranges);
        assert((a + b).drop_last() =~= a + b.drop_last());
        assert((a + b).last() == b.last());
    }
}

proof fn lemma_units_total_single(
    u: Unit,
    lookup: spec_fn(XmapKey) -> Option<XmapValue>,
    ranges: Seq<(u64, u64)>,
)
    ensures
        units_total(seq![u], lookup, ranges) == match unit_delta(u, lookup, ranges) {
            Ok(d) => Some(d),
            Err(_) => None::<Totals>,
        },
{
    assert(seq![u].drop_last() =~= Seq::<Unit>::empty());
    assert(seq![u].last() == u);
    assert(units_total(Seq::<Unit>::empty(), lookup, ranges) == Some(no_totals()));
    assert(units_total(seq![u].drop_last(), lookup, ranges) == Some(no_totals()));
    if let Ok(d) = unit_delta(u, lookup, ranges) {
        assert(add_totals(no_totals(), d) == d);
    }
}

proof fn lemma_units_total_remove(
    us: Seq<Unit>,
    j: int,
    lookup: spec_fn(XmapKey) -> Option<XmapValue>,
    ranges: Seq<(u64, u64)>,
)
    requires
        0 <= j < us.len(),
    ensures
        units_total(us, lookup, ranges) == match (
            units_total(us.remove(j), lookup, ranges),
            unit_delta(us[j], lookup, ranges),
        ) {
            (Some(x), Ok(d)) => Some(add_totals(x, d)),
            _ => None::<Totals>,
        },
{
    let pre = us.take(j);
    let post = us.skip(j + 1);
    assert(us =~= pre + seq![us[j]] + post);
    assert(us.remove(j) =~= pre + post);
    lemma_units_total_append(pre + seq![us[j]], post, lookup, ranges);
    lemma_units_total_append(pre, seq![us[j]], lookup, ranges);
    lemma_units_total_append(pre, post, lookup, ranges);
    lemma_units_total_single(us[j], lookup, ranges);
}

proof fn lemma_units_total_permutation(
    a: Seq<Unit>,
    b: Seq<Unit>,
    lookup: spec_fn(XmapKey) -> Option<XmapValue>,
    ranges: Seq<(u64, u64)>,
)
    requires
        a.to_multiset() == b.to_multiset(),
    ensures
        units_total(a, lookup, ranges) == units_total(b, lookup, ranges),
    decreases a.len(),
{
    broadcast use vstd::seq_lib::group_to_multiset_ensures;

    if a.len() == 0 {
        assert(b.len() == 0) by {
            assert(b.to_multiset().len() == 0);
        }
        assert(b =~= Seq::<Unit>::empty());
        assert(a =~= Seq::<Unit>::empty());
    } else {
        let x = a.last();
        assert(a.to_multiset().count(x) > 0) by {
            assert(a.contains(x)) by {
                assert(a[a.len() - 1] == x);
            }
        }
        assert(b.contains(x));
        let j = choose|j: int| 0 <= j < b.len() && b[j] == x;
        assert(a =~= a.drop_last().push(x));
        assert(a.drop_last().to_multiset() =~= b.remove(j).to_multiset()) by {
            assert(a.drop_last().push(x).to_multiset() == a.drop_last().to_multiset().insert(x));
            assert(b.remove(j).to_multiset() == b.to_multiset().remove(b[j]));
        }
        lemma_units_total_permutation(a.drop_last(), b.remove(j), lookup, ranges);
        lemma_units_total_remove(b, j, lookup, ranges);
    }
}

/// The statistics do not depend on the order of the objects: two source maps
/// that pair the same entries with the same objects, in any order, either both
/// fail or both give the same statistics.
pub proof fn lemma_analysis_ignores_object_order(
    entries1: Seq<(Seq<char>, Seq<char>, bool)>,
    objects1: Seq<ElfView>,
    entries2: Seq<(Seq<char>, Seq<char>, bool)>,
    objects2: Seq<ElfView>,
    lookup: spec_fn(XmapKey) -> Option<XmapValue>,
    ranges: Seq<(u64, u64)>,
)
    requires
        entries1.len() == objects1.len(),
        entries2.len() == objects2.len(),
        units_of(entries1, objects1, entries1.len()).to_multiset() == units_of(
            entries2,
            objects2,
            entries2.len(),
        ).to_multiset(),
    ensures
        objects_analysis(entries1, objects1, objects1.len(), lookup, ranges) is Ok
            <==> objects_analysis(entries2, objects2, objects2.len(), lookup, ranges) is Ok,
        objects_analysis(entries1, objects1, objects1.len(), lookup, ranges) is Ok
            ==> objects_analysis(entries1, objects1, objects1.len(), lookup, ranges)
            == objects_analysis(entries2, objects2, objects2.len(), lookup, ranges),
{
    lemma_analysis_is_saturated_total(entries1, objects1, objects1.len(), lookup, ranges);
    lemma_analysis_is_saturated_total(entries2, objects2, objects2.len(), lookup, ranges);
    lemma_units_total_permutation(
        units_of(entries1, objects1, entries1.len()),
        units_of(entries2, objects2, entries2.len()),
        lookup,
        ranges,
    );
}

} // verus!
