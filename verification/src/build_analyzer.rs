//! Statistics over a build: bytes of C and assembly, and pointer words.

use vstd::prelude::*;
use crate::elf_file::{ElfFile, NamedSymbol, sections_view, symbol_bytes};
use crate::elf_reader::{ElfFailure, ElfView, elf_failure_of, read_elf};
use crate::errors::Error;
use crate::ranges::{collapsed_ranges, covers, segments_to_ranges};
use crate::source_mapper::SourceMap;
use crate::text::{lines_of, no_ws_in};
use crate::xmap_file::{
    SectionType, XmapFile, XmapKey, XmapSymbol, XmapValue, is_code_section_name,
    is_data_section_name, lemma_filed_symbols_are_well_formed, parse_xmap, xmap_lookup,
};

verus! {

/// Collects statistics about the decompilation effort based on the build outputs
#[derive(Clone, Copy, Debug, PartialEq, Eq, Structural)]
pub struct Stats {
    pub c_code_bytes: usize,
    pub c_data_bytes: usize,
    pub asm_code_bytes: usize,
    pub asm_data_bytes: usize,
    pub resolved_pointers: usize,
    pub hardcoded_pointers: usize,
}

/// All counts zero.
pub open spec fn zero_stats() -> Stats {
    Stats {
        c_code_bytes: 0,
        c_data_bytes: 0,
        asm_code_bytes: 0,
        asm_data_bytes: 0,
        resolved_pointers: 0,
        hardcoded_pointers: 0,
    }
}

impl Default for Stats {
    fn default() -> (r: Stats)
        ensures
            r == zero_stats(),
    {
        Stats {
            c_code_bytes: 0,
            c_data_bytes: 0,
            asm_code_bytes: 0,
            asm_data_bytes: 0,
            resolved_pointers: 0,
            hardcoded_pointers: 0,
        }
    }
}

/// `a + b`, or `usize::MAX` where that does not fit.
pub open spec fn sat_add_usize(a: usize, b: int) -> usize {
    if a + b > usize::MAX {
        usize::MAX
    } else {
        (a + b) as usize
    }
}

/// The value of the little-endian 32-bit word `i` of `d`.
pub open spec fn le_word(d: Seq<u8>, i: int) -> int {
    d[4 * i] + 0x100 * d[4 * i + 1] + 0x1_0000 * d[4 * i + 2] + 0x100_0000 * d[4 * i + 3]
}

/// A word that may be a hard-coded pointer: at least `0x0100_0000` and inside
/// one of the loaded address ranges.
pub open spec fn is_pointer_like(w: int, ranges: Seq<(u64, u64)>) -> bool {
    w >= 0x0100_0000 && covers(ranges, w)
}

/// How many of the first `n` whole words of `d` may be hard-coded pointers.
pub open spec fn pointer_like_words(d: Seq<u8>, ranges: Seq<(u64, u64)>, n: nat) -> nat
    decreases n,
{
    if n == 0 {
        0
    } else {
        pointer_like_words(d, ranges, (n - 1) as nat) + if is_pointer_like(
            le_word(d, n - 1),
            ranges,
        ) {
            1nat
        } else {
            0nat
        }
    }
}

/// How many whole little-endian 32-bit words of `d` may be hard-coded
/// pointers; a tail of fewer than four bytes is not a word.
pub open spec fn pointer_like_count(d: Seq<u8>, ranges: Seq<(u64, u64)>) -> nat {
    pointer_like_words(d, ranges, d.len() / 4)
}

proof fn lemma_pointer_like_words_bound(d: Seq<u8>, ranges: Seq<(u64, u64)>, n: nat)
    ensures
        pointer_like_words(d, ranges, n) <= n,
    decreases n,
{
    if n > 0 {
        lemma_pointer_like_words_bound(d, ranges, (n - 1) as nat);
    }
}

/// A word counts as a possible hard-coded pointer exactly when it is at
/// least `0x0100_0000` and lies in `[p_vaddr, p_vaddr + p_memsz)` (the end
/// saturating) of one of the program headers.
pub proof fn lemma_pointer_like_in_segment(w: int, phdrs: Seq<crate::elf_file::ProgramHeader>)
    ensures
        is_pointer_like(w, collapsed_ranges(phdrs)) <==> w >= 0x0100_0000 && exists|i: int|
            0 <= i < phdrs.len() && (#[trigger] phdrs[i]).p_vaddr <= w && w
                < crate::elf_file::sat_add(phdrs[i].p_vaddr, phdrs[i].p_memsz),
{
    crate::ranges::lemma_collapsed_ranges_cover_segments(phdrs, w);
}

/// No more words count than the bytes hold whole words.
pub proof fn lemma_pointer_like_count_bound(d: Seq<u8>, ranges: Seq<(u64, u64)>)
    ensures
        pointer_like_count(d, ranges) <= d.len() / 4,
{
    lemma_pointer_like_words_bound(d, ranges, d.len() / 4);
}

/// The relocations, with and without addend, of the first `n` objects.
pub open spec fn relocation_total(objects: Seq<ElfView>, n: nat) -> nat
    decreases n,
{
    if n == 0 {
        0
    } else {
        relocation_total(objects, (n - 1) as nat) + objects[n - 1].3.len() + objects[n - 1].4.len()
    }
}

proof fn lemma_symbols_keep_resolved(
    st: Stats,
    o: ElfView,
    n: nat,
    subpath: Seq<char>,
    is_c: bool,
    lookup: spec_fn(XmapKey) -> Option<XmapValue>,
    ranges: Seq<(u64, u64)>,
)
    ensures
        symbols_step(st, o, n, subpath, is_c, lookup, ranges) matches Ok(s)
            ==> s.resolved_pointers == st.resolved_pointers,
    decreases n,
{
    if n > 0 {
        lemma_symbols_keep_resolved(st, o, (n - 1) as nat, subpath, is_c, lookup, ranges);
    }
}

/// Properly-linked pointers are the relocations of the objects: where the
/// analysis succeeds, it counts all of them, saturating at `usize::MAX`.
pub proof fn lemma_resolved_pointers_are_relocations(
    entries: Seq<(Seq<char>, Seq<char>, bool)>,
    objects: Seq<ElfView>,
    n: nat,
    lookup: spec_fn(XmapKey) -> Option<XmapValue>,
    ranges: Seq<(u64, u64)>,
)
    requires
        n <= objects.len(),
        n <= entries.len(),
    ensures
        objects_analysis(entries, objects, n, lookup, ranges) matches Ok(s) ==> s.resolved_pointers
            == if relocation_total(objects, n) > usize::MAX {
            usize::MAX as nat
        } else {
            relocation_total(objects, n)
        },
    decreases n,
{
    if n > 0 {
        lemma_resolved_pointers_are_relocations(entries, objects, (n - 1) as nat, lookup, ranges);
        if let Ok(st) = objects_analysis(entries, objects, (n - 1) as nat, lookup, ranges) {
            let o = objects[n - 1];
            let st2 = Stats {
                resolved_pointers: sat_add_usize(
                    sat_add_usize(st.resolved_pointers, o.3.len() as int),
                    o.4.len() as int,
                ),
                ..st
            };
            lemma_symbols_keep_resolved(
                st2,
                o,
                o.2.len(),
                entries[n - 1].1,
                entries[n - 1].2,
                lookup,
                ranges,
            );
        }
    }
}

/// Some range of `ranges` holds `w`.
pub fn in_some_range(ranges: &[(u64, u64)], w: u64) -> (r: bool)
    ensures
        r == covers(ranges@, w as int),
{
    let mut i: usize = 0;
    while i < ranges.len()
        invariant
            i <= ranges@.len(),
            forall|j: int| 0 <= j < i ==> !(ranges@[j].0 <= w && w < ranges@[j].1),
        decreases ranges.len() - i,
    {
        if ranges[i].0 <= w && w < ranges[i].1 {
            assert(ranges@[i as int].0 <= w && w < ranges@[i as int].1);
            return true;
        }
        i = i + 1;
    }
    false
}

/// Counts the 32-bit words of a symbol's bytes that are possibly hard-coded
/// pointers: every whole little-endian word whose value is at least
/// `0x0100_0000` and lies in one of `phdr_ranges`. This is a liberal upper
/// bound. Fails where the symbol's bytes cannot be found in `elf`.
pub fn count_hardcoded_pointers(
    sym: &NamedSymbol,
    elf: &ElfFile,
    phdr_ranges: &[(u64, u64)],
    rxsym: &XmapSymbol,
) -> (r: Result<usize, Error>)
    ensures
        match symbol_bytes(sections_view(elf.sections@), sym.sym) {
            Ok(d) => r matches Ok(n) && n == pointer_like_count(d, phdr_ranges@),
            Err(e) => r == Err::<usize, Error>(e),
        },
{
    let raw_data = match elf.symbol_data(sym) {
        Ok(d) => d,
        Err(e) => {
            return Err(e);
        },
    };
    let n = raw_data.len() / 4;
    let mut count: usize = 0;
    let mut i: usize = 0;
    while i < n
        invariant
            n == raw_data@.len() / 4,
            i <= n,
            count == pointer_like_words(raw_data@, phdr_ranges@, i as nat),
        decreases n - i,
    {
        proof {
            lemma_pointer_like_words_bound(raw_data@, phdr_ranges@, i as nat);
        }
        let len = raw_data.len();
        assert(4 * i + 3 < len) by (nonlinear_arith)
            requires
                i < n,
                n == len / 4,
        ;
        let b = 4 * i;
        let word: u64 = raw_data[b] as u64 + 0x100 * (raw_data[b + 1] as u64) + 0x1_0000 * (
        raw_data[b + 2] as u64) + 0x100_0000 * (raw_data[b + 3] as u64);
        assert(word == le_word(raw_data@, i as int));
        if word >= 0x0100_0000 && in_some_range(phdr_ranges, word) {
            count = count + 1;
        }
        i = i + 1;
    }
    Ok(count)
}

/// The address of word `i` of a symbol placed at `addr`, wrapping at 2^64.
pub open spec fn word_address(addr: u64, i: int) -> u64 {
    ((addr + 4 * i) % 0x1_0000_0000_0000_0000) as u64
}

/// The pointer-like words among the first `n` whole words of `d`, in order,
/// each as (its address when `d` is placed at `addr`, its value).
pub open spec fn pointer_like_sites_upto(
    d: Seq<u8>,
    ranges: Seq<(u64, u64)>,
    addr: u64,
    n: nat,
) -> Seq<(u64, u64)>
    decreases n,
{
    if n == 0 {
        Seq::empty()
    } else {
        let prev = pointer_like_sites_upto(d, ranges, addr, (n - 1) as nat);
        let w = le_word(d, n - 1);
        if is_pointer_like(w, ranges) {
            prev.push((word_address(addr, n - 1), w as u64))
        } else {
            prev
        }
    }
}

/// The possible hard-coded pointers of the bytes `d` of a symbol placed at
/// `addr`, in order, each as (where it lies, what it points to).
pub open spec fn pointer_like_sites(d: Seq<u8>, ranges: Seq<(u64, u64)>, addr: u64) -> Seq<
    (u64, u64),
> {
    pointer_like_sites_upto(d, ranges, addr, d.len() / 4)
}

proof fn lemma_sites_upto_len(d: Seq<u8>, ranges: Seq<(u64, u64)>, addr: u64, n: nat)
    ensures
        pointer_like_sites_upto(d, ranges, addr, n).len() == pointer_like_words(d, ranges, n),
    decreases n,
{
    if n > 0 {
        lemma_sites_upto_len(d, ranges, addr, (n - 1) as nat);
    }
}

/// The listed pointers of a symbol are exactly as many as are counted.
pub proof fn lemma_pointer_like_sites_are_counted(
    d: Seq<u8>,
    ranges: Seq<(u64, u64)>,
    addr: u64,
)
    ensures
        pointer_like_sites(d, ranges, addr).len() == pointer_like_count(d, ranges),
{
    lemma_sites_upto_len(d, ranges, addr, d.len() / 4);
}

/// Lists the 32-bit words of a symbol's bytes that are possibly hard-coded
/// pointers, the same words that `count_hardcoded_pointers` counts, each
/// with its runtime address: word `i` lies at `rxsym.addr + 4 * i`, wrapping
/// at 2^64. Fails where the symbol's bytes cannot be found in `elf`.
pub fn hardcoded_pointer_sites(
    sym: &NamedSymbol,
    elf: &ElfFile,
    phdr_ranges: &[(u64, u64)],
    rxsym: &XmapSymbol,
) -> (r: Result<Vec<(u64, u64)>, Error>)
    ensures
        match symbol_bytes(sections_view(elf.sections@), sym.sym) {
            Ok(d) => r matches Ok(v) && v@ == pointer_like_sites(d, phdr_ranges@, rxsym.addr),
            Err(e) => r == Err::<Vec<(u64, u64)>, Error>(e),
        },
{
    let raw_data = match elf.symbol_data(sym) {
        Ok(d) => d,
        Err(e) => {
            return Err(e);
        },
    };
    let n = raw_data.len() / 4;
    let mut sites: Vec<(u64, u64)> = Vec::new();
    let mut i: usize = 0;
    while i < n
        invariant
            n == raw_data@.len() / 4,
            i <= n,
            sites@ == pointer_like_sites_upto(raw_data@, phdr_ranges@, rxsym.addr, i as nat),
        decreases n - i,
    {
        let len = raw_data.len();
        assert(4 * i + 3 < len) by (nonlinear_arith)
            requires
                i < n,
                n == len / 4,
        ;
        let b = 4 * i;
        let word: u64 = raw_data[b] as u64 + 0x100 * (raw_data[b + 1] as u64) + 0x1_0000 * (
        raw_data[b + 2] as u64) + 0x100_0000 * (raw_data[b + 3] as u64);
        assert(word == le_word(raw_data@, i as int));
        if word >= 0x0100_0000 && in_some_range(phdr_ranges, word) {
            let at = rxsym.addr.wrapping_add(b as u64);
            assert(at == word_address(rxsym.addr, i as int)) by {
                assert(b < 0x1_0000_0000_0000_0000);
                if rxsym.addr + b > u64::MAX {
                    assert((rxsym.addr + b) % 0x1_0000_0000_0000_0000 == rxsym.addr + b
                        - 0x1_0000_0000_0000_0000);
                } else {
                    assert((rxsym.addr + b) % 0x1_0000_0000_0000_0000 == rxsym.addr + b);
                }
            }
            sites.push((at, word));
        }
        i = i + 1;
    }
    Ok(sites)
}

/// The statistics `st` with `size` bytes added to the counter that a symbol
/// of a C (`is_c`) or assembly object in a section of type `t` goes to: code
/// sections count as code, data sections as data, and other sections not at
/// all.
pub open spec fn add_bytes(st: Stats, is_c: bool, t: SectionType, size: usize) -> Stats {
    match t {
        SectionType::Code => if is_c {
            Stats { c_code_bytes: sat_add_usize(st.c_code_bytes, size as int), ..st }
        } else {
            Stats { asm_code_bytes: sat_add_usize(st.asm_code_bytes, size as int), ..st }
        },
        SectionType::Data => if is_c {
            Stats { c_data_bytes: sat_add_usize(st.c_data_bytes, size as int), ..st }
        } else {
            Stats { asm_data_bytes: sat_add_usize(st.asm_data_bytes, size as int), ..st }
        },
        _ => st,
    }
}

/// What one symbol of an object adds. A symbol counts where its size is not
/// zero, the link map files a symbol of its name under the object's subpath
/// and language, and, for assembly, the link map's section name equals the
/// symbol's name. Its link-map size goes to the bytes of code or data of C or
/// of assembly as its section's type says (to none for a section that is
/// neither), and its pointer-like words to the hard-coded pointers; that
/// fails where its bytes cannot be found.
pub open spec fn symbol_step(
    st: Stats,
    sections: Seq<(crate::elf_file::SectionHeader, Seq<u8>)>,
    sym: (crate::elf_file::Symbol, Seq<char>),
    subpath: Seq<char>,
    is_c: bool,
    lookup: spec_fn(XmapKey) -> Option<XmapValue>,
    ranges: Seq<(u64, u64)>,
) -> Result<Stats, Error> {
    match lookup((subpath, is_c, sym.1)) {
        Some(rx) => if sym.0.st_size != 0 && (is_c || rx.0 == sym.1) {
            match symbol_bytes(sections, sym.0) {
                Err(e) => Err(e),
                Ok(d) => {
                    let st2 = add_bytes(st, is_c, rx.1, rx.2);
                    Ok(
                        Stats {
                            hardcoded_pointers: sat_add_usize(
                                st2.hardcoded_pointers,
                                pointer_like_count(d, ranges) as int,
                            ),
                            ..st2
                        },
                    )
                },
            }
        } else {
            Ok(st)
        },
        None => Ok(st),
    }
}

/// What the first `n` symbols of an object add, in order; the first failure stops it.
pub open spec fn symbols_step(
    st: Stats,
    o: ElfView,
    n: nat,
    subpath: Seq<char>,
    is_c: bool,
    lookup: spec_fn(XmapKey) -> Option<XmapValue>,
    ranges: Seq<(u64, u64)>,
) -> Result<Stats, Error>
    decreases n,
{
    if n == 0 {
        Ok(st)
    } else {
        match symbols_step(st, o, (n - 1) as nat, subpath, is_c, lookup, ranges) {
            Err(e) => Err(e),
            Ok(st2) => symbol_step(st2, o.0, o.2[n - 1], subpath, is_c, lookup, ranges),
        }
    }
}

/// What one object adds: its relocations, with and without addend, are
/// properly linked pointers; then its symbols, in order.
pub open spec fn object_step(
    st: Stats,
    o: ElfView,
    subpath: Seq<char>,
    is_c: bool,
    lookup: spec_fn(XmapKey) -> Option<XmapValue>,
    ranges: Seq<(u64, u64)>,
) -> Result<Stats, Error> {
    let st2 = Stats {
        resolved_pointers: sat_add_usize(
            sat_add_usize(st.resolved_pointers, o.3.len() as int),
            o.4.len() as int,
        ),
        ..st
    };
    symbols_step(st2, o, o.2.len(), subpath, is_c, lookup, ranges)
}

/// The statistics of the first `n` objects, one per entry of the source
/// map, starting from zero.
pub open spec fn objects_analysis(
    entries: Seq<(Seq<char>, Seq<char>, bool)>,
    objects: Seq<ElfView>,
    n: nat,
    lookup: spec_fn(XmapKey) -> Option<XmapValue>,
    ranges: Seq<(u64, u64)>,
) -> Result<Stats, Error>
    decreases n,
{
    if n == 0 {
        Ok(zero_stats())
    } else {
        match objects_analysis(entries, objects, (n - 1) as nat, lookup, ranges) {
            Err(e) => Err(e),
            Ok(st) => object_step(
                st,
                objects[n - 1],
                entries[n - 1].1,
                entries[n - 1].2,
                lookup,
                ranges,
            ),
        }
    }
}

/// The link map of an `XmapFile` as a function.
pub open spec fn xmap_lookup_fn(xmap: XmapFile) -> spec_fn(XmapKey) -> Option<XmapValue> {
    |k: XmapKey| xmap.lookup(k)
}

/// Adds up the statistics of a build from its parsed parts: the link map,
/// the linked ELF (whose segments give the loaded address ranges), the
/// source map, and the object of each source-map entry, in entry order.
pub fn analyze_parsed(
    xmap: &XmapFile,
    elf_file: &ElfFile,
    source_map: &SourceMap,
    objects: &[ElfFile],
) -> (r: Result<Stats, Error>)
    requires
        objects@.len() == source_map.entries_view().len(),
    ensures
        r == objects_analysis(
            source_map.entries_view(),
            objects@.map_values(|o: ElfFile| o.view()),
            objects@.len(),
            xmap_lookup_fn(*xmap),
            collapsed_ranges(elf_file.segments@),
        ),
{
    let ranges = segments_to_ranges(elf_file.segments.as_slice());
    let ghost ov = objects@.map_values(|o: ElfFile| o.view());
    let ghost lookup = xmap_lookup_fn(*xmap);
    let mut stats = Stats::default();
    let mut k: usize = 0;
    while k < objects.len()
        invariant
            k <= objects@.len(),
            objects@.len() == source_map.entries_view().len(),
            ov == objects@.map_values(|o: ElfFile| o.view()),
            lookup == xmap_lookup_fn(*xmap),
            ranges@ == collapsed_ranges(elf_file.segments@),
            objects_analysis(source_map.entries_view(), ov, k as nat, lookup, ranges@) == Ok::<
                Stats,
                Error,
            >(stats),
        decreases objects.len() - k,
    {
        let entry = source_map.entry(k);
        match analyze_object(stats, &objects[k], entry.subpath.as_str(), entry.is_cfile, xmap, ranges.as_slice()) {
            Ok(s) => {
                stats = s;
            },
            Err(e) => {
                proof {
                    lemma_objects_fail_stays(source_map.entries_view(), ov, (k + 1) as nat, lookup, ranges@);
                }
                return Err(e);
            },
        }
        k = k + 1;
    }
    Ok(stats)
}

/// The possible hard-coded pointers that one symbol of an object adds: none
/// unless it counts (as `symbol_step` decides), else those of its bytes,
/// placed at the link map's address; fails where those bytes cannot be found.
pub open spec fn symbol_sites(
    sections: Seq<(crate::elf_file::SectionHeader, Seq<u8>)>,
    sym: (crate::elf_file::Symbol, Seq<char>),
    subpath: Seq<char>,
    is_c: bool,
    lookup: spec_fn(XmapKey) -> Option<XmapValue>,
    ranges: Seq<(u64, u64)>,
) -> Result<Seq<(u64, u64)>, Error> {
    match lookup((subpath, is_c, sym.1)) {
        Some(rx) => if sym.0.st_size != 0 && (is_c || rx.0 == sym.1) {
            match symbol_bytes(sections, sym.0) {
                Err(e) => Err(e),
                Ok(d) => Ok(pointer_like_sites(d, ranges, rx.3)),
            }
        } else {
            Ok(Seq::empty())
        },
        None => Ok(Seq::empty()),
    }
}

/// The possible hard-coded pointers of the first `n` symbols of an object,
/// in order; the first failure stops it.
pub open spec fn symbols_sites(
    o: ElfView,
    n: nat,
    subpath: Seq<char>,
    is_c: bool,
    lookup: spec_fn(XmapKey) -> Option<XmapValue>,
    ranges: Seq<(u64, u64)>,
) -> Result<Seq<(u64, u64)>, Error>
    decreases n,
{
    if n == 0 {
        Ok(Seq::empty())
    } else {
        match symbols_sites(o, (n - 1) as nat, subpath, is_c, lookup, ranges) {
            Err(e) => Err(e),
            Ok(s) => match symbol_sites(o.0, o.2[n - 1], subpath, is_c, lookup, ranges) {
                Err(e) => Err(e),
                Ok(t) => Ok(s + t),
            },
        }
    }
}

/// The possible hard-coded pointers of the first `n` objects, one per entry
/// of the source map, in order.
pub open spec fn objects_sites(
    entries: Seq<(Seq<char>, Seq<char>, bool)>,
    objects: Seq<ElfView>,
    n: nat,
    lookup: spec_fn(XmapKey) -> Option<XmapValue>,
    ranges: Seq<(u64, u64)>,
) -> Result<Seq<(u64, u64)>, Error>
    decreases n,
{
    if n == 0 {
        Ok(Seq::empty())
    } else {
        match objects_sites(entries, objects, (n - 1) as nat, lookup, ranges) {
            Err(e) => Err(e),
            Ok(s) => match symbols_sites(
                objects[n - 1],
                objects[n - 1].2.len(),
                entries[n - 1].1,
                entries[n - 1].2,
                lookup,
                ranges,
            ) {
                Err(e) => Err(e),
                Ok(t) => Ok(s + t),
            },
        }
    }
}

/// Lists, in object and symbol order, each possible hard-coded pointer that
/// the statistics count, as (the address of the word, its value); takes the
/// same parsed parts as `analyze_parsed`.
pub fn list_hardcoded_pointers(
    xmap: &XmapFile,
    elf_file: &ElfFile,
    source_map: &SourceMap,
    objects: &[ElfFile],
) -> (r: Result<Vec<(u64, u64)>, Error>)
    requires
        objects@.len() == source_map.entries_view().len(),
    ensures
        match r {
            Ok(v) => objects_sites(
                source_map.entries_view(),
                objects@.map_values(|o: ElfFile| o.view()),
                objects@.len(),
                xmap_lookup_fn(*xmap),
                collapsed_ranges(elf_file.segments@),
            ) == Ok::<Seq<(u64, u64)>, Error>(v@),
            Err(e) => objects_sites(
                source_map.entries_view(),
                objects@.map_values(|o: ElfFile| o.view()),
                objects@.len(),
                xmap_lookup_fn(*xmap),
                collapsed_ranges(elf_file.segments@),
            ) == Err::<Seq<(u64, u64)>, Error>(e),
        },
{
    let ranges = segments_to_ranges(elf_file.segments.as_slice());
    let ghost ov = objects@.map_values(|o: ElfFile| o.view());
    let ghost ev = source_map.entries_view();
    let ghost lookup = xmap_lookup_fn(*xmap);
    let mut sites: Vec<(u64, u64)> = Vec::new();
    let mut k: usize = 0;
    while k < objects.len()
        invariant
            k <= objects@.len(),
            objects@.len() == ev.len(),
            ev == source_map.entries_view(),
            ov == objects@.map_values(|o: ElfFile| o.view()),
            lookup == xmap_lookup_fn(*xmap),
            ranges@ == collapsed_ranges(elf_file.segments@),
            objects_sites(ev, ov, k as nat, lookup, ranges@) == Ok::<Seq<(u64, u64)>, Error>(
                sites@,
            ),
        decreases objects.len() - k,
    {
        let entry = source_map.entry(k);
        match object_sites(&objects[k], entry.subpath.as_str(), entry.is_cfile, xmap, ranges.as_slice()) {
            Ok(mut t) => {
                sites.append(&mut t);
            },
            Err(e) => {
                proof {
                    lemma_sites_fail_stays(ev, ov, (k + 1) as nat, lookup, ranges@);
                }
                return Err(e);
            },
        }
        k = k + 1;
    }
    Ok(sites)
}

/// The possible hard-coded pointers of one object.
fn object_sites(
    obj: &ElfFile,
    subpath: &str,
    is_cfile: bool,
    xmap: &XmapFile,
    ranges: &[(u64, u64)],
) -> (r: Result<Vec<(u64, u64)>, Error>)
    ensures
        match r {
            Ok(v) => symbols_sites(
                obj.view(),
                obj.view().2.len(),
                subpath@,
                is_cfile,
                xmap_lookup_fn(*xmap),
                ranges@,
            ) == Ok::<Seq<(u64, u64)>, Error>(v@),
            Err(e) => symbols_sites(
                obj.view(),
                obj.view().2.len(),
                subpath@,
                is_cfile,
                xmap_lookup_fn(*xmap),
                ranges@,
            ) == Err::<Seq<(u64, u64)>, Error>(e),
        },
{
    let ghost o = obj.view();
    let ghost lookup = xmap_lookup_fn(*xmap);
    let mut sites: Vec<(u64, u64)> = Vec::new();
    let mut i: usize = 0;
    while i < obj.symbols.len()
        invariant
            i <= obj.symbols@.len(),
            o == obj.view(),
            lookup == xmap_lookup_fn(*xmap),
            symbols_sites(o, i as nat, subpath@, is_cfile, lookup, ranges@) == Ok::<
                Seq<(u64, u64)>,
                Error,
            >(sites@),
        decreases obj.symbols.len() - i,
    {
        let nsym = &obj.symbols[i];
        assert(o.2[i as int] == (nsym.sym, nsym.name@));
        let ghost prev = sites@;
        let ghost key: XmapKey = (subpath@, is_cfile, nsym.name@);
        assert(lookup(key) == xmap.lookup(key));
        if nsym.sym.st_size != 0 {
            if let Some(rxsym) = xmap.get(subpath, is_cfile, nsym.name.as_str()) {
                if is_cfile || crate::text::str_eq(rxsym.section_name.as_str(), nsym.name.as_str()) {
                    assert(lookup(key) == Some(rxsym@));
                    match hardcoded_pointer_sites(nsym, obj, ranges, rxsym) {
                        Ok(mut t) => {
                            sites.append(&mut t);
                        },
                        Err(e) => {
                            proof {
                                lemma_symbol_sites_fail_stays(o, (i + 1) as nat, subpath@, is_cfile, lookup, ranges@);
                            }
                            return Err(e);
                        },
                    }
                }
            }
        }
        assert(symbols_sites(o, (i + 1) as nat, subpath@, is_cfile, lookup, ranges@) == Ok::<
            Seq<(u64, u64)>,
            Error,
        >(sites@)) by {
            assert(prev + Seq::<(u64, u64)>::empty() =~= prev);
        }
        i = i + 1;
    }
    Ok(sites)
}

proof fn lemma_symbol_sites_follow_step(
    st: Stats,
    sections: Seq<(crate::elf_file::SectionHeader, Seq<u8>)>,
    sym: (crate::elf_file::Symbol, Seq<char>),
    subpath: Seq<char>,
    is_c: bool,
    lookup: spec_fn(XmapKey) -> Option<XmapValue>,
    ranges: Seq<(u64, u64)>,
)
    ensures
        match (
            symbol_step(st, sections, sym, subpath, is_c, lookup, ranges),
            symbol_sites(sections, sym, subpath, is_c, lookup, ranges),
        ) {
            (Ok(s2), Ok(t)) => s2.hardcoded_pointers == sat_add_usize(
                st.hardcoded_pointers,
                t.len() as int,
            ),
            (Err(a), Err(b)) => a == b,
            _ => false,
        },
{
    if let Some(rx) = lookup((subpath, is_c, sym.1)) {
        if let Ok(d) = symbol_bytes(sections, sym.0) {
            lemma_pointer_like_sites_are_counted(d, ranges, rx.3);
        }
    }
}

proof fn lemma_symbols_sites_follow_step(
    st: Stats,
    o: ElfView,
    n: nat,
    subpath: Seq<char>,
    is_c: bool,
    lookup: spec_fn(XmapKey) -> Option<XmapValue>,
    ranges: Seq<(u64, u64)>,
)
    ensures
        match (
            symbols_step(st, o, n, subpath, is_c, lookup, ranges),
            symbols_sites(o, n, subpath, is_c, lookup, ranges),
        ) {
            (Ok(s2), Ok(t)) => s2.hardcoded_pointers == sat_add_usize(
                st.hardcoded_pointers,
                t.len() as int,
            ),
            (Err(a), Err(b)) => a == b,
            _ => false,
        },
    decreases n,
{
    if n > 0 {
        lemma_symbols_sites_follow_step(st, o, (n - 1) as nat, subpath, is_c, lookup, ranges);
        if let Ok(s1) = symbols_step(st, o, (n - 1) as nat, subpath, is_c, lookup, ranges) {
            lemma_symbol_sites_follow_step(s1, o.0, o.2[n - 1], subpath, is_c, lookup, ranges);
        }
    }
}

/// The listing and the count of possible hard-coded pointers agree: the
/// listing succeeds exactly where the analysis does, both fail with the same
/// error, and the count is the length of the list, saturating at
/// `usize::MAX`.
pub proof fn lemma_listed_pointers_are_counted(
    entries: Seq<(Seq<char>, Seq<char>, bool)>,
    objects: Seq<ElfView>,
    n: nat,
    lookup: spec_fn(XmapKey) -> Option<XmapValue>,
    ranges: Seq<(u64, u64)>,
)
    requires
        n <= objects.len(),
        n <= entries.len(),
    ensures
        match (
            objects_analysis(entries, objects, n, lookup, ranges),
            objects_sites(entries, objects, n, lookup, ranges),
        ) {
            (Ok(st), Ok(s)) => st.hardcoded_pointers == sat_add_usize(0, s.len() as int),
            (Err(a), Err(b)) => a == b,
            _ => false,
        },
    decreases n,
{
    if n > 0 {
        lemma_listed_pointers_are_counted(entries, objects, (n - 1) as nat, lookup, ranges);
        if let Ok(st) = objects_analysis(entries, objects, (n - 1) as nat, lookup, ranges) {
            let o = objects[n - 1];
            let st2 = Stats {
                resolved_pointers: sat_add_usize(
                    sat_add_usize(st.resolved_pointers, o.3.len() as int),
                    o.4.len() as int,
                ),
                ..st
            };
            lemma_symbols_sites_follow_step(
                st2,
                o,
                o.2.len(),
                entries[n - 1].1,
                entries[n - 1].2,
                lookup,
                ranges,
            );
        }
    }
}

proof fn lemma_sites_fail_stays(
    entries: Seq<(Seq<char>, Seq<char>, bool)>,
    objects: Seq<ElfView>,
    n: nat,
    lookup: spec_fn(XmapKey) -> Option<XmapValue>,
    ranges: Seq<(u64, u64)>,
)
    requires
        n <= objects.len(),
        objects_sites(entries, objects, n, lookup, ranges) is Err,
    ensures
        objects_sites(entries, objects, objects.len(), lookup, ranges) == objects_sites(
            entries,
            objects,
            n,
            lookup,
            ranges,
        ),
    decreases objects.len() - n,
{
    if n < objects.len() {
        lemma_sites_fail_stays(entries, objects, n + 1, lookup, ranges);
    }
}

proof fn lemma_symbol_sites_fail_stays(
    o: ElfView,
    n: nat,
    subpath: Seq<char>,
    is_c: bool,
    lookup: spec_fn(XmapKey) -> Option<XmapValue>,
    ranges: Seq<(u64, u64)>,
)
    requires
        n <= o.2.len(),
        symbols_sites(o, n, subpath, is_c, lookup, ranges) is Err,
    ensures
        symbols_sites(o, o.2.len(), subpath, is_c, lookup, ranges) == symbols_sites(
            o,
            n,
            subpath,
            is_c,
            lookup,
            ranges,
        ),
    decreases o.2.len() - n,
{
    if n < o.2.len() {
        lemma_symbol_sites_fail_stays(o, n + 1, subpath, is_c, lookup, ranges);
    }
}

proof fn lemma_objects_fail_stays(
    entries: Seq<(Seq<char>, Seq<char>, bool)>,
    objects: Seq<ElfView>,
    n: nat,
    lookup: spec_fn(XmapKey) -> Option<XmapValue>,
    ranges: Seq<(u64, u64)>,
)
    requires
        n <= objects.len(),
        objects_analysis(entries, objects, n, lookup, ranges) is Err,
    ensures
        objects_analysis(entries, objects, objects.len(), lookup, ranges) == objects_analysis(
            entries,
            objects,
            n,
            lookup,
            ranges,
        ),
    decreases objects.len() - n,
{
    if n < objects.len() {
        lemma_objects_fail_stays(entries, objects, n + 1, lookup, ranges);
    }
}

proof fn lemma_symbols_fail_stays(
    st: Stats,
    o: ElfView,
    n: nat,
    subpath: Seq<char>,
    is_c: bool,
    lookup: spec_fn(XmapKey) -> Option<XmapValue>,
    ranges: Seq<(u64, u64)>,
)
    requires
        n <= o.2.len(),
        symbols_step(st, o, n, subpath, is_c, lookup, ranges) is Err,
    ensures
        symbols_step(st, o, o.2.len(), subpath, is_c, lookup, ranges) == symbols_step(
            st,
            o,
            n,
            subpath,
            is_c,
            lookup,
            ranges,
        ),
    decreases o.2.len() - n,
{
    if n < o.2.len() {
        lemma_symbols_fail_stays(st, o, n + 1, subpath, is_c, lookup, ranges);
    }
}

/// Why a whole-build analysis fails: reading an ELF, or finding a symbol's bytes.
#[derive(Clone, Debug, PartialEq, Eq)]
pub enum Failure {
    Elf(ElfFailure),
    Symbol(Error),
}

/// The failure that an analysis error stands for.
pub open spec fn failure_of(e: Error) -> Failure {
    match elf_failure_of(e) {
        Some(k) => Failure::Elf(k),
        None => Failure::Symbol(e),
    }
}

/// The link map that the text of an `.xMAP` file gives, as a function.
pub open spec fn xmap_text_lookup(
    text: Seq<char>,
    sm: Map<Seq<char>, (Seq<char>, bool)>,
) -> spec_fn(XmapKey) -> Option<XmapValue> {
    |k: XmapKey|
        if no_ws_in(k.2, 0, k.2.len() as int) {
            xmap_lookup(lines_of(text), sm, k)
        } else {
            None
        }
}

/// Where a symbol counts and its bytes are found, its link-map size goes to
/// exactly one byte counter, chosen by the language of its object and the
/// name of the section that the link map places it in: the C or assembly
/// code counter for `.text`, `.init`, `.itcm`, `.sinit` and `.wram`, the C
/// or assembly data counter for `.data`, `.rodata`, `.sdata`, `.dtcm`,
/// `.exception` and `.version`, and none for any other section. The other
/// byte counters and the properly-linked pointers stay as they were.
pub proof fn lemma_symbol_bytes_follow_section_name(
    st: Stats,
    sections: Seq<(crate::elf_file::SectionHeader, Seq<u8>)>,
    sym: (crate::elf_file::Symbol, Seq<char>),
    subpath: Seq<char>,
    is_c: bool,
    text: Seq<char>,
    sm: Map<Seq<char>, (Seq<char>, bool)>,
    ranges: Seq<(u64, u64)>,
)
    requires
        xmap_text_lookup(text, sm)((subpath, is_c, sym.1)) matches Some(rx) && (is_c || rx.0
            == sym.1),
        sym.0.st_size != 0,
        symbol_bytes(sections, sym.0) is Ok,
    ensures
        ({
            let rx = xmap_text_lookup(text, sm)((subpath, is_c, sym.1))->0;
            let code = is_code_section_name(rx.0);
            let data = is_data_section_name(rx.0);
            &&& symbol_step(st, sections, sym, subpath, is_c, xmap_text_lookup(text, sm), ranges)
                matches Ok(s2) && {
                &&& s2.c_code_bytes == if is_c && code {
                    sat_add_usize(st.c_code_bytes, rx.2 as int)
                } else {
                    st.c_code_bytes
                }
                &&& s2.c_data_bytes == if is_c && data {
                    sat_add_usize(st.c_data_bytes, rx.2 as int)
                } else {
                    st.c_data_bytes
                }
                &&& s2.asm_code_bytes == if !is_c && code {
                    sat_add_usize(st.asm_code_bytes, rx.2 as int)
                } else {
                    st.asm_code_bytes
                }
                &&& s2.asm_data_bytes == if !is_c && data {
                    sat_add_usize(st.asm_data_bytes, rx.2 as int)
                } else {
                    st.asm_data_bytes
                }
                &&& s2.resolved_pointers == st.resolved_pointers
            }
        }),
{
    let key: XmapKey = (subpath, is_c, sym.1);
    lemma_filed_symbols_are_well_formed(lines_of(text), sm, key);
    let rx = xmap_text_lookup(text, sm)(key)->0;
    assert(rx == xmap_lookup(lines_of(text), sm, key)->0);
    if is_code_section_name(rx.0) {
        assert(!is_data_section_name(rx.0)) by {
            if is_data_section_name(rx.0) {
                assert(rx.0[1] == rx.0[1]);
            }
        }
    }
}

/// The statistics of the first `n` objects read from their bytes, in entry
/// order; each object is read, then counted, before the next.
pub open spec fn build_objects(
    entries: Seq<(Seq<char>, Seq<char>, bool)>,
    object_data: Seq<Seq<u8>>,
    n: nat,
    lookup: spec_fn(XmapKey) -> Option<XmapValue>,
    ranges: Seq<(u64, u64)>,
) -> Result<Stats, Failure>
    decreases n,
{
    if n == 0 {
        Ok(zero_stats())
    } else {
        match build_objects(entries, object_data, (n - 1) as nat, lookup, ranges) {
            Err(f) => Err(f),
            Ok(st) => match read_elf(object_data[n - 1]) {
                Err(k) => Err(Failure::Elf(k)),
                Ok(o) => match object_step(
                    st,
                    o,
                    entries[n - 1].1,
                    entries[n - 1].2,
                    lookup,
                    ranges,
                ) {
                    Ok(s) => Ok(s),
                    Err(e) => Err(Failure::Symbol(e)),
                },
            },
        }
    }
}

/// The statistics of a build from the text of its link map, the bytes of
/// its linked ELF, its source map, and the bytes of the object of each
/// source-map entry.
pub open spec fn build_analysis(
    xmap_text: Seq<char>,
    elf_data: Seq<u8>,
    sm: Map<Seq<char>, (Seq<char>, bool)>,
    entries: Seq<(Seq<char>, Seq<char>, bool)>,
    object_data: Seq<Seq<u8>>,
) -> Result<Stats, Failure> {
    match read_elf(elf_data) {
        Err(k) => Err(Failure::Elf(k)),
        Ok(main) => build_objects(
            entries,
            object_data,
            object_data.len(),
            xmap_text_lookup(xmap_text, sm),
            collapsed_ranges(main.1),
        ),
    }
}

proof fn lemma_symbols_step_errors(
    st: Stats,
    o: ElfView,
    n: nat,
    subpath: Seq<char>,
    is_c: bool,
    lookup: spec_fn(XmapKey) -> Option<XmapValue>,
    ranges: Seq<(u64, u64)>,
)
    ensures
        symbols_step(st, o, n, subpath, is_c, lookup, ranges) matches Err(e) ==> elf_failure_of(
            e,
        ) is None,
    decreases n,
{
    if n > 0 {
        lemma_symbols_step_errors(st, o, (n - 1) as nat, subpath, is_c, lookup, ranges);
    }
}

proof fn lemma_build_fail_stays(
    entries: Seq<(Seq<char>, Seq<char>, bool)>,
    object_data: Seq<Seq<u8>>,
    n: nat,
    lookup: spec_fn(XmapKey) -> Option<XmapValue>,
    ranges: Seq<(u64, u64)>,
)
    requires
        n <= object_data.len(),
        build_objects(entries, object_data, n, lookup, ranges) is Err,
    ensures
        build_objects(entries, object_data, object_data.len(), lookup, ranges) == build_objects(
            entries,
            object_data,
            n,
            lookup,
            ranges,
        ),
    decreases object_data.len() - n,
{
    if n < object_data.len() {
        lemma_build_fail_stays(entries, object_data, n + 1, lookup, ranges);
    }
}

/// Analyzes a build: parses the link map against the source map, reads the
/// linked ELF for its loaded address ranges, then reads and counts the
/// object of each source-map entry in turn (`object_data[k]` belongs to
/// entry `k`).
pub fn analyze_build(
    xmap_text: &str,
    elf_data: &[u8],
    source_map: &SourceMap,
    object_data: &[Vec<u8>],
) -> (r: Result<Stats, Error>)
    requires
        source_map.wf(),
        object_data@.len() == source_map.entries_view().len(),
    ensures
        match r {
            Ok(s) => build_analysis(
                xmap_text@,
                elf_data@,
                source_map@,
                source_map.entries_view(),
                object_data@.map_values(|d: Vec<u8>| d@),
            ) == Ok::<Stats, Failure>(s),
            Err(e) => build_analysis(
                xmap_text@,
                elf_data@,
                source_map@,
                source_map.entries_view(),
                object_data@.map_values(|d: Vec<u8>| d@),
            ) == Err::<Stats, Failure>(failure_of(e)),
        },
{
    let ghost od = object_data@.map_values(|d: Vec<u8>| d@);
    let ghost ev = source_map.entries_view();
    let xmap = parse_xmap(xmap_text, source_map);
    let ghost lookup = xmap_text_lookup(xmap_text@, source_map@);
    assert(xmap_lookup_fn(xmap) =~= lookup);
    let main = match ElfFile::parse(elf_data) {
        Ok(f) => f,
        Err(e) => {
            return Err(e);
        },
    };
    let ranges = segments_to_ranges(main.segments.as_slice());
    let mut stats = Stats::default();
    let mut k: usize = 0;
    while k < object_data.len()
        invariant
            k <= object_data@.len(),
            object_data@.len() == ev.len(),
            ev == source_map.entries_view(),
            od == object_data@.map_values(|d: Vec<u8>| d@),
            xmap_lookup_fn(xmap) == lookup,
            build_analysis(xmap_text@, elf_data@, source_map@, ev, od) == build_objects(
                ev,
                od,
                od.len(),
                lookup,
                ranges@,
            ),
            build_objects(ev, od, k as nat, lookup, ranges@) == Ok::<Stats, Failure>(stats),
        decreases object_data.len() - k,
    {
        assert(od[k as int] == object_data@[k as int]@);
        let obj = match ElfFile::parse(object_data[k].as_slice()) {
            Ok(f) => f,
            Err(e) => {
                proof {
                    lemma_build_fail_stays(ev, od, (k + 1) as nat, lookup, ranges@);
                }
                return Err(e);
            },
        };
        let entry = source_map.entry(k);
        match analyze_object(stats, &obj, entry.subpath.as_str(), entry.is_cfile, &xmap, ranges.as_slice()) {
            Ok(s) => {
                stats = s;
            },
            Err(e) => {
                proof {
                    lemma_symbols_step_errors(
                        Stats {
                            resolved_pointers: sat_add_usize(
                                sat_add_usize(stats.resolved_pointers, obj.view().3.len() as int),
                                obj.view().4.len() as int,
                            ),
                            ..stats
                        },
                        obj.view(),
                        obj.view().2.len(),
                        ev[k as int].1,
                        ev[k as int].2,
                        lookup,
                        ranges@,
                    );
                    lemma_build_fail_stays(ev, od, (k + 1) as nat, lookup, ranges@);
                }
                return Err(e);
            },
        }
        k = k + 1;
    }
    Ok(stats)
}

/// Adds what one object contributes to `stats`.
fn analyze_object(
    stats: Stats,
    obj: &ElfFile,
    subpath: &str,
    is_cfile: bool,
    xmap: &XmapFile,
    ranges: &[(u64, u64)],
) -> (r: Result<Stats, Error>)
    ensures
        r == object_step(stats, obj.view(), subpath@, is_cfile, xmap_lookup_fn(*xmap), ranges@),
{
    let ghost o = obj.view();
    let ghost lookup = xmap_lookup_fn(*xmap);
    let mut st = stats;
    st.resolved_pointers = st.resolved_pointers.saturating_add(obj.rels.len()).saturating_add(
        obj.relas.len(),
    );
    let ghost st0 = st;
    assert(st0 == Stats {
        resolved_pointers: sat_add_usize(
            sat_add_usize(stats.resolved_pointers, o.3.len() as int),
            o.4.len() as int,
        ),
        ..stats
    });
    let mut i: usize = 0;
    while i < obj.symbols.len()
        invariant
            i <= obj.symbols@.len(),
            o == obj.view(),
            lookup == xmap_lookup_fn(*xmap),
            object_step(stats, o, subpath@, is_cfile, lookup, ranges@) == symbols_step(
                st0,
                o,
                o.2.len(),
                subpath@,
                is_cfile,
                lookup,
                ranges@,
            ),
            symbols_step(st0, o, i as nat, subpath@, is_cfile, lookup, ranges@) == Ok::<
                Stats,
                Error,
            >(st),
        decreases obj.symbols.len() - i,
    {
        let nsym = &obj.symbols[i];
        assert(o.2[i as int] == (nsym.sym, nsym.name@));
        let ghost prev = st;
        let ghost key: XmapKey = (subpath@, is_cfile, nsym.name@);
        assert(lookup(key) == xmap.lookup(key));
        assert(symbols_step(st0, o, (i + 1) as nat, subpath@, is_cfile, lookup, ranges@)
            == symbol_step(prev, o.0, o.2[i as int], subpath@, is_cfile, lookup, ranges@));
        if nsym.sym.st_size != 0 {
            if let Some(rxsym) = xmap.get(subpath, is_cfile, nsym.name.as_str()) {
                if is_cfile || crate::text::str_eq(rxsym.section_name.as_str(), nsym.name.as_str()) {
                    assert(lookup(key) == Some(rxsym@));
                    match count_hardcoded_pointers(nsym, obj, ranges, rxsym) {
                        Ok(n) => {
                            match rxsym.section_type {
                                SectionType::Code => if is_cfile {
                                    st.c_code_bytes = st.c_code_bytes.saturating_add(rxsym.size);
                                } else {
                                    st.asm_code_bytes = st.asm_code_bytes.saturating_add(rxsym.size);
                                },
                                SectionType::Data => if is_cfile {
                                    st.c_data_bytes = st.c_data_bytes.saturating_add(rxsym.size);
                                } else {
                                    st.asm_data_bytes = st.asm_data_bytes.saturating_add(rxsym.size);
                                },
                                _ => {},
                            }
                            st.hardcoded_pointers = st.hardcoded_pointers.saturating_add(n);
                            assert(symbol_step(prev, o.0, o.2[i as int], subpath@, is_cfile, lookup, ranges@) == Ok::<Stats, Error>(st));
                        },
                        Err(e) => {
                            assert(symbol_step(prev, o.0, o.2[i as int], subpath@, is_cfile, lookup, ranges@) == Err::<Stats, Error>(e));
                            proof {
                                lemma_symbols_fail_stays(st0, o, (i + 1) as nat, subpath@, is_cfile, lookup, ranges@);
                            }
                            return Err(e);
                        },
                    }
                }
            }
        }
        assert(symbol_step(prev, o.0, o.2[i as int], subpath@, is_cfile, lookup, ranges@) == Ok::<
            Stats,
            Error,
        >(st));
        i = i + 1;
    }
    Ok(st)
}

} // verus!
