//! Reading ELF files with the `elf` crate.
//!
//! The `elf` crate decodes the headers and tables of a little-endian ELF
//! image. What it returns is named here as a function of the raw bytes of
//! the file; the library checks the header and assembles an [`ElfFile`]
//! from those results.
//!
//! `ElfBytes` cannot be declared to Verus (its type parameter is bounded by
//! the crate's `EndianParse` trait), so no parsed handle passes between
//! functions: each reading function below takes the raw bytes, locates the
//! tables again with `ElfBytes::minimal_parse` (which only reads the file
//! header), and then makes its one call.

use vstd::prelude::*;
use elf::endian::LittleEndian;
use elf::ElfBytes;
use elf::ParseError;
use crate::elf_file::{ElfFile, NamedSymbol, ProgramHeader, Rel, Rela, SectionHeader, SectionHeaderWithData, Symbol};
use crate::errors::Error;
use crate::text::string_from_chars;

verus! {

#[verifier::external_type_specification]
#[verifier::external_body]
pub struct ExParseError(ParseError);

/// `ElfBytes::<LittleEndian>::minimal_parse` accepts the bytes.
pub uninterp spec fn elf_parses(data: Seq<u8>) -> bool;

/// The file header says the file is of class ELF32.
pub uninterp spec fn elf_is_elf32(data: Seq<u8>) -> bool;

/// The `e_machine` field of the file header.
pub uninterp spec fn elf_machine(data: Seq<u8>) -> u16;

/// The program headers that `ElfBytes::segments` yields.
pub uninterp spec fn elf_segments(data: Seq<u8>) -> Seq<ProgramHeader>;

/// The section headers that `ElfBytes::section_headers` yields.
pub uninterp spec fn elf_section_headers(data: Seq<u8>) -> Seq<SectionHeader>;

/// The data that `ElfBytes::section_data` gives for a section, if it succeeds.
pub uninterp spec fn elf_section_data(data: Seq<u8>, shdr: SectionHeader) -> Option<Seq<u8>>;

/// The relocations that `ElfBytes::section_data_as_rels` gives for a section, if it succeeds.
pub uninterp spec fn elf_rels(data: Seq<u8>, shdr: SectionHeader) -> Option<Seq<Rel>>;

/// The relocations that `ElfBytes::section_data_as_relas` gives for a section, if it succeeds.
pub uninterp spec fn elf_relas(data: Seq<u8>, shdr: SectionHeader) -> Option<Seq<Rela>>;

/// The entries of the `.symtab` that `ElfBytes::symbol_table` finds: `None`
/// where it fails, `Some(None)` where the file has no symbol table.
pub uninterp spec fn elf_symbols(data: Seq<u8>) -> Option<Option<Seq<Symbol>>>;

/// The string at `offset` of the string table of `.symtab`, if `StringTable::get` gives one.
pub uninterp spec fn elf_symbol_name(data: Seq<u8>, offset: u32) -> Option<Seq<char>>;

/// Wraps `ElfBytes::<LittleEndian>::minimal_parse`, which reads the file
/// header and locates the section and program header tables. The contract
/// claims only that it succeeds exactly on the bytes `elf_parses` names.
#[verifier::external_body]
fn check_elf(data: &[u8]) -> (r: Result<(), ParseError>)
    ensures
        r is Ok <==> elf_parses(data@),
{
    ElfBytes::<LittleEndian>::minimal_parse(data)?;
    Ok(())
}

/// Reads the `class` field of the header that `ElfBytes::minimal_parse`
/// decodes; the contract claims it is ELF32 exactly where `elf_is_elf32` says.
#[verifier::external_body]
fn header_is_elf32(data: &[u8]) -> (r: bool)
    requires
        elf_parses(data@),
    ensures
        r == elf_is_elf32(data@),
{
    ElfBytes::<LittleEndian>::minimal_parse(data).unwrap().ehdr.class == elf::file::Class::ELF32
}

/// Reads the `e_machine` field of the header that `ElfBytes::minimal_parse`
/// decodes; the contract claims it is what `elf_machine` names.
#[verifier::external_body]
fn header_machine(data: &[u8]) -> (r: u16)
    requires
        elf_parses(data@),
    ensures
        r == elf_machine(data@),
{
    ElfBytes::<LittleEndian>::minimal_parse(data).unwrap().ehdr.e_machine
}

/// Wraps `ElfBytes::segments`, collecting the program headers its table
/// yields (none where the file has no table); the contract claims they are
/// what `elf_segments` names.
#[verifier::external_body]
fn read_segments(data: &[u8]) -> (r: Vec<ProgramHeader>)
    requires
        elf_parses(data@),
    ensures
        r@ == elf_segments(data@),
{
    let b = ElfBytes::<LittleEndian>::minimal_parse(data).unwrap();
    b.segments().into_iter().flatten().map(|p| ProgramHeader {
        p_type: p.p_type, p_offset: p.p_offset, p_vaddr: p.p_vaddr, p_paddr: p.p_paddr,
        p_filesz: p.p_filesz, p_memsz: p.p_memsz, p_flags: p.p_flags, p_align: p.p_align,
    }).collect()
}

/// Wraps `ElfBytes::section_headers`, collecting the section headers its
/// table yields (none where the file has no table); the contract claims they
/// are what `elf_section_headers` names.
#[verifier::external_body]
fn read_section_headers(data: &[u8]) -> (r: Vec<SectionHeader>)
    requires
        elf_parses(data@),
    ensures
        r@ == elf_section_headers(data@),
{
    let b = ElfBytes::<LittleEndian>::minimal_parse(data).unwrap();
    b.section_headers().into_iter().flatten().map(|h| SectionHeader {
        sh_name: h.sh_name, sh_type: h.sh_type, sh_flags: h.sh_flags, sh_addr: h.sh_addr,
        sh_offset: h.sh_offset, sh_size: h.sh_size, sh_link: h.sh_link, sh_info: h.sh_info,
        sh_addralign: h.sh_addralign, sh_entsize: h.sh_entsize,
    }).collect()
}

/// Wraps `ElfBytes::section_data`, keeping the data and dropping the
/// compression header; the contract claims that it succeeds, and with what,
/// as `elf_section_data` names.
#[verifier::external_body]
fn read_section_data(data: &[u8], shdr: &SectionHeader) -> (r: Result<Vec<u8>, ParseError>)
    requires
        elf_parses(data@),
    ensures
        match r {
            Ok(d) => elf_section_data(data@, *shdr) == Some(d@),
            Err(_) => elf_section_data(data@, *shdr) is None,
        },
{
    let b = ElfBytes::<LittleEndian>::minimal_parse(data).unwrap();
    let h = elf::section::SectionHeader { sh_name: shdr.sh_name, sh_type: shdr.sh_type,
        sh_flags: shdr.sh_flags, sh_addr: shdr.sh_addr, sh_offset: shdr.sh_offset,
        sh_size: shdr.sh_size, sh_link: shdr.sh_link, sh_info: shdr.sh_info,
        sh_addralign: shdr.sh_addralign, sh_entsize: shdr.sh_entsize };
    Ok(b.section_data(&h)?.0.to_vec())
}

/// Wraps `ElfBytes::section_data_as_rels`, collecting the relocations its
/// iterator yields; the contract claims that it succeeds, and with what, as
/// `elf_rels` names.
#[verifier::external_body]
fn read_rels(data: &[u8], shdr: &SectionHeader) -> (r: Result<Vec<Rel>, ParseError>)
    requires
        elf_parses(data@),
    ensures
        match r {
            Ok(v) => elf_rels(data@, *shdr) == Some(v@),
            Err(_) => elf_rels(data@, *shdr) is None,
        },
{
    let b = ElfBytes::<LittleEndian>::minimal_parse(data).unwrap();
    let h = elf::section::SectionHeader { sh_name: shdr.sh_name, sh_type: shdr.sh_type,
        sh_flags: shdr.sh_flags, sh_addr: shdr.sh_addr, sh_offset: shdr.sh_offset,
        sh_size: shdr.sh_size, sh_link: shdr.sh_link, sh_info: shdr.sh_info,
        sh_addralign: shdr.sh_addralign, sh_entsize: shdr.sh_entsize };
    Ok(b.section_data_as_rels(&h)?.map(|r| Rel { r_offset: r.r_offset, r_sym: r.r_sym,
        r_type: r.r_type }).collect())
}

/// Wraps `ElfBytes::section_data_as_relas`, collecting the relocations its
/// iterator yields; the contract claims that it succeeds, and with what, as
/// `elf_relas` names.
#[verifier::external_body]
fn read_relas(data: &[u8], shdr: &SectionHeader) -> (r: Result<Vec<Rela>, ParseError>)
    requires
        elf_parses(data@),
    ensures
        match r {
            Ok(v) => elf_relas(data@, *shdr) == Some(v@),
            Err(_) => elf_relas(data@, *shdr) is None,
        },
{
    let b = ElfBytes::<LittleEndian>::minimal_parse(data).unwrap();
    let h = elf::section::SectionHeader { sh_name: shdr.sh_name, sh_type: shdr.sh_type,
        sh_flags: shdr.sh_flags, sh_addr: shdr.sh_addr, sh_offset: shdr.sh_offset,
        sh_size: shdr.sh_size, sh_link: shdr.sh_link, sh_info: shdr.sh_info,
        sh_addralign: shdr.sh_addralign, sh_entsize: shdr.sh_entsize };
    Ok(b.section_data_as_relas(&h)?.map(|r| Rela { r_offset: r.r_offset, r_sym: r.r_sym,
        r_type: r.r_type, r_addend: r.r_addend }).collect())
}

/// Wraps `ElfBytes::symbol_table`, collecting the entries of the symbol
/// table it finds; the contract claims that it succeeds, and with what, as
/// `elf_symbols` names. Each entry is copied field by field, the binding,
/// type and visibility as the crate's accessors give them.
#[verifier::external_body]
fn read_symbols(data: &[u8]) -> (r: Result<Option<Vec<Symbol>>, ParseError>)
    requires
        elf_parses(data@),
    ensures
        match r {
            Ok(Some(v)) => elf_symbols(data@) == Some(Some(v@)),
            Ok(None) => elf_symbols(data@) == Some(None::<Seq<Symbol>>),
            Err(_) => elf_symbols(data@) is None,
        },
{
    let b = ElfBytes::<LittleEndian>::minimal_parse(data).unwrap();
    Ok(b.symbol_table()?.map(|(t, _)| t.iter().map(|s| Symbol { st_name: s.st_name,
        st_shndx: s.st_shndx, st_bind: s.st_bind(), st_symtype: s.st_symtype(),
        st_vis: s.st_vis(), st_value: s.st_value, st_size: s.st_size }).collect()))
}

/// Wraps `StringTable::get` on the string table of `.symtab` that
/// `ElfBytes::symbol_table` finds (the string table comes with the symbol
/// table and is fetched with it again here); the contract claims that it
/// succeeds, and with what, as `elf_symbol_name` names.
#[verifier::external_body]
fn read_symbol_name(data: &[u8], offset: u32) -> (r: Result<String, ParseError>)
    requires
        elf_parses(data@),
        elf_symbols(data@) matches Some(Some(_)),
    ensures
        match r {
            Ok(s) => elf_symbol_name(data@, offset) == Some(s@),
            Err(_) => elf_symbol_name(data@, offset) is None,
        },
{
    let b = ElfBytes::<LittleEndian>::minimal_parse(data).unwrap();
    let (_, strtab) = b.symbol_table()?.unwrap();
    Ok(strtab.get(offset as usize)?.to_string())
}

/// The message that `ParseError`'s `Display` gives; nothing is claimed of it.
#[verifier::external_body]
fn parse_error_message(e: &ParseError) -> String {
    format!("{e}")
}

/// Whether the `elf` crate can read the file header of an image and locate
/// its tables.
pub fn elf_header_parses(data: &[u8]) -> (r: bool)
    ensures
        r == elf_parses(data@),
{
    check_elf(data).is_ok()
}

/// Why reading an ELF file fails.
#[derive(Clone, Copy, Debug, PartialEq, Eq, Structural)]
pub enum ElfFailure {
    /// The `elf` crate refused the file or one of its tables.
    Parse,
    NotElf32,
    NotArm32,
    NoSymtab,
}

/// The kind of an ELF reading error, if it is one.
pub open spec fn elf_failure_of(e: Error) -> Option<ElfFailure> {
    match e {
        Error::ElfParse(_) => Some(ElfFailure::Parse),
        Error::NotElf32 => Some(ElfFailure::NotElf32),
        Error::NotArm32 => Some(ElfFailure::NotArm32),
        Error::NoSymtab => Some(ElfFailure::NoSymtab),
        _ => None,
    }
}

/// The machine number of ARM.
pub const EM_ARM: u16 = 40;

/// The section type of relocations without addend.
pub const SHT_REL: u32 = 9;

/// The section type of relocations with addend.
pub const SHT_RELA: u32 = 4;

/// The sections with their data, in header order; `None` where reading the
/// data of one fails.
pub open spec fn sections_with_data(data: Seq<u8>, shdrs: Seq<SectionHeader>) -> Option<
    Seq<(SectionHeader, Seq<u8>)>,
>
    decreases shdrs.len(),
{
    if shdrs.len() == 0 {
        Some(Seq::empty())
    } else {
        match sections_with_data(data, shdrs.drop_last()) {
            None => None,
            Some(p) => match elf_section_data(data, shdrs.last()) {
                None => None,
                Some(d) => Some(p.push((shdrs.last(), d))),
            },
        }
    }
}

/// The relocations of all `SHT_REL` sections, in header order; `None` where
/// reading one of them fails.
pub open spec fn all_rels(data: Seq<u8>, shdrs: Seq<SectionHeader>) -> Option<Seq<Rel>>
    decreases shdrs.len(),
{
    if shdrs.len() == 0 {
        Some(Seq::empty())
    } else {
        match all_rels(data, shdrs.drop_last()) {
            None => None,
            Some(p) => if shdrs.last().sh_type == SHT_REL {
                match elf_rels(data, shdrs.last()) {
                    None => None,
                    Some(v) => Some(p + v),
                }
            } else {
                Some(p)
            },
        }
    }
}

/// The relocations of all `SHT_RELA` sections, in header order; `None` where
/// reading one of them fails.
pub open spec fn all_relas(data: Seq<u8>, shdrs: Seq<SectionHeader>) -> Option<Seq<Rela>>
    decreases shdrs.len(),
{
    if shdrs.len() == 0 {
        Some(Seq::empty())
    } else {
        match all_relas(data, shdrs.drop_last()) {
            None => None,
            Some(p) => if shdrs.last().sh_type == SHT_RELA {
                match elf_relas(data, shdrs.last()) {
                    None => None,
                    Some(v) => Some(p + v),
                }
            } else {
                Some(p)
            },
        }
    }
}

/// The relocations of one header: those of an `SHT_REL` section as the
/// `elf` crate reads them, none for any other section.
pub proof fn lemma_all_rels_of_one(data: Seq<u8>, h: SectionHeader)
    ensures
        all_rels(data, seq![h]) == if h.sh_type == SHT_REL {
            elf_rels(data, h)
        } else {
            Some(Seq::<Rel>::empty())
        },
{
    reveal_with_fuel(all_rels, 2);
    assert(seq![h].drop_last() =~= Seq::<SectionHeader>::empty());
    assert(seq![h].last() == h);
    if let Some(v) = elf_rels(data, h) {
        assert(Seq::<Rel>::empty() + v =~= v);
    }
}

/// Reading the relocations of the headers `a` followed by `b` gives those of
/// `a` followed by those of `b`, and fails exactly where one of them fails:
/// no `SHT_REL` section's relocations are dropped or replaced.
pub proof fn lemma_all_rels_concat(data: Seq<u8>, a: Seq<SectionHeader>, b: Seq<SectionHeader>)
    ensures
        all_rels(data, a + b) == match (all_rels(data, a), all_rels(data, b)) {
            (Some(x), Some(y)) => Some(x + y),
            _ => None::<Seq<Rel>>,
        },
    decreases b.len(),
{
    if b.len() == 0 {
        assert(a + b =~= a);
        if let Some(x) = all_rels(data, a) {
            assert(x + Seq::<Rel>::empty() =~= x);
        }
    } else {
        lemma_all_rels_concat(data, a, b.drop_last());
        assert((a + b).drop_last() =~= a + b.drop_last());
        assert((a + b).last() == b.last());
        if let (Some(x), Some(y)) = (all_rels(data, a), all_rels(data, b.drop_last())) {
            if let Some(v) = elf_rels(data, b.last()) {
                assert(x + y + v =~= x + (y + v));
            }
        }
    }
}

/// The relocations with addend of one header: those of an `SHT_RELA`
/// section as the `elf` crate reads them, none for any other section.
pub proof fn lemma_all_relas_of_one(data: Seq<u8>, h: SectionHeader)
    ensures
        all_relas(data, seq![h]) == if h.sh_type == SHT_RELA {
            elf_relas(data, h)
        } else {
            Some(Seq::<Rela>::empty())
        },
{
    reveal_with_fuel(all_relas, 2);
    assert(seq![h].drop_last() =~= Seq::<SectionHeader>::empty());
    assert(seq![h].last() == h);
    if let Some(v) = elf_relas(data, h) {
        assert(Seq::<Rela>::empty() + v =~= v);
    }
}

/// Reading the relocations with addend of the headers `a` followed by `b`
/// gives those of `a` followed by those of `b`, and fails exactly where one
/// of them fails.
pub proof fn lemma_all_relas_concat(data: Seq<u8>, a: Seq<SectionHeader>, b: Seq<SectionHeader>)
    ensures
        all_relas(data, a + b) == match (all_relas(data, a), all_relas(data, b)) {
            (Some(x), Some(y)) => Some(x + y),
            _ => None::<Seq<Rela>>,
        },
    decreases b.len(),
{
    if b.len() == 0 {
        assert(a + b =~= a);
        if let Some(x) = all_relas(data, a) {
            assert(x + Seq::<Rela>::empty() =~= x);
        }
    } else {
        lemma_all_relas_concat(data, a, b.drop_last());
        assert((a + b).drop_last() =~= a + b.drop_last());
        assert((a + b).last() == b.last());
        if let (Some(x), Some(y)) = (all_relas(data, a), all_relas(data, b.drop_last())) {
            if let Some(v) = elf_relas(data, b.last()) {
                assert(x + y + v =~= x + (y + v));
            }
        }
    }
}

/// The symbols with their names, in table order; `None` where a name cannot be read.
pub open spec fn named_symbols(data: Seq<u8>, syms: Seq<Symbol>) -> Option<
    Seq<(Symbol, Seq<char>)>,
>
    decreases syms.len(),
{
    if syms.len() == 0 {
        Some(Seq::empty())
    } else {
        match named_symbols(data, syms.drop_last()) {
            None => None,
            Some(p) => match elf_symbol_name(data, syms.last().st_name) {
                None => None,
                Some(n) => Some(p.push((syms.last(), n))),
            },
        }
    }
}

/// What an ELF file holds as plain values: (sections with data, segments,
/// named symbols, relocations, relocations with addend).
pub type ElfView = (
    Seq<(SectionHeader, Seq<u8>)>,
    Seq<ProgramHeader>,
    Seq<(Symbol, Seq<char>)>,
    Seq<Rel>,
    Seq<Rela>,
);

/// What reading `data` gives: the file must parse, be ELF32, be for ARM, have
/// readable section data and relocation tables, and have a symbol table
/// whose names can all be read; the checks are made in that order.
pub open spec fn read_elf(data: Seq<u8>) -> Result<ElfView, ElfFailure> {
    if !elf_parses(data) {
        Err(ElfFailure::Parse)
    } else if !elf_is_elf32(data) {
        Err(ElfFailure::NotElf32)
    } else if elf_machine(data) != EM_ARM {
        Err(ElfFailure::NotArm32)
    } else {
        let shdrs = elf_section_headers(data);
        match sections_with_data(data, shdrs) {
            None => Err(ElfFailure::Parse),
            Some(secs) => match all_rels(data, shdrs) {
                None => Err(ElfFailure::Parse),
                Some(rels) => match all_relas(data, shdrs) {
                    None => Err(ElfFailure::Parse),
                    Some(relas) => match elf_symbols(data) {
                        None => Err(ElfFailure::Parse),
                        Some(None) => Err(ElfFailure::NoSymtab),
                        Some(Some(syms)) => match named_symbols(data, syms) {
                            None => Err(ElfFailure::Parse),
                            Some(named) => Ok((secs, elf_segments(data), named, rels, relas)),
                        },
                    },
                },
            },
        }
    }
}

/// Checks the header fields that make a file an NDS binary: the file must be
/// a 32-bit ELF (`is_elf32`), and its machine must be ARM.
pub fn check_elf_header(is_elf32: bool, machine: u16) -> (r: Result<(), Error>)
    ensures
        r == if !is_elf32 {
            Err(Error::NotElf32)
        } else if machine != EM_ARM {
            Err(Error::NotArm32)
        } else {
            Ok::<(), Error>(())
        },
{
    if !is_elf32 {
        Err(Error::NotElf32)
    } else if machine != EM_ARM {
        Err(Error::NotArm32)
    } else {
        Ok(())
    }
}

impl ElfFile {
    /// The file as plain values.
    pub open spec fn view(&self) -> ElfView {
        (
            crate::elf_file::sections_view(self.sections@),
            self.segments@,
            self.symbols@.map_values(|s: NamedSymbol| (s.sym, s.name@)),
            self.rels@,
            self.relas@,
        )
    }

    /// Reads an ELF image and checks that it is a 32-bit ARM ELF; collects
    /// its sections with their data, its segments, its symbols with their
    /// names, and the relocations of its `SHT_REL` and `SHT_RELA` sections.
    pub fn parse(data: &[u8]) -> (r: Result<ElfFile, Error>)
        ensures
            match r {
                Ok(f) => read_elf(data@) == Ok::<ElfView, ElfFailure>(f.view()),
                Err(e) => elf_failure_of(e) is Some && read_elf(data@) == Err::<
                    ElfView,
                    ElfFailure,
                >(elf_failure_of(e).unwrap()),
            },
    {
        if let Err(e) = check_elf(data) {
            return Err(Error::ElfParse(parse_error_message(&e)));
        }
        if let Err(e) = check_elf_header(header_is_elf32(data), header_machine(data)) {
            return Err(e);
        }
        let segments = read_segments(data);
        let shdrs = read_section_headers(data);
        let mut sections: Vec<SectionHeaderWithData> = Vec::new();
        let mut i: usize = 0;
        while i < shdrs.len()
            invariant
                i <= shdrs@.len(),
                elf_parses(data@),
                elf_is_elf32(data@),
                elf_machine(data@) == EM_ARM,
                shdrs@ == elf_section_headers(data@),
                sections_with_data(data@, shdrs@.take(i as int)) == Some(
                    sections@.map_values(|s: SectionHeaderWithData| (s.shdr, s.data@)),
                ),
            decreases shdrs.len() - i,
        {
            assert(shdrs@.take(i + 1).drop_last() =~= shdrs@.take(i as int));
            match read_section_data(data, &shdrs[i]) {
                Ok(d) => {
                    let ghost before = sections@;
                    sections.push(SectionHeaderWithData { shdr: shdrs[i], data: d });
                    assert(sections@.map_values(|s: SectionHeaderWithData| (s.shdr, s.data@))
                        =~= before.map_values(|s: SectionHeaderWithData| (s.shdr, s.data@)).push(
                        (shdrs@[i as int], d@),
                    ));
                },
                Err(e) => {
                    assert(shdrs@.take(i + 1).last() == shdrs@[i as int]);
                    assert(sections_with_data(data@, shdrs@.take(i + 1)) is None);
                    proof {
                        lemma_sections_fail_stays(data@, shdrs@, (i + 1) as nat);
                    }
                    assert(shdrs@.take(shdrs@.len() as int) =~= shdrs@);
                    return Err(Error::ElfParse(parse_error_message(&e)));
                },
            }
            i = i + 1;
        }
        assert(shdrs@.take(shdrs@.len() as int) =~= shdrs@);
        let mut rels: Vec<Rel> = Vec::new();
        let mut relas: Vec<Rela> = Vec::new();
        let mut j: usize = 0;
        while j < shdrs.len()
            invariant
                j <= shdrs@.len(),
                elf_parses(data@),
                elf_is_elf32(data@),
                elf_machine(data@) == EM_ARM,
                shdrs@ == elf_section_headers(data@),
                sections_with_data(data@, shdrs@) == Some(
                    sections@.map_values(|s: SectionHeaderWithData| (s.shdr, s.data@)),
                ),
                all_rels(data@, shdrs@.take(j as int)) == Some(rels@),
            decreases shdrs.len() - j,
        {
            assert(shdrs@.take(j + 1).drop_last() =~= shdrs@.take(j as int));
            if shdrs[j].sh_type == SHT_REL {
                match read_rels(data, &shdrs[j]) {
                    Ok(v) => {
                        let mut v = v;
                        rels.append(&mut v);
                    },
                    Err(e) => {
                        assert(shdrs@.take(j + 1).last() == shdrs@[j as int]);
                        assert(all_rels(data@, shdrs@.take(j + 1)) is None);
                        proof {
                            lemma_rels_fail_stays(data@, shdrs@, (j + 1) as nat);
                        }
                        return Err(Error::ElfParse(parse_error_message(&e)));
                    },
                }
            }
            j = j + 1;
        }
        let mut k: usize = 0;
        while k < shdrs.len()
            invariant
                k <= shdrs@.len(),
                elf_parses(data@),
                elf_is_elf32(data@),
                elf_machine(data@) == EM_ARM,
                shdrs@ == elf_section_headers(data@),
                all_rels(data@, shdrs@) == Some(rels@),
                sections_with_data(data@, shdrs@) == Some(
                    sections@.map_values(|s: SectionHeaderWithData| (s.shdr, s.data@)),
                ),
                all_relas(data@, shdrs@.take(k as int)) == Some(relas@),
            decreases shdrs.len() - k,
        {
            assert(shdrs@.take(k + 1).drop_last() =~= shdrs@.take(k as int));
            if shdrs[k].sh_type == SHT_RELA {
                match read_relas(data, &shdrs[k]) {
                    Ok(v) => {
                        let mut v = v;
                        relas.append(&mut v);
                    },
                    Err(e) => {
                        assert(shdrs@.take(k + 1).last() == shdrs@[k as int]);
                        assert(all_relas(data@, shdrs@.take(k + 1)) is None);
                        proof {
                            lemma_relas_fail_stays(data@, shdrs@, (k + 1) as nat);
                        }
                        return Err(Error::ElfParse(parse_error_message(&e)));
                    },
                }
            }
            k = k + 1;
        }
        assert(shdrs@.take(shdrs@.len() as int) =~= shdrs@);
        let syms = match read_symbols(data) {
            Ok(Some(v)) => v,
            Ok(None) => {
                return Err(Error::NoSymtab);
            },
            Err(e) => {
                return Err(Error::ElfParse(parse_error_message(&e)));
            },
        };
        let mut symbols: Vec<NamedSymbol> = Vec::new();
        let mut m: usize = 0;
        while m < syms.len()
            invariant
                m <= syms@.len(),
                elf_parses(data@),
                elf_is_elf32(data@),
                elf_machine(data@) == EM_ARM,
                shdrs@ == elf_section_headers(data@),
                all_rels(data@, shdrs@) == Some(rels@),
                all_relas(data@, shdrs@) == Some(relas@),
                sections_with_data(data@, shdrs@) == Some(
                    sections@.map_values(|s: SectionHeaderWithData| (s.shdr, s.data@)),
                ),
                segments@ == elf_segments(data@),
                elf_symbols(data@) == Some(Some(syms@)),
                named_symbols(data@, syms@.take(m as int)) == Some(
                    symbols@.map_values(|s: NamedSymbol| (s.sym, s.name@)),
                ),
            decreases syms.len() - m,
        {
            assert(syms@.take(m + 1).drop_last() =~= syms@.take(m as int));
            match read_symbol_name(data, syms[m].st_name) {
                Ok(name) => {
                    let ghost before = symbols@;
                    symbols.push(NamedSymbol { sym: syms[m], name });
                    assert(symbols@.map_values(|s: NamedSymbol| (s.sym, s.name@)) =~= before.map_values(
                        |s: NamedSymbol| (s.sym, s.name@),
                    ).push((syms@[m as int], name@)));
                },
                Err(e) => {
                    assert(syms@.take(m + 1).last() == syms@[m as int]);
                    assert(named_symbols(data@, syms@.take(m + 1)) is None);
                    proof {
                        lemma_names_fail_stays(data@, syms@, (m + 1) as nat);
                    }
                    assert(syms@.take(syms@.len() as int) =~= syms@);
                    return Err(Error::ElfParse(parse_error_message(&e)));
                },
            }
            m = m + 1;
        }
        assert(syms@.take(syms@.len() as int) =~= syms@);
        Ok(ElfFile { sections, segments, symbols, rels, relas })
    }
}

proof fn lemma_sections_fail_stays(data: Seq<u8>, shdrs: Seq<SectionHeader>, n: nat)
    requires
        n <= shdrs.len(),
        sections_with_data(data, shdrs.take(n as int)) is None,
    ensures
        sections_with_data(data, shdrs) is None,
    decreases shdrs.len() - n,
{
    if n < shdrs.len() {
        assert(shdrs.take((n + 1) as int).drop_last() =~= shdrs.take(n as int));
        lemma_sections_fail_stays(data, shdrs, n + 1);
    } else {
        assert(shdrs.take(n as int) =~= shdrs);
    }
}

proof fn lemma_rels_fail_stays(data: Seq<u8>, shdrs: Seq<SectionHeader>, n: nat)
    requires
        n <= shdrs.len(),
        all_rels(data, shdrs.take(n as int)) is None,
    ensures
        all_rels(data, shdrs) is None,
    decreases shdrs.len() - n,
{
    if n < shdrs.len() {
        assert(shdrs.take((n + 1) as int).drop_last() =~= shdrs.take(n as int));
        lemma_rels_fail_stays(data, shdrs, n + 1);
    } else {
        assert(shdrs.take(n as int) =~= shdrs);
    }
}

proof fn lemma_relas_fail_stays(data: Seq<u8>, shdrs: Seq<SectionHeader>, n: nat)
    requires
        n <= shdrs.len(),
        all_relas(data, shdrs.take(n as int)) is None,
    ensures
        all_relas(data, shdrs) is None,
    decreases shdrs.len() - n,
{
    if n < shdrs.len() {
        assert(shdrs.take((n + 1) as int).drop_last() =~= shdrs.take(n as int));
        lemma_relas_fail_stays(data, shdrs, n + 1);
    } else {
        assert(shdrs.take(n as int) =~= shdrs);
    }
}

proof fn lemma_names_fail_stays(data: Seq<u8>, syms: Seq<Symbol>, n: nat)
    requires
        n <= syms.len(),
        named_symbols(data, syms.take(n as int)) is None,
    ensures
        named_symbols(data, syms) is None,
    decreases syms.len() - n,
{
    if n < syms.len() {
        assert(syms.take((n + 1) as int).drop_last() =~= syms.take(n as int));
        lemma_names_fail_stays(data, syms, n + 1);
    } else {
        assert(syms.take(n as int) =~= syms);
    }
}

} // verus!
