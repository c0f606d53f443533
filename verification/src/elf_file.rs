//! ELF files as plain values: headers, section contents, symbols and relocations.

use vstd::prelude::*;

verus! {

/// A program header, with the fields the ELF specification gives it.
#[derive(Clone, Copy, Debug, PartialEq, Eq, Structural)]
pub struct ProgramHeader {
    pub p_type: u32,
    pub p_offset: u64,
    pub p_vaddr: u64,
    pub p_paddr: u64,
    pub p_filesz: u64,
    pub p_memsz: u64,
    pub p_flags: u32,
    pub p_align: u64,
}

/// A section header, with the fields the ELF specification gives it.
#[derive(Clone, Copy, Debug, PartialEq, Eq, Structural)]
pub struct SectionHeader {
    pub sh_name: u32,
    pub sh_type: u32,
    pub sh_flags: u64,
    pub sh_addr: u64,
    pub sh_offset: u64,
    pub sh_size: u64,
    pub sh_link: u32,
    pub sh_info: u32,
    pub sh_addralign: u64,
    pub sh_entsize: u64,
}

/// A symbol table entry: its name offset, section index, binding, type,
/// visibility, value and size.
#[derive(Clone, Copy, Debug, PartialEq, Eq, Structural)]
pub struct Symbol {
    pub st_name: u32,
    pub st_shndx: u16,
    pub st_bind: u8,
    pub st_symtype: u8,
    pub st_vis: u8,
    pub st_value: u64,
    pub st_size: u64,
}

/// A relocation without addend.
#[derive(Clone, Copy, Debug, PartialEq, Eq, Structural)]
pub struct Rel {
    pub r_offset: u64,
    pub r_sym: u32,
    pub r_type: u32,
}

/// A relocation with addend.
#[derive(Clone, Copy, Debug, PartialEq, Eq, Structural)]
pub struct Rela {
    pub r_offset: u64,
    pub r_sym: u32,
    pub r_type: u32,
    pub r_addend: i64,
}

/// A section header together with the bytes of its section.
#[derive(Clone, Debug)]
pub struct SectionHeaderWithData {
    pub shdr: SectionHeader,
    pub data: Vec<u8>,
}

/// A symbol together with its name.
#[derive(Clone, Debug)]
pub struct NamedSymbol {
    pub sym: Symbol,
    pub name: String,
}

/// A parsed ELF: its sections with their data, its segments, its named
/// symbols, and its relocations with and without addend.
#[derive(Clone, Debug)]
pub struct ElfFile {
    pub sections: Vec<SectionHeaderWithData>,
    pub segments: Vec<ProgramHeader>,
    pub symbols: Vec<NamedSymbol>,
    pub rels: Vec<Rel>,
    pub relas: Vec<Rela>,
}

/// The sections as (header, data).
pub open spec fn sections_view(sections: Seq<SectionHeaderWithData>) -> Seq<(SectionHeader, Seq<u8>)> {
    sections.map_values(|s: SectionHeaderWithData| (s.shdr, s.data@))
}

/// `a - b`, or 0 where that is negative.
pub open spec fn sat_sub(a: u64, b: u64) -> u64 {
    if a < b {
        0
    } else {
        (a - b) as u64
    }
}

/// `a + b`, or `u64::MAX` where that does not fit.
pub open spec fn sat_add(a: u64, b: u64) -> u64 {
    if a + b > u64::MAX {
        u64::MAX
    } else {
        (a + b) as u64
    }
}

/// The bytes of a symbol: `st_size` bytes of the data of section `st_shndx`,
/// from `st_value - sh_addr` on (both ends saturating).
pub open spec fn symbol_bytes(sections: Seq<(SectionHeader, Seq<u8>)>, sym: Symbol) -> Result<
    Seq<u8>,
    crate::errors::Error,
> {
    if sym.st_shndx >= sections.len() {
        Err(crate::errors::Error::UnrecognizedSection)
    } else {
        let sec = sections[sym.st_shndx as int];
        let start = sat_sub(sym.st_value, sec.0.sh_addr);
        let end = sat_add(start, sym.st_size);
        if end <= sec.1.len() {
            Ok(sec.1.subrange(start as int, end as int))
        } else {
            Err(crate::errors::Error::BadSlice)
        }
    }
}

/// Where a symbol's bytes are found, there are exactly `st_size` of them
/// (for section data shorter than `u64::MAX` bytes, as all data in memory is).
pub proof fn lemma_symbol_bytes_len(sections: Seq<(SectionHeader, Seq<u8>)>, sym: Symbol)
    requires
        forall|i: int| 0 <= i < sections.len() ==> (#[trigger] sections[i]).1.len() < u64::MAX,
    ensures
        symbol_bytes(sections, sym) matches Ok(d) ==> d.len() == sym.st_size,
{
}

impl ElfFile {
    /// The bytes of `sym` within its section.
    pub fn symbol_data(&self, sym: &NamedSymbol) -> (r: Result<Vec<u8>, crate::errors::Error>)
        ensures
            r matches Ok(v) ==> symbol_bytes(sections_view(self.sections@), sym.sym) == Ok::<
                Seq<u8>,
                crate::errors::Error,
            >(v@),
            r matches Err(e) ==> symbol_bytes(sections_view(self.sections@), sym.sym) == Err::<
                Seq<u8>,
                crate::errors::Error,
            >(e),
    {
        let idx = sym.sym.st_shndx as usize;
        if idx >= self.sections.len() {
            return Err(crate::errors::Error::UnrecognizedSection);
        }
        let sec = &self.sections[idx];
        let start = sym.sym.st_value.saturating_sub(sec.shdr.sh_addr);
        let end = start.saturating_add(sym.sym.st_size);
        if end > sec.data.len() as u64 {
            return Err(crate::errors::Error::BadSlice);
        }
        let s = start as usize;
        let e = end as usize;
        let mut out: Vec<u8> = Vec::new();
        let mut i: usize = s;
        while i < e
            invariant
                s <= i <= e,
                e <= sec.data@.len(),
                out@ == sec.data@.subrange(s as int, i as int),
            decreases e - i,
        {
            out.push(sec.data[i]);
            assert(sec.data@.subrange(s as int, i + 1) =~= sec.data@.subrange(s as int, i as int).push(
                sec.data@[i as int],
            ));
            i = i + 1;
        }
        Ok(out)
    }
}

} // verus!
