//! The `.xMAP` link map that mwldarm writes beside the ELF.

use vstd::prelude::*;
use vstd::hash_map::StringHashMap;
use crate::source_mapper::SourceMap;
use crate::text::{
    all_ws_in, is_ws, lemma_token_end, lemma_ws_run_end, lines_of, next_line, no_ws_in,
    skip_non_ws, skip_ws, str_chars, str_eq, string_from_chars,
};

verus! {

/// How the linker places a section in memory.
#[derive(PartialEq, Eq, Structural, Clone, Copy, Debug)]
pub enum SectionType {
    Code,
    Data,
    NoLoad,
    Unknown,
}

/// A symbol as the link map places it.
#[derive(Clone, Debug)]
pub struct XmapSymbol {
    /// Name of the ELF section this symbol was placed in
    pub section_name: String,
    /// How the linker places that section
    pub section_type: SectionType,
    /// Size of the symbol, in bytes
    pub size: usize,
    /// Runtime address of the symbol
    pub addr: u64,
}

impl View for XmapSymbol {
    type V = (Seq<char>, SectionType, usize, u64);

    /// (section name, section type, size, address)
    open spec fn view(&self) -> Self::V {
        (self.section_name@, self.section_type, self.size, self.addr)
    }
}

/// An upper-case hexadecimal digit.
pub open spec fn is_hex_digit(c: char) -> bool {
    ('0' <= c && c <= '9') || ('A' <= c && c <= 'F')
}

/// `l[a..b]` is all upper-case hexadecimal digits.
pub open spec fn hex_in(l: Seq<char>, a: int, b: int) -> bool {
    forall|j: int| a <= j < b ==> is_hex_digit(#[trigger] l[j])
}

/// The value of an upper-case hexadecimal digit.
pub open spec fn hex_digit_value(c: char) -> nat {
    if '0' <= c && c <= '9' {
        (c as int - '0' as int) as nat
    } else {
        (c as int - 'A' as int + 10) as nat
    }
}

/// The value of the `n` hexadecimal digits `l[a..a + n]`, most significant first.
pub open spec fn hex_value(l: Seq<char>, a: int, n: nat) -> nat
    decreases n,
{
    if n == 0 {
        0
    } else {
        hex_value(l, a, (n - 1) as nat) * 16 + hex_digit_value(l[a + n - 1])
    }
}

/// Where the fields of a link-map symbol line begin and end: the address
/// (eight digits from `addr`), the size (eight digits from `size`), the
/// section name, the symbol name, and the object file name, which runs from
/// two past `name_end` to three before the end of the line.
#[derive(Clone, Copy, Debug, PartialEq, Eq, Structural)]
pub struct XmapLineSpans {
    pub addr: usize,
    pub size: usize,
    pub section_start: usize,
    pub section_end: usize,
    pub name_start: usize,
    pub name_end: usize,
}

/// `l` is a symbol line of the link map, split as `sp` says: optional white
/// space, eight hex digits of address, white space, eight hex digits of
/// size, white space, the section name, white space, the symbol name, a tab,
/// `(`, the object name, and `.o)` to end the line; the names hold no white
/// space and are not empty. This is the grammar
/// `^\s*[0-9A-F]{8}\s+[0-9A-F]{8}\s+\S+\s+\S+\t\(\S+\.o\)$`.
pub open spec fn xmap_spans_fit(l: Seq<char>, sp: XmapLineSpans) -> bool {
    let n = l.len() as int;
    let (a, s, ss, se, ns, ne) = (
        sp.addr as int,
        sp.size as int,
        sp.section_start as int,
        sp.section_end as int,
        sp.name_start as int,
        sp.name_end as int,
    );
    &&& all_ws_in(l, 0, a)
    &&& a + 8 < s && hex_in(l, a, a + 8) && all_ws_in(l, a + 8, s)
    &&& s + 8 < ss && hex_in(l, s, s + 8) && all_ws_in(l, s + 8, ss)
    &&& ss < se && no_ws_in(l, ss, se)
    &&& se < ns && all_ws_in(l, se, ns)
    &&& ns < ne && no_ws_in(l, ns, ne)
    &&& ne + 2 < n - 3
    &&& l[ne] == '\t' && l[ne + 1] == '('
    &&& no_ws_in(l, ne + 2, n - 3)
    &&& l[n - 3] == '.' && l[n - 2] == 'o' && l[n - 1] == ')'
}

/// A line splits in at most one way.
pub proof fn lemma_xmap_spans_unique(l: Seq<char>, sp1: XmapLineSpans, sp2: XmapLineSpans)
    requires
        xmap_spans_fit(l, sp1),
        xmap_spans_fit(l, sp2),
    ensures
        sp1 == sp2,
{
    assert(is_hex_digit(l[sp1.addr as int]));
    assert(is_hex_digit(l[sp2.addr as int]));
    lemma_ws_run_end(l, 0, sp1.addr as int, sp2.addr as int);
    assert(is_hex_digit(l[sp1.size as int]));
    assert(is_hex_digit(l[sp2.size as int]));
    lemma_ws_run_end(l, sp1.addr + 8, sp1.size as int, sp2.size as int);
    assert(!is_ws(l[sp1.section_start as int]));
    assert(!is_ws(l[sp2.section_start as int]));
    lemma_ws_run_end(l, sp1.size + 8, sp1.section_start as int, sp2.section_start as int);
    assert(is_ws(l[sp1.section_end as int]));
    assert(is_ws(l[sp2.section_end as int]));
    lemma_token_end(l, sp1.section_start as int, sp1.section_end as int, sp2.section_end as int);
    assert(!is_ws(l[sp1.name_start as int]));
    assert(!is_ws(l[sp2.name_start as int]));
    lemma_ws_run_end(l, sp1.section_end as int, sp1.name_start as int, sp2.name_start as int);
    lemma_token_end(l, sp1.name_start as int, sp1.name_end as int, sp2.name_end as int);
}

/// The eight characters from `a` are upper-case hexadecimal digits.
fn hex8_at(l: &[char], a: usize) -> (r: bool)
    requires
        a + 8 <= l.len(),
    ensures
        r == hex_in(l@, a as int, a + 8),
{
    let end = a + 8;
    let mut k: usize = a;
    while k < end
        invariant
            end == a + 8,
            a <= k <= end,
            end <= l@.len(),
            hex_in(l@, a as int, k as int),
        decreases end - k,
    {
        let c = l[k];
        if !(('0' <= c && c <= '9') || ('A' <= c && c <= 'F')) {
            return false;
        }
        k = k + 1;
    }
    true
}

/// Sixteen to the power `n`.
pub open spec fn pow16(n: nat) -> nat
    decreases n,
{
    if n == 0 {
        1
    } else {
        16 * pow16((n - 1) as nat)
    }
}

proof fn lemma_pow16_small(n: nat)
    requires
        n <= 8,
    ensures
        pow16(n) <= 0x1_0000_0000,
        n == 8 ==> pow16(n) == 0x1_0000_0000,
{
    reveal_with_fuel(pow16, 9);
    if n == 0 {
    } else if n == 1 {
    } else if n == 2 {
    } else if n == 3 {
    } else if n == 4 {
    } else if n == 5 {
    } else if n == 6 {
    } else if n == 7 {
    } else {
    }
}

/// The value of the eight hexadecimal digits from `a`.
fn hex8_value(l: &[char], a: usize) -> (r: u64)
    requires
        a + 8 <= l.len(),
        hex_in(l@, a as int, a + 8),
    ensures
        r == hex_value(l@, a as int, 8),
        r < 0x1_0000_0000,
{
    let mut v: u64 = 0;
    let mut i: usize = 0;
    while i < 8
        invariant
            i <= 8,
            a + 8 <= l.len(),
            hex_in(l@, a as int, a + 8),
            v == hex_value(l@, a as int, i as nat),
            v < pow16(i as nat),
        decreases 8 - i,
    {
        proof {
            lemma_pow16_small(i as nat);
        }
        let c = l[a + i];
        assert(is_hex_digit(l@[a + i]));
        let d: u64 = if '0' <= c && c <= '9' {
            (c as u64) - ('0' as u64)
        } else {
            (c as u64) - ('A' as u64) + 10
        };
        assert(d == hex_digit_value(c));
        assert(d < 16);
        v = v * 16 + d;
        i = i + 1;
    }
    proof {
        lemma_pow16_small(8);
    }
    v
}

/// Matches a line of the link map against the symbol-line grammar.
pub fn match_xmap_line(l: &[char]) -> (r: Option<XmapLineSpans>)
    ensures
        match r {
            Some(sp) => xmap_spans_fit(l@, sp),
            None => forall|sp: XmapLineSpans| !xmap_spans_fit(l@, sp),
        },
{
    let ghost has = exists|sp: XmapLineSpans| xmap_spans_fit(l@, sp);
    let ghost w = choose|sp: XmapLineSpans| xmap_spans_fit(l@, sp);
    let n = l.len();
    let a = skip_ws(l, 0);
    proof {
        if has {
            assert(is_hex_digit(l@[w.addr as int]));
            lemma_ws_run_end(l@, 0, a as int, w.addr as int);
        }
    }
    if n - a < 8 || !hex8_at(l, a) {
        return None;
    }
    let p = a + 8;
    let s = skip_ws(l, p);
    proof {
        if has {
            assert(is_hex_digit(l@[w.size as int]));
            lemma_ws_run_end(l@, p as int, s as int, w.size as int);
        }
    }
    if s == p || n - s < 8 || !hex8_at(l, s) {
        return None;
    }
    let q = s + 8;
    let ss = skip_ws(l, q);
    proof {
        if has {
            assert(!is_ws(l@[w.section_start as int]));
            lemma_ws_run_end(l@, q as int, ss as int, w.section_start as int);
        }
    }
    if ss == q || ss == n {
        return None;
    }
    let se = skip_non_ws(l, ss);
    proof {
        if has {
            assert(is_ws(l@[w.section_end as int]));
            lemma_token_end(l@, ss as int, se as int, w.section_end as int);
        }
    }
    let ns = skip_ws(l, se);
    proof {
        if has {
            assert(!is_ws(l@[w.name_start as int]));
            lemma_ws_run_end(l@, se as int, ns as int, w.name_start as int);
        }
    }
    if ns == se || ns == n {
        return None;
    }
    let ne = skip_non_ws(l, ns);
    proof {
        if has {
            assert(is_ws(l@[w.name_end as int]));
            lemma_token_end(l@, ns as int, ne as int, w.name_end as int);
        }
    }
    if n < 6 || ne > n - 6 || l[ne] != '\t' || l[ne + 1] != '(' {
        return None;
    }
    if l[n - 3] != '.' || l[n - 2] != 'o' || l[n - 1] != ')' {
        return None;
    }
    let of_end = skip_non_ws(l, ne + 2);
    if of_end < n - 3 {
        proof {
            if has {
                assert(!is_ws(l@[of_end as int]));
            }
        }
        return None;
    }
    Some(
        XmapLineSpans {
            addr: a,
            size: s,
            section_start: ss,
            section_end: se,
            name_start: ns,
            name_end: ne,
        },
    )
}

/// A key of the link map: (source subpath, is C, symbol name).
pub type XmapKey = (Seq<char>, bool, Seq<char>);

/// What the link map says of a symbol: (section name, section type, size, address).
pub type XmapValue = (Seq<char>, SectionType, usize, u64);

/// What a line of the link map contributes, given the source map `sm` from
/// object stem to (subpath, is C): nothing, unless the line is a symbol line
/// whose size is not zero and whose object the source map knows; then the
/// symbol keyed by its object's subpath and language and by its name, with
/// its section, the type of that section, its size and its address.
pub open spec fn xmap_line_entry(l: Seq<char>, sm: Map<Seq<char>, (Seq<char>, bool)>) -> Option<
    (XmapKey, XmapValue),
> {
    if exists|sp: XmapLineSpans| xmap_spans_fit(l, sp) {
        let sp = choose|sp: XmapLineSpans| xmap_spans_fit(l, sp);
        let size = hex_value(l, sp.size as int, 8);
        let addr = hex_value(l, sp.addr as int, 8);
        let section = l.subrange(sp.section_start as int, sp.section_end as int);
        let name = l.subrange(sp.name_start as int, sp.name_end as int);
        let ofile = l.subrange(sp.name_end + 2, l.len() - 3);
        if size == 0 || !sm.contains_key(ofile) {
            None
        } else {
            Some(
                (
                    (sm[ofile].0, sm[ofile].1, name),
                    (section, section_type_of(section), size as usize, addr as u64),
                ),
            )
        }
    } else {
        None
    }
}

/// The symbol that the last of `lines` to mention `key` gives it.
pub open spec fn xmap_lookup(
    lines: Seq<Seq<char>>,
    sm: Map<Seq<char>, (Seq<char>, bool)>,
    key: XmapKey,
) -> Option<XmapValue>
    decreases lines.len(),
{
    if lines.len() == 0 {
        None
    } else {
        match xmap_line_entry(lines.last(), sm) {
            Some(e) => if e.0 == key {
                Some(e.1)
            } else {
                xmap_lookup(lines.drop_last(), sm, key)
            },
            None => xmap_lookup(lines.drop_last(), sm, key),
        }
    }
}

proof fn lemma_hex_value_bound(l: Seq<char>, a: int, n: nat)
    requires
        hex_in(l, a, a + n),
    ensures
        hex_value(l, a, n) < pow16(n),
    decreases n,
{
    if n > 0 {
        lemma_hex_value_bound(l, a, (n - 1) as nat);
        assert(is_hex_digit(l[a + n - 1]));
    }
}

/// What a symbol line of the link map files.
proof fn lemma_line_entry_well_formed(l: Seq<char>, sm: Map<Seq<char>, (Seq<char>, bool)>)
    ensures
        xmap_line_entry(l, sm) matches Some(e) ==> {
            &&& 0 < e.1.2 <= 0xFFFF_FFFF
            &&& e.1.3 <= 0xFFFF_FFFF
            &&& e.1.1 == section_type_of(e.1.0)
            &&& exists|stem: Seq<char>| #[trigger]
                sm.contains_key(stem) && sm[stem] == (e.0.0, e.0.1)
            &&& e.0.2.len() > 0
            &&& no_ws_in(e.0.2, 0, e.0.2.len() as int)
        },
{
    if exists|sp: XmapLineSpans| xmap_spans_fit(l, sp) {
        let sp = choose|sp: XmapLineSpans| xmap_spans_fit(l, sp);
        lemma_hex_value_bound(l, sp.size as int, 8);
        lemma_hex_value_bound(l, sp.addr as int, 8);
        lemma_pow16_small(8);
        let ofile = l.subrange(sp.name_end + 2, l.len() - 3);
        let name = l.subrange(sp.name_start as int, sp.name_end as int);
        if sm.contains_key(ofile) {
            assert(sm.contains_key(ofile) && sm[ofile] == (sm[ofile].0, sm[ofile].1));
        }
        assert forall|j: int| 0 <= j < name.len() implies !is_ws(#[trigger] name[j]) by {
            assert(name[j] == l[sp.name_start + j]);
        }
    }
}

/// Every symbol that the link map files has a size from 1 to `0xFFFF_FFFF`,
/// an address of at most `0xFFFF_FFFF` and the type that its section's name
/// gives; it is filed under the subpath and language of an object that the
/// source map knows, and under a name that is not empty and holds no white
/// space.
pub proof fn lemma_filed_symbols_are_well_formed(
    lines: Seq<Seq<char>>,
    sm: Map<Seq<char>, (Seq<char>, bool)>,
    key: XmapKey,
)
    requires
        xmap_lookup(lines, sm, key) is Some,
    ensures
        ({
            let v = xmap_lookup(lines, sm, key)->0;
            &&& 0 < v.2 <= 0xFFFF_FFFF
            &&& v.3 <= 0xFFFF_FFFF
            &&& v.1 == section_type_of(v.0)
            &&& exists|stem: Seq<char>| #[trigger]
                sm.contains_key(stem) && sm[stem] == (key.0, key.1)
            &&& key.2.len() > 0
            &&& no_ws_in(key.2, 0, key.2.len() as int)
        }),
    decreases lines.len(),
{
    lemma_line_entry_well_formed(lines.last(), sm);
    match xmap_line_entry(lines.last(), sm) {
        Some(e) => if e.0 != key {
            lemma_filed_symbols_are_well_formed(lines.drop_last(), sm, key);
        },
        None => {
            lemma_filed_symbols_are_well_formed(lines.drop_last(), sm, key);
        },
    }
}

/// The string under which a symbol is filed: its name, a line feed, `c` or
/// `s` for the language, then the subpath.
pub open spec fn xmap_key_string(key: XmapKey) -> Seq<char> {
    key.2 + seq!['\n', if key.1 { 'c' } else { 's' }] + key.0
}

proof fn lemma_xmap_key_injective(k1: XmapKey, k2: XmapKey)
    requires
        no_ws_in(k1.2, 0, k1.2.len() as int),
        no_ws_in(k2.2, 0, k2.2.len() as int),
        xmap_key_string(k1) == xmap_key_string(k2),
    ensures
        k1 == k2,
{
    let s = xmap_key_string(k1);
    let n1 = k1.2.len() as int;
    let n2 = k2.2.len() as int;
    if n1 < n2 {
        assert(s[n1] == '\n');
        assert(xmap_key_string(k2)[n1] == k2.2[n1]);
    } else if n2 < n1 {
        assert(xmap_key_string(k2)[n2] == '\n');
        assert(s[n2] == k1.2[n2]);
    } else {
        assert(k1.2 =~= s.take(n1));
        assert(k2.2 =~= xmap_key_string(k2).take(n1));
        assert(s[n1 + 1] == if k1.1 { 'c' } else { 's' });
        assert(xmap_key_string(k2)[n1 + 1] == if k2.1 { 'c' } else { 's' });
        assert(k1.0 =~= s.skip(n1 + 2));
        assert(k2.0 =~= xmap_key_string(k2).skip(n1 + 2));
    }
}

/// What a table filed by `xmap_key_string` holds for `key`.
spec fn lookup_in(m: Map<Seq<char>, XmapSymbol>, key: XmapKey) -> Option<XmapValue> {
    if no_ws_in(key.2, 0, key.2.len() as int) && m.contains_key(xmap_key_string(key)) {
        Some(m[xmap_key_string(key)]@)
    } else {
        None
    }
}

/// The section names, in line order, of the lines that `xmap_line_entry`
/// files under a section of unknown type.
pub open spec fn xmap_unmapped(
    lines: Seq<Seq<char>>,
    sm: Map<Seq<char>, (Seq<char>, bool)>,
) -> Seq<Seq<char>>
    decreases lines.len(),
{
    if lines.len() == 0 {
        Seq::empty()
    } else {
        let prev = xmap_unmapped(lines.drop_last(), sm);
        match xmap_line_entry(lines.last(), sm) {
            Some(e) => if e.1.1 == SectionType::Unknown {
                prev.push(e.1.0)
            } else {
                prev
            },
            None => prev,
        }
    }
}

/// The symbols of a link map, filed by object and name, and the names of
/// the sections of unknown type that its filed lines mention.
pub struct XmapFile {
    symbols: StringHashMap<XmapSymbol>,
    unmapped: Vec<String>,
}

impl XmapFile {
    /// The names of the sections of unknown type, one per filed line that
    /// names one, in line order.
    pub closed spec fn unmapped_view(&self) -> Seq<Seq<char>> {
        self.unmapped@.map_values(|s: String| s@)
    }

    /// The names of the sections of unknown type that the filed lines name.
    pub fn unmapped_sections(&self) -> (r: &[String])
        ensures
            r@.map_values(|s: String| s@) == self.unmapped_view(),
    {
        self.unmapped.as_slice()
    }

    /// What the map holds for `key`; a name with white space is never found.
    pub closed spec fn lookup(&self, key: XmapKey) -> Option<XmapValue> {
        lookup_in(self.symbols@, key)
    }

    /// The symbol filed under `subpath`, `is_cfile` and `name`.
    pub fn get(&self, subpath: &str, is_cfile: bool, name: &str) -> (r: Option<&XmapSymbol>)
        ensures
            match r {
                Some(v) => self.lookup((subpath@, is_cfile, name@)) == Some(v@),
                None => self.lookup((subpath@, is_cfile, name@)) is None,
            },
    {
        let name_chars = str_chars(name);
        let end = skip_non_ws(name_chars.as_slice(), 0);
        if end < name_chars.len() {
            return None;
        }
        let key = key_string(subpath, is_cfile, name);
        self.symbols.get(key.as_str())
    }
}

/// The string under which a symbol is filed.
fn key_string(subpath: &str, is_cfile: bool, name: &str) -> (r: String)
    ensures
        r@ == xmap_key_string((subpath@, is_cfile, name@)),
{
    let mut k = str_chars(name);
    k.push('\n');
    k.push(
        if is_cfile {
            'c'
        } else {
            's'
        },
    );
    let sub = str_chars(subpath);
    let mut i: usize = 0;
    let ghost base = k@;
    while i < sub.len()
        invariant
            i <= sub@.len(),
            k@ == base + sub@.take(i as int),
        decreases sub.len() - i,
    {
        k.push(sub[i]);
        assert(sub@.take(i + 1) =~= sub@.take(i as int).push(sub@[i as int]));
        i = i + 1;
    }
    assert(sub@.take(sub@.len() as int) =~= sub@);
    assert(k@ =~= xmap_key_string((subpath@, is_cfile, name@)));
    string_from_chars(k.as_slice())
}

/// Parses the text of an mwldarm `.xMAP` link map. Each symbol line whose
/// size is not zero and whose object file `source_map` knows files the
/// symbol under (its object's subpath, whether
/// that is C, its name), with its section and that section's type; a later
/// line for the same key replaces an earlier. The sections of unknown type
/// that filed lines name are listed in line order.
pub fn parse_xmap(text: &str, source_map: &SourceMap) -> (r: XmapFile)
    requires
        source_map.wf(),
    ensures
        r.unmapped_view() == xmap_unmapped(lines_of(text@), source_map@),
        forall|key: XmapKey| #[trigger]
            r.lookup(key) == if no_ws_in(key.2, 0, key.2.len() as int) {
                xmap_lookup(lines_of(text@), source_map@, key)
            } else {
                None
            },
{
    let chars = str_chars(text);
    let mut symbols: StringHashMap<XmapSymbol> = StringHashMap::new();
    let mut unmapped: Vec<String> = Vec::new();
    let mut pos: usize = 0;
    let ghost mut done: Seq<Seq<char>> = Seq::empty();
    assert(chars@.skip(0) =~= chars@);
    assert(done + lines_of(chars@) =~= lines_of(chars@));
    while pos < chars.len()
        invariant
            pos <= chars@.len(),
            chars@ == text@,
            source_map.wf(),
            lines_of(chars@) == done + lines_of(chars@.skip(pos as int)),
            forall|key: XmapKey|
                no_ws_in(key.2, 0, key.2.len() as int) ==> #[trigger] lookup_in(symbols@, key)
                    == xmap_lookup(done, source_map@, key),
            unmapped@.map_values(|s: String| s@) == xmap_unmapped(done, source_map@),
        decreases chars.len() - pos,
    {
        let (end, next) = next_line(chars.as_slice(), pos);
        let line = &chars[pos..end];
        let ghost l = line@;
        let ghost old_symbols = symbols@;
        let ghost old_unmapped = unmapped@.map_values(|s: String| s@);
        let ghost entry = xmap_line_entry(l, source_map@);
        let ghost mut inserted: Option<(XmapKey, XmapValue)> = None;
        match match_xmap_line(line) {
            None => {
                assert(entry is None);
            },
            Some(sp) => {
                proof {
                    lemma_xmap_spans_unique(l, sp, choose|w: XmapLineSpans| xmap_spans_fit(l, w));
                }
                let size_v = hex8_value(line, sp.size);
                let addr_v = hex8_value(line, sp.addr);
                if size_v == 0 {
                    assert(entry is None);
                } else {
                    let ofile = string_from_chars(&line[sp.name_end + 2..line.len() - 3]);
                    assert(ofile@ =~= l.subrange(sp.name_end + 2, l.len() - 3));
                    match source_map.get(ofile.as_str()) {
                        None => {
                            assert(entry is None);
                        },
                        Some(entry_src) => {
                            let section = string_from_chars(
                                &line[sp.section_start..sp.section_end],
                            );
                            let t = SectionType::from_name(section.as_str());
                            assert(section@ =~= l.subrange(
                                sp.section_start as int,
                                sp.section_end as int,
                            ));
                            let name = string_from_chars(&line[sp.name_start..sp.name_end]);
                            let key = key_string(
                                entry_src.subpath.as_str(),
                                entry_src.is_cfile,
                                name.as_str(),
                            );
                            if t == SectionType::Unknown {
                                unmapped.push(section.clone());
                            }
                            let sym = XmapSymbol {
                                section_name: section,
                                section_type: t,
                                size: size_v as usize,
                                addr: addr_v,
                            };
                            symbols.insert(key, sym);
                            proof {
                                let k0: XmapKey = (entry_src.subpath@, entry_src.is_cfile, name@);
                                assert(name@ =~= l.subrange(
                                    sp.name_start as int,
                                    sp.name_end as int,
                                ));
                                inserted = Some((k0, sym@));
                                assert(entry == inserted);
                                assert(no_ws_in(name@, 0, name@.len() as int));
                                assert forall|key: XmapKey|
                                    no_ws_in(key.2, 0, key.2.len() as int) && key != k0 implies
                                    xmap_key_string(key) != xmap_key_string(k0) by {
                                    if xmap_key_string(key) == xmap_key_string(k0) {
                                        lemma_xmap_key_injective(key, k0);
                                    }
                                }
                            }
                        },
                    }
                }
            },
        }
        proof {
            assert((done.push(l)).drop_last() =~= done);
            assert(done.push(l).last() == l);
            assert forall|key: XmapKey|
                no_ws_in(key.2, 0, key.2.len() as int) implies #[trigger] lookup_in(symbols@, key)
                == xmap_lookup(done.push(l), source_map@, key) by {
                assert(lookup_in(old_symbols, key) == xmap_lookup(done, source_map@, key));
                if let Some(e) = inserted {
                    if key != e.0 {
                        assert(xmap_key_string(key) != xmap_key_string(e.0));
                    }
                }
            }
            assert(lines_of(chars@.skip(pos as int)) == seq![l] + lines_of(chars@.skip(next as int)));
            assert(done + (seq![l] + lines_of(chars@.skip(next as int))) =~= done.push(l) + lines_of(
                chars@.skip(next as int),
            ));
            assert(unmapped@.map_values(|s: String| s@) =~= match entry {
                Some(e) => if e.1.1 == SectionType::Unknown {
                    old_unmapped.push(e.1.0)
                } else {
                    old_unmapped
                },
                None => old_unmapped,
            });
            done = done.push(l);
        }
        pos = next;
    }
    proof {
        assert(chars@.skip(pos as int) =~= Seq::<char>::empty());
        assert(done + Seq::<Seq<char>>::empty() =~= done);
    }
    let r = XmapFile { symbols, unmapped };
    assert forall|key: XmapKey| #[trigger]
        r.lookup(key) == if no_ws_in(key.2, 0, key.2.len() as int) {
            xmap_lookup(lines_of(text@), source_map@, key)
        } else {
            None
        } by {
        if no_ws_in(key.2, 0, key.2.len() as int) {
            assert(lookup_in(r.symbols@, key) == xmap_lookup(done, source_map@, key));
        }
    }
    r
}

/// The section names that hold code.
pub open spec fn is_code_section_name(name: Seq<char>) -> bool {
    ||| name == seq!['.', 't', 'e', 'x', 't']
    ||| name == seq!['.', 'i', 'n', 'i', 't']
    ||| name == seq!['.', 'i', 't', 'c', 'm']
    ||| name == seq!['.', 's', 'i', 'n', 'i', 't']
    ||| name == seq!['.', 'w', 'r', 'a', 'm']
}

/// The section names that hold data.
pub open spec fn is_data_section_name(name: Seq<char>) -> bool {
    ||| name == seq!['.', 'd', 'a', 't', 'a']
    ||| name == seq!['.', 'r', 'o', 'd', 'a', 't', 'a']
    ||| name == seq!['.', 's', 'd', 'a', 't', 'a']
    ||| name == seq!['.', 'd', 't', 'c', 'm']
    ||| name == seq!['.', 'e', 'x', 'c', 'e', 'p', 't', 'i', 'o', 'n']
    ||| name == seq!['.', 'v', 'e', 'r', 's', 'i', 'o', 'n']
}

/// The section names that are not loaded from the ROM.
pub open spec fn is_noload_section_name(name: Seq<char>) -> bool {
    ||| name == seq!['.', 'b', 's', 's']
    ||| name == seq!['.', 'd', 't', 'c', 'm', '.', 'b', 's', 's']
}

/// The type of the section called `name`.
pub open spec fn section_type_of(name: Seq<char>) -> SectionType {
    if is_code_section_name(name) {
        SectionType::Code
    } else if is_data_section_name(name) {
        SectionType::Data
    } else if is_noload_section_name(name) {
        SectionType::NoLoad
    } else {
        SectionType::Unknown
    }
}

/// The word that names a section type.
pub open spec fn section_type_str(t: SectionType) -> Seq<char> {
    match t {
        SectionType::Code => seq!['c', 'o', 'd', 'e'],
        SectionType::Data => seq!['d', 'a', 't', 'a'],
        SectionType::NoLoad => seq!['n', 'o', 'l', 'o', 'a', 'd'],
        SectionType::Unknown => seq!['u', 'n', 'k', 'n', 'o', 'w', 'n'],
    }
}

impl SectionType {
    /// Classifies a section by its name.
    pub fn from_name(name: &str) -> (r: SectionType)
        ensures
            r == section_type_of(name@),
    {
        proof {
            reveal_strlit(".text");
            reveal_strlit(".init");
            reveal_strlit(".itcm");
            reveal_strlit(".sinit");
            reveal_strlit(".wram");
            reveal_strlit(".data");
            reveal_strlit(".rodata");
            reveal_strlit(".sdata");
            reveal_strlit(".dtcm");
            reveal_strlit(".exception");
            reveal_strlit(".version");
            reveal_strlit(".bss");
            reveal_strlit(".dtcm.bss");
            assert(".text"@ =~= seq!['.', 't', 'e', 'x', 't']);
            assert(".init"@ =~= seq!['.', 'i', 'n', 'i', 't']);
            assert(".itcm"@ =~= seq!['.', 'i', 't', 'c', 'm']);
            assert(".sinit"@ =~= seq!['.', 's', 'i', 'n', 'i', 't']);
            assert(".wram"@ =~= seq!['.', 'w', 'r', 'a', 'm']);
            assert(".data"@ =~= seq!['.', 'd', 'a', 't', 'a']);
            assert(".rodata"@ =~= seq!['.', 'r', 'o', 'd', 'a', 't', 'a']);
            assert(".sdata"@ =~= seq!['.', 's', 'd', 'a', 't', 'a']);
            assert(".dtcm"@ =~= seq!['.', 'd', 't', 'c', 'm']);
            assert(".exception"@ =~= seq!['.', 'e', 'x', 'c', 'e', 'p', 't', 'i', 'o', 'n']);
            assert(".version"@ =~= seq!['.', 'v', 'e', 'r', 's', 'i', 'o', 'n']);
            assert(".bss"@ =~= seq!['.', 'b', 's', 's']);
            assert(".dtcm.bss"@ =~= seq!['.', 'd', 't', 'c', 'm', '.', 'b', 's', 's']);
        }
        if str_eq(name, ".text") || str_eq(name, ".init") || str_eq(name, ".itcm") || str_eq(
            name,
            ".sinit",
        ) || str_eq(name, ".wram") {
            SectionType::Code
        } else if str_eq(name, ".data") || str_eq(name, ".rodata") || str_eq(name, ".sdata")
            || str_eq(name, ".dtcm") || str_eq(name, ".exception") || str_eq(name, ".version") {
            SectionType::Data
        } else if str_eq(name, ".bss") || str_eq(name, ".dtcm.bss") {
            SectionType::NoLoad
        } else {
            SectionType::Unknown
        }
    }

    /// The word that names this section type.
    pub fn to_str(&self) -> (r: &'static str)
        ensures
            r@ == section_type_str(*self),
    {
        proof {
            reveal_strlit("code");
            reveal_strlit("data");
            reveal_strlit("noload");
            reveal_strlit("unknown");
        }
        match self {
            SectionType::Code => {
                assert("code"@ =~= seq!['c', 'o', 'd', 'e']);
                "code"
            },
            SectionType::Data => {
                assert("data"@ =~= seq!['d', 'a', 't', 'a']);
                "data"
            },
            SectionType::NoLoad => {
                assert("noload"@ =~= seq!['n', 'o', 'l', 'o', 'a', 'd']);
                "noload"
            },
            SectionType::Unknown => {
                assert("unknown"@ =~= seq!['u', 'n', 'k', 'n', 'o', 'w', 'n']);
                "unknown"
            },
        }
    }
}

} // verus!
