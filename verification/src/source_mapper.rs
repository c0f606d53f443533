//! Which source file, C or assembly, each linked object comes from.

use vstd::prelude::*;
use vstd::hash_map::StringHashMap;
use crate::errors::Error;
use crate::text::{
    all_ws_in, is_ws, last_index_of, lemma_token_end, lemma_ws_run_end, lines_of, next_line,
    no_ws_in, remove_all, remove_all_of, rfind_char, skip_non_ws, skip_ws, str_chars,
    string_from_chars,
};

verus! {

/// One object of the link: its stem, the path of its source relative to the
/// source root (without extension), and whether that source is C.
#[derive(Clone, Debug)]
pub struct SourceEntry {
    pub stem: String,
    pub subpath: String,
    pub is_cfile: bool,
}

/// The last component of a `/`-separated path.
pub open spec fn stem_of(path: Seq<char>) -> Seq<char> {
    path.skip(last_index_of(path, '/') + 1)
}

/// The map from stem to (subpath, is C) that a list of entries gives.
pub open spec fn entries_map(ev: Seq<(Seq<char>, Seq<char>, bool)>) -> Map<
    Seq<char>,
    (Seq<char>, bool),
> {
    Map::new(
        |k: Seq<char>| exists|i: int| 0 <= i < ev.len() && #[trigger] ev[i].0 == k,
        |k: Seq<char>|
            {
                let i = choose|i: int| 0 <= i < ev.len() && #[trigger] ev[i].0 == k;
                (ev[i].1, ev[i].2)
            },
    )
}

/// No stem occurs twice among the entries.
pub open spec fn unique_stems(ev: Seq<(Seq<char>, Seq<char>, bool)>) -> bool {
    forall|i: int, j: int| 0 <= i < j < ev.len() ==> #[trigger] ev[i].0 != #[trigger] ev[j].0
}

/// Recording an object is a write to the map from stem to (subpath, is C):
/// afterwards its stem gives what was recorded, every other stem gives what
/// it gave before, and stems stay unique.
pub proof fn lemma_add_entry_map(ev: Seq<(Seq<char>, Seq<char>, bool)>, e: (Seq<char>, Seq<char>, bool))
    requires
        unique_stems(ev),
    ensures
        entries_map(add_entry(ev, e)) == entries_map(ev).insert(e.0, (e.1, e.2)),
        unique_stems(add_entry(ev, e)),
{
    let nv = add_entry(ev, e);
    if exists|i: int| 0 <= i < ev.len() && #[trigger] ev[i].0 == e.0 {
        let i0 = choose|i: int| 0 <= i < ev.len() && #[trigger] ev[i].0 == e.0;
        assert(nv == ev.update(i0, e));
        assert forall|a: int, b: int| 0 <= a < b < nv.len() implies #[trigger] nv[a].0
            != #[trigger] nv[b].0 by {
            assert(ev[a].0 != ev[b].0);
        }
        assert forall|k: Seq<char>| #[trigger] entries_map(nv).contains_key(k) <==> entries_map(
            ev,
        ).insert(e.0, (e.1, e.2)).contains_key(k) by {
            if entries_map(nv).contains_key(k) {
                let j = choose|j: int| 0 <= j < nv.len() && #[trigger] nv[j].0 == k;
                if j != i0 {
                    assert(ev[j].0 == k);
                }
            }
            if entries_map(ev).contains_key(k) {
                let j = choose|j: int| 0 <= j < ev.len() && #[trigger] ev[j].0 == k;
                if j != i0 {
                    assert(nv[j].0 == k);
                } else {
                    assert(nv[i0].0 == k);
                }
            }
            if k == e.0 {
                assert(nv[i0].0 == k);
            }
        }
        assert forall|k: Seq<char>| #[trigger] entries_map(nv).contains_key(k) implies entries_map(
            nv,
        )[k] == entries_map(ev).insert(e.0, (e.1, e.2))[k] by {
            let j = choose|j: int| 0 <= j < nv.len() && #[trigger] nv[j].0 == k;
            if k == e.0 {
                assert(nv[i0].0 == k);
                if j != i0 {
                    if j < i0 {
                        assert(nv[j].0 != nv[i0].0);
                    } else {
                        assert(nv[i0].0 != nv[j].0);
                    }
                }
            } else {
                assert(j != i0);
                assert(ev[j].0 == k);
                let j2 = choose|j2: int| 0 <= j2 < ev.len() && #[trigger] ev[j2].0 == k;
                if j2 != j {
                    if j2 < j {
                        assert(ev[j2].0 != ev[j].0);
                    } else {
                        assert(ev[j].0 != ev[j2].0);
                    }
                }
            }
        }
        assert(entries_map(nv) =~= entries_map(ev).insert(e.0, (e.1, e.2)));
    } else {
        assert(nv == ev.push(e));
        assert forall|a: int, b: int| 0 <= a < b < nv.len() implies #[trigger] nv[a].0
            != #[trigger] nv[b].0 by {
            if b < ev.len() {
                assert(ev[a].0 != ev[b].0);
            } else {
                assert(nv[b].0 == e.0);
                assert(ev[a].0 == nv[a].0);
            }
        }
        assert forall|k: Seq<char>| #[trigger] entries_map(nv).contains_key(k) <==> entries_map(
            ev,
        ).insert(e.0, (e.1, e.2)).contains_key(k) by {
            if entries_map(nv).contains_key(k) {
                let j = choose|j: int| 0 <= j < nv.len() && #[trigger] nv[j].0 == k;
                if j < ev.len() {
                    assert(ev[j].0 == k);
                }
            }
            if entries_map(ev).contains_key(k) {
                let j = choose|j: int| 0 <= j < ev.len() && #[trigger] ev[j].0 == k;
                assert(nv[j].0 == k);
            }
            if k == e.0 {
                assert(nv[ev.len() as int].0 == k);
            }
        }
        assert forall|k: Seq<char>| #[trigger] entries_map(nv).contains_key(k) implies entries_map(
            nv,
        )[k] == entries_map(ev).insert(e.0, (e.1, e.2))[k] by {
            let j = choose|j: int| 0 <= j < nv.len() && #[trigger] nv[j].0 == k;
            if k == e.0 {
                if j < ev.len() {
                    assert(ev[j].0 == e.0);
                }
            } else {
                assert(j < ev.len());
                assert(ev[j].0 == k);
                let j2 = choose|j2: int| 0 <= j2 < ev.len() && #[trigger] ev[j2].0 == k;
                if j2 != j {
                    if j2 < j {
                        assert(ev[j2].0 != ev[j].0);
                    } else {
                        assert(ev[j].0 != ev[j2].0);
                    }
                }
            }
        }
        assert(entries_map(nv) =~= entries_map(ev).insert(e.0, (e.1, e.2)));
    }
}

/// `ev` with the entry of `e`'s stem replaced by `e` in place, or with `e`
/// appended where there is none.
pub open spec fn add_entry(
    ev: Seq<(Seq<char>, Seq<char>, bool)>,
    e: (Seq<char>, Seq<char>, bool),
) -> Seq<(Seq<char>, Seq<char>, bool)> {
    if exists|i: int| 0 <= i < ev.len() && #[trigger] ev[i].0 == e.0 {
        ev.update(choose|i: int| 0 <= i < ev.len() && #[trigger] ev[i].0 == e.0, e)
    } else {
        ev.push(e)
    }
}

/// Where an object line of a link spec puts `Object` and the object's name:
/// the name runs from `name_start` to `name_end`, and `.o` follows it.
#[derive(Clone, Copy, Debug, PartialEq, Eq, Structural)]
pub struct LsfLineSpans {
    pub object: usize,
    pub name_start: usize,
    pub name_end: usize,
}

/// `l` starts with an object line of the link spec, split as `sp` says:
/// optional white space, `Object`, white space, then a run without white
/// space in which the name is the longest prefix that `.o` follows. This is
/// the grammar `^\s*Object\s+(\S+)\.o` with its greedy capture; what
/// follows the match does not matter.
pub open spec fn lsf_spans_fit(l: Seq<char>, sp: LsfLineSpans) -> bool {
    let (o, ns, ne) = (sp.object as int, sp.name_start as int, sp.name_end as int);
    &&& all_ws_in(l, 0, o)
    &&& o + 6 <= l.len()
    &&& l.subrange(o, o + 6) == seq!['O', 'b', 'j', 'e', 'c', 't']
    &&& o + 6 < ns && all_ws_in(l, o + 6, ns)
    &&& ns < ne && ne + 2 <= l.len() && no_ws_in(l, ns, ne + 2)
    &&& l[ne] == '.' && l[ne + 1] == 'o'
    &&& forall|k: int|
        ne < k && k + 2 <= l.len() && no_ws_in(l, ns, k + 2) ==> !(#[trigger] l[k] == '.' && l[k
            + 1] == 'o')
}

/// A line matches in at most one way.
pub proof fn lemma_lsf_spans_unique(l: Seq<char>, sp1: LsfLineSpans, sp2: LsfLineSpans)
    requires
        lsf_spans_fit(l, sp1),
        lsf_spans_fit(l, sp2),
    ensures
        sp1 == sp2,
{
    assert(l.subrange(sp1.object as int, sp1.object + 6)[0] == 'O');
    assert(l.subrange(sp2.object as int, sp2.object + 6)[0] == 'O');
    lemma_ws_run_end(l, 0, sp1.object as int, sp2.object as int);
    assert(!is_ws(l[sp1.name_start as int]));
    assert(!is_ws(l[sp2.name_start as int]));
    lemma_ws_run_end(l, sp1.object + 6, sp1.name_start as int, sp2.name_start as int);
    if sp1.name_end < sp2.name_end {
        assert(l[sp2.name_end as int] == '.');
    } else if sp2.name_end < sp1.name_end {
        assert(l[sp1.name_end as int] == '.');
    }
}

/// The object name that a line of the link spec gives, if it is an object line.
pub open spec fn lsf_line_object(l: Seq<char>) -> Option<Seq<char>> {
    if exists|sp: LsfLineSpans| lsf_spans_fit(l, sp) {
        let sp = choose|sp: LsfLineSpans| lsf_spans_fit(l, sp);
        Some(l.subrange(sp.name_start as int, sp.name_end as int))
    } else {
        None
    }
}

/// The object names of the object lines among `lines`, in order.
pub open spec fn lsf_objects(lines: Seq<Seq<char>>) -> Seq<Seq<char>>
    decreases lines.len(),
{
    if lines.len() == 0 {
        Seq::empty()
    } else {
        match lsf_line_object(lines.last()) {
            Some(o) => lsf_objects(lines.drop_last()).push(o),
            None => lsf_objects(lines.drop_last()),
        }
    }
}

/// One line gives its object, if it is an object line, and nothing else.
pub proof fn lemma_lsf_objects_of_one(l: Seq<char>)
    ensures
        lsf_objects(seq![l]) == match lsf_line_object(l) {
            Some(o) => seq![o],
            None => Seq::<Seq<char>>::empty(),
        },
{
    reveal_with_fuel(lsf_objects, 2);
    assert(seq![l].drop_last() =~= Seq::<Seq<char>>::empty());
    assert(seq![l].last() == l);
    if let Some(o) = lsf_line_object(l) {
        assert(Seq::<Seq<char>>::empty().push(o) =~= seq![o]);
    }
}

/// The objects of the lines `a` followed by `b` are those of `a` followed by
/// those of `b`: what a line gives does not depend on the lines around it,
/// so every object line of every block of the link spec is listed.
pub proof fn lemma_lsf_objects_concat(a: Seq<Seq<char>>, b: Seq<Seq<char>>)
    ensures
        lsf_objects(a + b) == lsf_objects(a) + lsf_objects(b),
    decreases b.len(),
{
    if b.len() == 0 {
        assert(a + b =~= a);
        assert(lsf_objects(a) + Seq::<Seq<char>>::empty() =~= lsf_objects(a));
    } else {
        lemma_lsf_objects_concat(a, b.drop_last());
        assert((a + b).drop_last() =~= a + b.drop_last());
        assert((a + b).last() == b.last());
        if let Some(o) = lsf_line_object(b.last()) {
            assert((lsf_objects(a) + lsf_objects(b.drop_last())).push(o) =~= lsf_objects(a) + (
            lsf_objects(b.drop_last()).push(o)));
        }
    }
}

/// Matches a line of a link spec against the object-line grammar.
pub fn match_lsf_line(l: &[char]) -> (r: Option<LsfLineSpans>)
    ensures
        match r {
            Some(sp) => lsf_spans_fit(l@, sp),
            None => forall|sp: LsfLineSpans| !lsf_spans_fit(l@, sp),
        },
{
    let ghost has = exists|sp: LsfLineSpans| lsf_spans_fit(l@, sp);
    let ghost w = choose|sp: LsfLineSpans| lsf_spans_fit(l@, sp);
    let n = l.len();
    let o = skip_ws(l, 0);
    proof {
        if has {
            assert(l@.subrange(w.object as int, w.object + 6)[0] == 'O');
            lemma_ws_run_end(l@, 0, o as int, w.object as int);
        }
    }
    if n - o < 6 || l[o] != 'O' || l[o + 1] != 'b' || l[o + 2] != 'j' || l[o + 3] != 'e' || l[o
        + 4] != 'c' || l[o + 5] != 't' {
        proof {
            if has && n - o >= 6 {
                assert(l@.subrange(o as int, o + 6)[1] == 'b');
                assert(l@.subrange(o as int, o + 6)[2] == 'j');
                assert(l@.subrange(o as int, o + 6)[3] == 'e');
                assert(l@.subrange(o as int, o + 6)[4] == 'c');
                assert(l@.subrange(o as int, o + 6)[5] == 't');
            }
        }
        return None;
    }
    assert(l@.subrange(o as int, o + 6) =~= seq!['O', 'b', 'j', 'e', 'c', 't']);
    let p = o + 6;
    let ns = skip_ws(l, p);
    proof {
        if has {
            assert(!is_ws(l@[w.name_start as int]));
            lemma_ws_run_end(l@, p as int, ns as int, w.name_start as int);
        }
    }
    if ns == p || ns == n {
        return None;
    }
    let te = skip_non_ws(l, ns);
    proof {
        if has {
            if te < w.name_end + 2 {
                assert(!is_ws(l@[te as int]));
            }
        }
    }
    if te - ns < 3 {
        return None;
    }
    let mut k: usize = te - 2;
    while k > ns && !(l[k] == '.' && l[k + 1] == 'o')
        invariant
            n == l@.len(),
            ns < te <= n,
            ns <= k <= te - 2,
            no_ws_in(l@, ns as int, te as int),
            te < n ==> is_ws(l@[te as int]),
            forall|j: int| k < j && j + 2 <= te ==> !(#[trigger] l@[j] == '.' && l@[j + 1] == 'o'),
        decreases k,
    {
        k = k - 1;
    }
    proof {
        assert forall|j: int|
            k < j && j + 2 <= l@.len() && no_ws_in(l@, ns as int, j + 2) implies !(#[trigger] l@[j]
            == '.' && l@[j + 1] == 'o') by {
            if j + 2 > te {
                assert(!is_ws(l@[te as int]));
            }
        }
    }
    if k == ns {
        proof {
            if has {
                assert(w.name_start == ns);
                assert(l@[w.name_end as int] == '.');
            }
        }
        return None;
    }
    Some(LsfLineSpans { object: o, name_start: ns, name_end: k })
}

/// The names of the objects that the lines of a `.lsf` link spec list, in order.
pub fn parse_lsf(text: &str) -> (r: Vec<String>)
    ensures
        r@.map_values(|s: String| s@) == lsf_objects(lines_of(text@)),
{
    let chars = str_chars(text);
    let mut out: Vec<String> = Vec::new();
    let mut pos: usize = 0;
    let ghost mut done: Seq<Seq<char>> = Seq::empty();
    assert(chars@.skip(0) =~= chars@);
    assert(done + lines_of(chars@) =~= lines_of(chars@));
    while pos < chars.len()
        invariant
            pos <= chars@.len(),
            chars@ == text@,
            lines_of(chars@) == done + lines_of(chars@.skip(pos as int)),
            out@.map_values(|s: String| s@) == lsf_objects(done),
        decreases chars.len() - pos,
    {
        let (end, next) = next_line(chars.as_slice(), pos);
        let line = &chars[pos..end];
        let ghost l = line@;
        let ghost before = out@;
        assert(done.push(l).drop_last() =~= done);
        assert(done.push(l).last() == l);
        match match_lsf_line(line) {
            None => {},
            Some(sp) => {
                proof {
                    lemma_lsf_spans_unique(l, sp, choose|w: LsfLineSpans| lsf_spans_fit(l, w));
                }
                let name = string_from_chars(&line[sp.name_start..sp.name_end]);
                out.push(name);
                assert(out@.map_values(|s: String| s@) =~= before.map_values(|s: String| s@).push(
                    l.subrange(sp.name_start as int, sp.name_end as int),
                ));
            },
        }
        proof {
            assert(lines_of(chars@.skip(pos as int)) == seq![l] + lines_of(chars@.skip(next as int)));
            assert(done + (seq![l] + lines_of(chars@.skip(next as int))) =~= done.push(l) + lines_of(
                chars@.skip(next as int),
            ));
            done = done.push(l);
        }
        pos = next;
    }
    proof {
        assert(chars@.skip(pos as int) =~= Seq::<char>::empty());
        assert(done + Seq::<Seq<char>>::empty() =~= done);
    }
    out
}

/// The objects of a link, keyed by stem, in the order they were first added.
pub struct SourceMap {
    entries: Vec<SourceEntry>,
    index: StringHashMap<usize>,
}

impl SourceMap {
    /// The index knows each entry by its stem, and nothing else.
    pub closed spec fn wf(&self) -> bool {
        &&& forall|k: Seq<char>| #[trigger]
            self.index@.contains_key(k) ==> self.index@[k] < self.entries@.len()
                && self.entries@[self.index@[k] as int].stem@ == k
        &&& forall|i: int|
            0 <= i < self.entries@.len() ==> #[trigger] self.index@.contains_key(
                self.entries@[i].stem@,
            ) && self.index@[self.entries@[i].stem@] == i
    }

    /// The entries as (stem, subpath, is C), in order.
    pub closed spec fn entries_view(&self) -> Seq<(Seq<char>, Seq<char>, bool)> {
        self.entries@.map_values(|e: SourceEntry| (e.stem@, e.subpath@, e.is_cfile))
    }

    /// The map from stem to (subpath, is C).
    pub open spec fn view(&self) -> Map<Seq<char>, (Seq<char>, bool)> {
        entries_map(self.entries_view())
    }

    /// Stems occur at most once among the entries.
    pub open spec fn stems_unique(&self) -> bool {
        unique_stems(self.entries_view())
    }

    proof fn lemma_wf_unique(&self)
        requires
            self.wf(),
        ensures
            self.stems_unique(),
    {
        assert forall|i: int, j: int|
            0 <= i < j < self.entries_view().len() implies #[trigger] self.entries_view()[i].0
            != #[trigger] self.entries_view()[j].0 by {
            assert(self.index@.contains_key(self.entries@[i].stem@));
            assert(self.index@.contains_key(self.entries@[j].stem@));
            assert(self.index@[self.entries@[i].stem@] == i);
            assert(self.index@[self.entries@[j].stem@] == j);
        }
    }

    /// Records the object whose path is `source_o_path` (the `.o` path without
    /// extension), whose sources exist as `.c` (`is_c_file`) and/or `.s`
    /// (`is_asm_file`). Its stem is the last path component; its source path
    /// is `source_o_path` with every occurrence of `root_prefix` taken out.
    /// Fails, changing nothing, where the path has no `/`, where both sources
    /// exist, or where an object of the same stem was recorded with the other
    /// source language.
    pub fn add_object(
        &mut self,
        source_o_path: &str,
        root_prefix: &str,
        is_c_file: bool,
        is_asm_file: bool,
    ) -> (r: Result<(), Error>)
        requires
            old(self).wf(),
        ensures
            final(self).wf(),
            last_index_of(source_o_path@, '/') < 0 ==> r == Err::<(), Error>(Error::NoSlashInPath),
            last_index_of(source_o_path@, '/') >= 0 && is_c_file && is_asm_file ==> (r matches Err(
                Error::BothCAndAsm(s),
            ) && s@ == stem_of(source_o_path@)),
            last_index_of(source_o_path@, '/') >= 0 && !(is_c_file && is_asm_file) && old(
                self,
            )@.contains_key(stem_of(source_o_path@)) && old(self)@[stem_of(source_o_path@)].1
                != is_c_file ==> (r matches Err(Error::ConflictingSourceTypes(s)) && s@ == stem_of(
                source_o_path@,
            )),
            r is Err ==> final(self).entries_view() == old(self).entries_view(),
            r is Ok <==> last_index_of(source_o_path@, '/') >= 0 && !(is_c_file && is_asm_file) && !(
            old(self)@.contains_key(stem_of(source_o_path@)) && old(self)@[stem_of(
                source_o_path@,
            )].1 != is_c_file),
            r is Ok ==> final(self)@ == old(self)@.insert(
                stem_of(source_o_path@),
                (remove_all(source_o_path@, root_prefix@), is_c_file),
            ),
            r is Ok ==> final(self).entries_view() == add_entry(
                old(self).entries_view(),
                (stem_of(source_o_path@), remove_all(source_o_path@, root_prefix@), is_c_file),
            ),
    {
        let path = str_chars(source_o_path);
        let slash = match rfind_char(path.as_slice(), '/') {
            Some(k) => k,
            None => {
                return Err(Error::NoSlashInPath);
            },
        };
        let stem_chars = &path[slash + 1..path.len()];
        assert(stem_chars@ =~= stem_of(source_o_path@));
        let stem = string_from_chars(stem_chars);
        if is_c_file && is_asm_file {
            return Err(Error::BothCAndAsm(stem));
        }
        proof {
            self.lemma_wf_unique();
        }
        let found: Option<usize> = match self.index.get(stem.as_str()) {
            Some(i) => Some(*i),
            None => None,
        };
        let ghost ev = self.entries_view();
        proof {
            if self@.contains_key(stem@) {
                let j = choose|j: int| 0 <= j < ev.len() && #[trigger] ev[j].0 == stem@;
                assert(self.index@.contains_key(self.entries@[j].stem@));
                assert(found == Some(j as usize));
                assert(self@[stem@] == (ev[j].1, ev[j].2));
            }
        }
        if let Some(i) = found {
            proof {
                assert(self.index@.contains_key(stem@));
                assert(ev[i as int].0 == stem@);
                assert(self@.contains_key(stem@));
            }
            if self.entries[i].is_cfile != is_c_file {
                return Err(Error::ConflictingSourceTypes(stem));
            }
        }
        let prefix = str_chars(root_prefix);
        let rel_chars = remove_all_of(path.as_slice(), prefix.as_slice());
        let rel = string_from_chars(rel_chars.as_slice());
        let ghost e = (stem@, rel@, is_c_file);
        let ghost old_entries = self.entries@;
        let ghost old_index = self.index@;
        if let Some(i) = found {
            self.entries.set(i, SourceEntry { stem, subpath: rel, is_cfile: is_c_file });
            proof {
                assert forall|k: Seq<char>| #[trigger]
                    self.index@.contains_key(k) implies self.index@[k] < self.entries@.len()
                    && self.entries@[self.index@[k] as int].stem@ == k by {
                    assert(old_entries[old_index[k] as int].stem@ == k);
                }
                assert forall|j: int| 0 <= j < self.entries@.len() implies #[trigger] self.index@.contains_key(
                    self.entries@[j].stem@,
                ) && self.index@[self.entries@[j].stem@] == j by {
                    assert(old_index.contains_key(old_entries[j].stem@));
                }
                assert(self.entries_view() =~= ev.update(i as int, e));
                assert(ev[i as int].0 == e.0);
                let j = choose|j: int| 0 <= j < ev.len() && #[trigger] ev[j].0 == e.0;
                if j != i as int {
                    if j < i as int {
                        assert(ev[j].0 != ev[i as int].0);
                    } else {
                        assert(ev[i as int].0 != ev[j].0);
                    }
                }
            }
        } else {
            let n = self.entries.len();
            self.entries.push(SourceEntry { stem: stem.clone(), subpath: rel, is_cfile: is_c_file });
            self.index.insert(stem, n);
            proof {
                assert(!old_index.contains_key(e.0));
                assert forall|k: Seq<char>| #[trigger]
                    self.index@.contains_key(k) implies self.index@[k] < self.entries@.len()
                    && self.entries@[self.index@[k] as int].stem@ == k by {
                    if k != e.0 {
                        assert(old_entries[old_index[k] as int].stem@ == k);
                    }
                }
                assert forall|j: int| 0 <= j < self.entries@.len() implies #[trigger] self.index@.contains_key(
                    self.entries@[j].stem@,
                ) && self.index@[self.entries@[j].stem@] == j by {
                    if j < n {
                        assert(old_index.contains_key(old_entries[j].stem@));
                        assert(old_entries[j].stem@ != e.0);
                    }
                }
                assert(self.entries_view() =~= ev.push(e));
                assert(!(exists|j: int| 0 <= j < ev.len() && #[trigger] ev[j].0 == e.0));
            }
        }
        proof {
            lemma_add_entry_map(ev, e);
        }
        Ok(())
    }

    /// An empty map.
    pub fn new() -> (r: SourceMap)
        ensures
            r.wf(),
            r.entries_view() == Seq::<(Seq<char>, Seq<char>, bool)>::empty(),
    {
        let r = SourceMap { entries: Vec::new(), index: StringHashMap::new() };
        assert(r.entries_view() =~= Seq::<(Seq<char>, Seq<char>, bool)>::empty());
        r
    }

    /// The number of entries.
    pub fn len(&self) -> (r: usize)
        ensures
            r == self.entries_view().len(),
    {
        self.entries.len()
    }

    /// Entry `i`.
    pub fn entry(&self, i: usize) -> (r: &SourceEntry)
        requires
            i < self.entries_view().len(),
        ensures
            (r.stem@, r.subpath@, r.is_cfile) == self.entries_view()[i as int],
    {
        &self.entries[i]
    }

    /// The entry whose stem is `stem`, if any.
    pub fn get(&self, stem: &str) -> (r: Option<&SourceEntry>)
        requires
            self.wf(),
        ensures
            r is Some <==> self@.contains_key(stem@),
            r matches Some(e) ==> e.stem@ == stem@ && self@[stem@] == (e.subpath@, e.is_cfile),
    {
        proof {
            self.lemma_wf_unique();
        }
        match self.index.get(stem) {
            Some(i) => {
                let e = &self.entries[*i];
                proof {
                    let ev = self.entries_view();
                    assert(ev[*i as int].0 == stem@);
                    assert(self@.contains_key(stem@));
                    let j = choose|j: int| 0 <= j < ev.len() && #[trigger] ev[j].0 == stem@;
                    if j != *i as int {
                        if j < *i as int {
                            assert(ev[j].0 != ev[*i as int].0);
                        } else {
                            assert(ev[*i as int].0 != ev[j].0);
                        }
                    }
                }
                Some(e)
            },
            None => {
                proof {
                    if self@.contains_key(stem@) {
                        let ev = self.entries_view();
                        let j = choose|j: int| 0 <= j < ev.len() && #[trigger] ev[j].0 == stem@;
                        assert(self.index@.contains_key(self.entries@[j].stem@));
                    }
                }
                None
            },
        }
    }
}

} // verus!
