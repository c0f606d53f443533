//! Character-level helpers shared by the text formats of the build.

use vstd::prelude::*;

verus! {

/// The characters of Unicode's `White_Space` property, which is what the
/// `\s` class of the link-map grammars and `char::is_whitespace` mean.
pub open spec fn is_ws(c: char) -> bool {
    ||| ('\u{9}' <= c && c <= '\u{d}')
    ||| c == ' '
    ||| c == '\u{85}'
    ||| c == '\u{a0}'
    ||| c == '\u{1680}'
    ||| ('\u{2000}' <= c && c <= '\u{200a}')
    ||| c == '\u{2028}'
    ||| c == '\u{2029}'
    ||| c == '\u{202f}'
    ||| c == '\u{205f}'
    ||| c == '\u{3000}'
}

/// Decides `is_ws`.
pub fn char_is_ws(c: char) -> (r: bool)
    ensures
        r == is_ws(c),
{
    ('\u{9}' <= c && c <= '\u{d}') || c == ' ' || c == '\u{85}' || c == '\u{a0}' || c == '\u{1680}'
        || ('\u{2000}' <= c && c <= '\u{200a}') || c == '\u{2028}' || c == '\u{2029}' || c
        == '\u{202f}' || c == '\u{205f}' || c == '\u{3000}'
}

/// Every character of `s` is white space.
pub open spec fn all_ws(s: Seq<char>) -> bool {
    forall|i: int| 0 <= i < s.len() ==> is_ws(#[trigger] s[i])
}

/// No character of `s` is white space.
pub open spec fn no_ws(s: Seq<char>) -> bool {
    forall|i: int| 0 <= i < s.len() ==> !is_ws(#[trigger] s[i])
}

/// The index of the first `'\n'` in `s` at or after `from`, or `s.len()`.
pub open spec fn find_nl(s: Seq<char>, from: nat) -> nat
    decreases s.len() - from,
{
    if from >= s.len() {
        s.len()
    } else if s[from as int] == '\n' {
        from
    } else {
        find_nl(s, from + 1)
    }
}

/// `l` without one trailing carriage return.
pub open spec fn strip_cr(l: Seq<char>) -> Seq<char> {
    if l.len() > 0 && l.last() == '\r' {
        l.drop_last()
    } else {
        l
    }
}

/// The lines of a text as `str::lines` gives them: split at each `'\n'`,
/// a `"\r\n"` ending counting as one line ending, the ending not kept, and
/// no empty line after a final ending.
pub open spec fn lines_of(s: Seq<char>) -> Seq<Seq<char>>
    decreases s.len(),
{
    if s.len() == 0 {
        Seq::empty()
    } else {
        let k = find_nl(s, 0);
        if k >= s.len() {
            seq![s]
        } else {
            seq![strip_cr(s.take(k as int))] + lines_of(s.skip((k + 1) as int))
        }
    }
}

proof fn lemma_find_nl(s: Seq<char>, from: nat, k: nat)
    requires
        from <= k <= s.len(),
        forall|j: int| from <= j < k ==> s[j] != '\n',
        k < s.len() ==> s[k as int] == '\n',
    ensures
        find_nl(s, from) == k,
    decreases k - from,
{
    if from < k {
        lemma_find_nl(s, from + 1, k);
    }
}

/// Splits off the first line of `chars[pos..]`: it is `chars[pos..r.0]`, and
/// the lines after it are those of `chars[r.1..]`.
pub fn next_line(chars: &[char], pos: usize) -> (r: (usize, usize))
    requires
        pos < chars@.len(),
    ensures
        pos <= r.0 <= r.1 <= chars@.len(),
        pos < r.1,
        lines_of(chars@.skip(pos as int)) == seq![chars@.subrange(pos as int, r.0 as int)]
            + lines_of(chars@.skip(r.1 as int)),
{
    let ghost s = chars@.skip(pos as int);
    let mut k: usize = pos;
    while k < chars.len() && chars[k] != '\n'
        invariant
            pos <= k <= chars@.len(),
            forall|j: int| pos <= j < k ==> chars@[j] != '\n',
        decreases chars.len() - k,
    {
        k = k + 1;
    }
    proof {
        lemma_find_nl(s, 0, (k - pos) as nat);
    }
    if k == chars.len() {
        assert(s =~= chars@.subrange(pos as int, k as int));
        assert(chars@.skip(k as int) =~= Seq::<char>::empty());
        assert(lines_of(chars@.skip(k as int)) =~= Seq::<Seq<char>>::empty());
        assert(seq![s] + Seq::<Seq<char>>::empty() =~= seq![s]);
        (k, k)
    } else {
        assert(s.skip(k - pos + 1) =~= chars@.skip(k + 1));
        let end = if k > pos && chars[k - 1] == '\r' {
            k - 1
        } else {
            k
        };
        assert(strip_cr(s.take(k - pos)) =~= chars@.subrange(pos as int, end as int));
        (end, k + 1)
    }
}

/// Collects characters into a `String` (`String: FromIterator<char>`); the
/// contract claims that the string holds exactly those characters, in order.
#[verifier::external_body]
pub(crate) fn string_from_chars(chars: &[char]) -> (r: String)
    ensures
        r@ == chars@,
{
    chars.iter().collect()
}

/// The index of the last `c` in `s`, or -1.
pub open spec fn last_index_of(s: Seq<char>, c: char) -> int
    decreases s.len(),
{
    if s.len() == 0 {
        -1
    } else if s.last() == c {
        s.len() - 1
    } else {
        last_index_of(s.drop_last(), c)
    }
}

proof fn lemma_last_index_of(s: Seq<char>, c: char, k: int)
    requires
        -1 <= k < s.len(),
        k >= 0 ==> s[k] == c,
        forall|j: int| k < j < s.len() ==> s[j] != c,
    ensures
        last_index_of(s, c) == k,
    decreases s.len(),
{
    if s.len() > 0 && k < s.len() - 1 {
        lemma_last_index_of(s.drop_last(), c, k);
    }
}

/// The index of the last `c` in `s`, if any.
pub fn rfind_char(s: &[char], c: char) -> (r: Option<usize>)
    ensures
        match r {
            Some(k) => last_index_of(s@, c) == k && k < s.len(),
            None => last_index_of(s@, c) == -1,
        },
{
    let mut i: usize = s.len();
    while i > 0
        invariant
            i <= s@.len(),
            forall|j: int| i <= j < s@.len() ==> s@[j] != c,
        decreases i,
    {
        if s[i - 1] == c {
            proof {
                lemma_last_index_of(s@, c, i - 1);
            }
            return Some(i - 1);
        }
        i = i - 1;
    }
    proof {
        lemma_last_index_of(s@, c, -1);
    }
    None
}

/// `s` with every occurrence of `pat` taken out, the occurrences found from
/// the left and not overlapping (what `str::replace(pat, "")` gives).
pub open spec fn remove_all(s: Seq<char>, pat: Seq<char>) -> Seq<char>
    decreases s.len(),
{
    if pat.len() == 0 || s.len() < pat.len() {
        s
    } else if s.take(pat.len() as int) == pat {
        remove_all(s.skip(pat.len() as int), pat)
    } else {
        seq![s[0]] + remove_all(s.skip(1), pat)
    }
}

/// `s` with every occurrence of `pat` taken out, as `remove_all` says.
pub fn remove_all_of(s: &[char], pat: &[char]) -> (r: Vec<char>)
    ensures
        r@ == remove_all(s@, pat@),
{
    let mut out: Vec<char> = Vec::new();
    if pat.len() == 0 {
        let mut j: usize = 0;
        while j < s.len()
            invariant
                j <= s@.len(),
                out@ == s@.take(j as int),
            decreases s.len() - j,
        {
            out.push(s[j]);
            assert(s@.take(j + 1) =~= s@.take(j as int).push(s@[j as int]));
            j = j + 1;
        }
        assert(s@.take(s@.len() as int) =~= s@);
        return out;
    }
    let mut i: usize = 0;
    assert(s@.skip(0) =~= s@);
    assert(out@ + remove_all(s@, pat@) =~= remove_all(s@, pat@));
    while i < s.len()
        invariant
            pat@.len() > 0,
            i <= s@.len(),
            out@ + remove_all(s@.skip(i as int), pat@) == remove_all(s@, pat@),
        decreases s.len() - i,
    {
        let ghost rest = s@.skip(i as int);
        let mut here = pat.len() <= s.len() - i;
        if here {
            let mut k: usize = 0;
            while k < pat.len() && s[i + k] == pat[k]
                invariant
                    i + pat.len() <= s.len(),
                    k <= pat@.len(),
                    forall|m: int| 0 <= m < k ==> s@[i + m] == pat@[m],
                decreases pat.len() - k,
            {
                k = k + 1;
            }
            here = k == pat.len();
            if here {
                assert(rest.take(pat@.len() as int) =~= pat@);
            } else {
                assert(rest.take(pat@.len() as int)[k as int] != pat@[k as int]);
            }
        }
        if here {
            assert(rest.skip(pat@.len() as int) =~= s@.skip(i + pat@.len()));
            i = i + pat.len();
        } else {
            assert(rest.skip(1) =~= s@.skip(i + 1));
            proof {
                if rest.len() < pat@.len() {
                    assert(remove_all(rest, pat@) == rest);
                    assert(remove_all(rest.skip(1), pat@) == rest.skip(1));
                    assert(rest =~= seq![rest[0]] + rest.skip(1));
                }
            }
            let ghost old_out = out@;
            out.push(s[i]);
            assert(out@ + remove_all(s@.skip(i + 1), pat@) =~= old_out + (seq![rest[0]]
                + remove_all(rest.skip(1), pat@)));
            i = i + 1;
        }
    }
    assert(remove_all(s@.skip(i as int), pat@) =~= Seq::<char>::empty()) by {
        assert(s@.skip(i as int) =~= Seq::<char>::empty());
    }
    assert(out@ + Seq::<char>::empty() =~= out@);
    out
}

/// `l[a..b]` is all white space.
pub open spec fn all_ws_in(l: Seq<char>, a: int, b: int) -> bool {
    forall|j: int| a <= j < b ==> is_ws(#[trigger] l[j])
}

/// `l[a..b]` holds no white space.
pub open spec fn no_ws_in(l: Seq<char>, a: int, b: int) -> bool {
    forall|j: int| a <= j < b ==> !is_ws(#[trigger] l[j])
}

/// The end of the run of white space that starts at `i`.
pub fn skip_ws(l: &[char], i: usize) -> (r: usize)
    requires
        i <= l@.len(),
    ensures
        i <= r <= l@.len(),
        all_ws_in(l@, i as int, r as int),
        r < l@.len() ==> !is_ws(l@[r as int]),
{
    let mut k = i;
    while k < l.len() && char_is_ws(l[k])
        invariant
            i <= k <= l@.len(),
            all_ws_in(l@, i as int, k as int),
        decreases l.len() - k,
    {
        k = k + 1;
    }
    k
}

/// The end of the run of non-white-space characters that starts at `i`.
pub fn skip_non_ws(l: &[char], i: usize) -> (r: usize)
    requires
        i <= l@.len(),
    ensures
        i <= r <= l@.len(),
        no_ws_in(l@, i as int, r as int),
        r < l@.len() ==> is_ws(l@[r as int]),
{
    let mut k = i;
    while k < l.len() && !char_is_ws(l[k])
        invariant
            i <= k <= l@.len(),
            no_ws_in(l@, i as int, k as int),
        decreases l.len() - k,
    {
        k = k + 1;
    }
    k
}

/// A run of white space from `i` ends at one place only.
pub proof fn lemma_ws_run_end(l: Seq<char>, i: int, r1: int, r2: int)
    requires
        i <= r1 <= l.len(),
        i <= r2 <= l.len(),
        all_ws_in(l, i, r1),
        all_ws_in(l, i, r2),
        r1 < l.len() ==> !is_ws(l[r1]),
        r2 < l.len() ==> !is_ws(l[r2]),
    ensures
        r1 == r2,
{
    if r1 < r2 {
        assert(is_ws(l[r1]));
    } else if r2 < r1 {
        assert(is_ws(l[r2]));
    }
}

/// A run of non-white-space characters from `i` ends at one place only.
pub proof fn lemma_token_end(l: Seq<char>, i: int, r1: int, r2: int)
    requires
        i <= r1 <= l.len(),
        i <= r2 <= l.len(),
        no_ws_in(l, i, r1),
        no_ws_in(l, i, r2),
        r1 < l.len() ==> is_ws(l[r1]),
        r2 < l.len() ==> is_ws(l[r2]),
    ensures
        r1 == r2,
{
    if r1 < r2 {
        assert(!is_ws(l[r1]));
    } else if r2 < r1 {
        assert(!is_ws(l[r2]));
    }
}

/// The characters of a string, in order.
pub fn str_chars(s: &str) -> (r: Vec<char>)
    ensures
        r@ == s@,
{
    broadcast use vstd::string::group_string_axioms;

    let mut out: Vec<char> = Vec::new();
    for c in it: s.chars()
        invariant
            it.seq() == s@,
            out@ == s@.take(it.index() as int),
    {
        out.push(c);
    }
    assert(out@ =~= s@);
    out
}

/// Two strings hold the same characters.
pub fn str_eq(a: &str, b: &str) -> (r: bool)
    ensures
        r == (a@ == b@),
{
    let x = str_chars(a);
    let y = str_chars(b);
    if x.len() != y.len() {
        return false;
    }
    let mut i: usize = 0;
    while i < x.len()
        invariant
            x@ == a@,
            y@ == b@,
            x.len() == y.len(),
            i <= x.len(),
            forall|j: int| 0 <= j < i ==> x@[j] == y@[j],
        decreases x.len() - i,
    {
        if x[i] != y[i] {
            return false;
        }
        i = i + 1;
    }
    assert(x@ =~= y@);
    true
}

} // verus!
