//! Byte strings: searching, trimming, splitting into lines and ordering.
//!
//! Names, paths, object identifiers and file contents are all byte strings
//! here. Every executable function is specified by a spec function of the same
//! purpose over `Seq<u8>`.

use vstd::prelude::*;

verus! {

/// The byte that ends a line.
pub const LF: u8 = 10;

/// The byte that may precede `LF` at the end of a line.
pub const CR: u8 = 13;

/// The byte that separates the fields of a line.
pub const SPACE: u8 = 32;

/// The bytes of a text that holds ASCII characters only.
pub open spec fn ascii_bytes(text: Seq<char>) -> Seq<u8> {
    Seq::new(text.len(), |i: int| text[i] as u8)
}

/// The bytes of an ASCII string literal.
pub fn literal(text: &'static str) -> (r: &'static [u8])
    requires
        vstd::string::is_ascii(text),
    ensures
        r@ == ascii_bytes(text@),
{
    broadcast use vstd::string::is_ascii_spec_bytes;

    let r: &'static [u8] = text.as_bytes();
    assert(r@ =~= ascii_bytes(text@));
    r
}

/// ASCII white space: space, tab, line feed, vertical tab, form feed, carriage return.
pub open spec fn is_space(b: u8) -> bool {
    b == 32 || (9 <= b && b <= 13)
}

/// Whether `b` is ASCII white space.
pub fn is_space_byte(b: u8) -> (r: bool)
    ensures
        r == is_space(b),
{
    b == 32 || (9 <= b && b <= 13)
}

/// `p` is an initial part of `s`.
pub open spec fn has_prefix(s: Seq<u8>, p: Seq<u8>) -> bool {
    p.len() <= s.len() && s.subrange(0, p.len() as int) == p
}

/// `p` is a final part of `s`.
pub open spec fn has_suffix(s: Seq<u8>, p: Seq<u8>) -> bool {
    p.len() <= s.len() && s.subrange(s.len() - p.len(), s.len() as int) == p
}

/// `pat` stands in `s` at index `i`.
pub open spec fn occurs_at(s: Seq<u8>, pat: Seq<u8>, i: int) -> bool {
    0 <= i && i + pat.len() <= s.len() && s.subrange(i, i + pat.len()) == pat
}

/// The least index at or after `from` at which `b` stands in `s`.
pub open spec fn find_byte(s: Seq<u8>, b: u8, from: int) -> Option<int>
    decreases s.len() - from,
{
    if from < 0 || from >= s.len() {
        None
    } else if s[from] == b {
        Some(from)
    } else {
        find_byte(s, b, from + 1)
    }
}

/// The least index at or after `from` at which `pat` stands in `s`.
pub open spec fn find_sub(s: Seq<u8>, pat: Seq<u8>, from: int) -> Option<int>
    decreases s.len() - from + 1,
{
    if from < 0 || from + pat.len() > s.len() {
        None
    } else if occurs_at(s, pat, from) {
        Some(from)
    } else {
        find_sub(s, pat, from + 1)
    }
}

/// `pat` stands somewhere in `s`.
pub open spec fn contains_sub(s: Seq<u8>, pat: Seq<u8>) -> bool {
    find_sub(s, pat, 0) is Some
}

/// What `find_byte` returns is the first place of `b`, and `None` means that
/// `b` does not occur from `from` on.
pub proof fn lemma_find_byte(s: Seq<u8>, b: u8, from: int)
    requires
        0 <= from <= s.len(),
    ensures
        match find_byte(s, b, from) {
            Some(i) => from <= i < s.len() && s[i] == b && forall|j: int|
                from <= j < i ==> s[j] != b,
            None => forall|j: int| from <= j < s.len() ==> s[j] != b,
        },
    decreases s.len() - from,
{
    if from < s.len() && s[from] != b {
        lemma_find_byte(s, b, from + 1);
    }
}

/// What `find_sub` returns is the first place of `pat`, and `None` means that
/// `pat` does not occur from `from` on.
pub proof fn lemma_find_sub(s: Seq<u8>, pat: Seq<u8>, from: int)
    requires
        0 <= from,
    ensures
        match find_sub(s, pat, from) {
            Some(i) => from <= i && occurs_at(s, pat, i) && forall|j: int|
                from <= j < i ==> !occurs_at(s, pat, j),
            None => forall|j: int| from <= j ==> !occurs_at(s, pat, j),
        },
    decreases s.len() - from + 1,
{
    if from + pat.len() <= s.len() && !occurs_at(s, pat, from) {
        lemma_find_sub(s, pat, from + 1);
    }
}

/// A copy of `s`.
pub fn to_vec(s: &[u8]) -> (r: Vec<u8>)
    ensures
        r@ == s@,
{
    vstd::slice::slice_to_vec(s)
}

/// The part of `s` from `from` up to `to`.
pub fn slice<'a>(s: &'a [u8], from: usize, to: usize) -> (r: &'a [u8])
    requires
        from <= to <= s@.len(),
    ensures
        r@ == s@.subrange(from as int, to as int),
{
    vstd::slice::slice_subrange(s, from, to)
}

/// Appends `src` to `dst`.
pub fn append(dst: &mut Vec<u8>, src: &[u8])
    ensures
        final(dst)@ == old(dst)@ + src@,
{
    let mut i: usize = 0;
    while i < src.len()
        invariant
            i <= src@.len(),
            dst@ == old(dst)@ + src@.subrange(0, i as int),
        decreases src@.len() - i,
    {
        dst.push(src[i]);
        assert(dst@ =~= old(dst)@ + src@.subrange(0, i + 1));
        i += 1;
    }
    assert(src@.subrange(0, i as int) =~= src@);
}

/// The two byte strings hold the same bytes.
pub fn equal(a: &[u8], b: &[u8]) -> (r: bool)
    ensures
        r == (a@ == b@),
{
    if a.len() != b.len() {
        return false;
    }
    let mut i: usize = 0;
    while i < a.len()
        invariant
            i <= a@.len(),
            a@.len() == b@.len(),
            forall|j: int| 0 <= j < i ==> a@[j] == b@[j],
        decreases a@.len() - i,
    {
        if a[i] != b[i] {
            return false;
        }
        i += 1;
    }
    assert(a@ =~= b@);
    true
}

/// Whether `pat` stands in `s` at index `i`.
pub fn matches_at(s: &[u8], pat: &[u8], i: usize) -> (r: bool)
    ensures
        r == occurs_at(s@, pat@, i as int),
{
    if pat.len() > s.len() || i > s.len() - pat.len() {
        return false;
    }
    let mut k: usize = 0;
    while k < pat.len()
        invariant
            k <= pat@.len(),
            i + pat@.len() <= s@.len(),
            s@.len() <= usize::MAX,
            forall|j: int| 0 <= j < k ==> s@[i + j] == pat@[j],
        decreases pat@.len() - k,
    {
        if s[i + k] != pat[k] {
            assert(s@.subrange(i as int, i + pat@.len())[k as int] == s@[i + k]);
            return false;
        }
        k += 1;
    }
    assert(s@.subrange(i as int, i + pat@.len()) =~= pat@);
    true
}

/// Whether `s` starts with `p`.
pub fn starts_with(s: &[u8], p: &[u8]) -> (r: bool)
    ensures
        r == has_prefix(s@, p@),
{
    matches_at(s, p, 0)
}

/// Whether `s` ends with `p`.
pub fn ends_with(s: &[u8], p: &[u8]) -> (r: bool)
    ensures
        r == has_suffix(s@, p@),
{
    if p.len() > s.len() {
        return false;
    }
    matches_at(s, p, s.len() - p.len())
}

/// The first place of `b` in `s` at or after `from`.
pub fn index_of_byte(s: &[u8], b: u8, from: usize) -> (r: Option<usize>)
    ensures
        match r {
            Some(i) => find_byte(s@, b, from as int) == Some(i as int),
            None => find_byte(s@, b, from as int) is None,
        },
{
    let mut i: usize = from;
    while i < s.len()
        invariant
            from <= i,
            find_byte(s@, b, from as int) == find_byte(s@, b, i as int),
        decreases s@.len() - i,
    {
        if s[i] == b {
            return Some(i);
        }
        i += 1;
    }
    None
}

/// The first place of `pat` in `s` at or after `from`.
pub fn index_of_sub(s: &[u8], pat: &[u8], from: usize) -> (r: Option<usize>)
    ensures
        match r {
            Some(i) => find_sub(s@, pat@, from as int) == Some(i as int),
            None => find_sub(s@, pat@, from as int) is None,
        },
{
    if pat.len() > s.len() {
        return None;
    }
    let last: usize = s.len() - pat.len();
    let mut i: usize = from;
    while i <= last
        invariant
            from <= i,
            last + pat@.len() == s@.len(),
            find_sub(s@, pat@, from as int) == find_sub(s@, pat@, i as int),
        decreases last + 1 - i,
    {
        if matches_at(s, pat, i) {
            return Some(i);
        }
        if i == last {
            assert(find_sub(s@, pat@, i + 1) is None);
            return None;
        }
        i += 1;
    }
    None
}

/// The index at or after `from` of the first byte that is no white space.
pub open spec fn skip_spaces(s: Seq<u8>, from: int) -> int
    decreases s.len() - from,
{
    if 0 <= from < s.len() && is_space(s[from]) {
        skip_spaces(s, from + 1)
    } else {
        from
    }
}

/// The end of `s[start..end]` once the white space at its end is left out.
pub open spec fn drop_spaces(s: Seq<u8>, start: int, end: int) -> int
    decreases end - start,
{
    if start < end <= s.len() && is_space(s[end - 1]) {
        drop_spaces(s, start, end - 1)
    } else {
        end
    }
}

/// `s` without the white space at its two ends.
pub open spec fn trimmed(s: Seq<u8>) -> Seq<u8> {
    let start = skip_spaces(s, 0);
    s.subrange(start, drop_spaces(s, start, s.len() as int))
}

/// `s` without the white space at its two ends.
pub fn trim<'a>(s: &'a [u8]) -> (r: &'a [u8])
    ensures
        r@ == trimmed(s@),
{
    let mut start: usize = 0;
    while start < s.len() && is_space_byte(s[start])
        invariant
            start <= s@.len(),
            skip_spaces(s@, 0) == skip_spaces(s@, start as int),
        decreases s@.len() - start,
    {
        start += 1;
    }
    let mut end: usize = s.len();
    while start < end && is_space_byte(s[end - 1])
        invariant
            start <= end <= s@.len(),
            drop_spaces(s@, start as int, s@.len() as int) == drop_spaces(
                s@,
                start as int,
                end as int,
            ),
        decreases end - start,
    {
        end -= 1;
    }
    slice(s, start, end)
}

/// A line without the carriage return that stood before its line feed.
pub open spec fn strip_cr(line: Seq<u8>) -> Seq<u8> {
    if line.len() > 0 && line.last() == CR {
        line.drop_last()
    } else {
        line
    }
}

/// The lines of `s` from index `from` on. A line ends at a line feed; a
/// carriage return just before that line feed belongs to the line ending.
/// What stands after the last line feed is a line if it is not empty.
pub open spec fn lines_from(s: Seq<u8>, from: int) -> Seq<Seq<u8>>
    decreases s.len() - from,
{
    if from < 0 || from >= s.len() {
        Seq::empty()
    } else {
        match find_byte(s, LF, from) {
            None => seq![s.subrange(from, s.len() as int)],
            Some(end) => if from <= end < s.len() {
                seq![strip_cr(s.subrange(from, end))] + lines_from(s, end + 1)
            } else {
                Seq::empty()
            },
        }
    }
}

/// The lines of `s`.
pub open spec fn lines(s: Seq<u8>) -> Seq<Seq<u8>> {
    lines_from(s, 0)
}

/// The byte strings that a vector of vectors holds.
pub open spec fn views(v: Seq<Vec<u8>>) -> Seq<Seq<u8>> {
    Seq::new(v.len(), |i: int| v[i]@)
}

/// The lines of `s`, each as a vector of its own.
pub fn split_lines(s: &[u8]) -> (r: Vec<Vec<u8>>)
    ensures
        views(r@) == lines(s@),
{
    let mut out: Vec<Vec<u8>> = Vec::new();
    let mut from: usize = 0;
    assert(views(out@) =~= Seq::<Seq<u8>>::empty());
    while from < s.len()
        invariant
            views(out@) + lines_from(s@, from as int) == lines(s@),
        decreases s@.len() - from,
    {
        let ghost before = views(out@);
        match index_of_byte(s, LF, from) {
            None => {
                out.push(to_vec(slice(s, from, s.len())));
                proof {
                    assert(views(out@) =~= before.push(s@.subrange(from as int, s@.len() as int)));
                    assert(before.push(s@.subrange(from as int, s@.len() as int)) =~= before
                        + lines_from(s@, from as int));
                    assert(lines_from(s@, s@.len() as int) =~= Seq::<Seq<u8>>::empty());
                    assert(views(out@) + lines_from(s@, s@.len() as int) =~= views(out@));
                }
                from = s.len();
            },
            Some(end) => {
                proof {
                    lemma_find_byte(s@, LF, from as int);
                }
                let mut stop: usize = end;
                if stop > from && s[stop - 1] == CR {
                    stop -= 1;
                }
                out.push(to_vec(slice(s, from, stop)));
                proof {
                    let line = s@.subrange(from as int, end as int);
                    assert(s@.subrange(from as int, stop as int) =~= strip_cr(line));
                    assert(views(out@) =~= before.push(strip_cr(line)));
                    assert(before + lines_from(s@, from as int) =~= before.push(strip_cr(line))
                        + lines_from(s@, end + 1));
                }
                from = end + 1;
            },
        }
    }
    assert(lines_from(s@, from as int) =~= Seq::<Seq<u8>>::empty());
    assert(views(out@) + lines_from(s@, from as int) =~= views(out@));
    out
}

/// The order of byte strings from index `i` on, given that they agree before
/// it: byte by byte, and a proper initial part comes first.
pub open spec fn lex_lt_from(a: Seq<u8>, b: Seq<u8>, i: int) -> bool
    decreases b.len() - i,
{
    if i < 0 || i >= b.len() {
        false
    } else if i >= a.len() {
        true
    } else if a[i] != b[i] {
        a[i] < b[i]
    } else {
        lex_lt_from(a, b, i + 1)
    }
}

/// `a` comes strictly before `b` in the order of byte strings.
pub open spec fn lex_lt(a: Seq<u8>, b: Seq<u8>) -> bool {
    lex_lt_from(a, b, 0)
}

/// From any index on, no byte string comes before itself.
pub proof fn lemma_lex_irreflexive_from(a: Seq<u8>, i: int)
    ensures
        !lex_lt_from(a, a, i),
    decreases a.len() - i,
{
    if 0 <= i < a.len() {
        lemma_lex_irreflexive_from(a, i + 1);
    }
}

/// From any index on, the order is transitive.
pub proof fn lemma_lex_transitive_from(a: Seq<u8>, b: Seq<u8>, c: Seq<u8>, i: int)
    requires
        lex_lt_from(a, b, i),
        lex_lt_from(b, c, i),
    ensures
        lex_lt_from(a, c, i),
    decreases c.len() - i,
{
    if i < a.len() && a[i] == b[i] && b[i] == c[i] {
        lemma_lex_transitive_from(a, b, c, i + 1);
    }
}

/// Of two byte strings that agree before an index and differ, one comes
/// before the other from that index on.
pub proof fn lemma_lex_total_from(a: Seq<u8>, b: Seq<u8>, i: int)
    requires
        0 <= i,
        i <= a.len(),
        i <= b.len(),
        a.subrange(0, i) == b.subrange(0, i),
    ensures
        lex_lt_from(a, b, i) || lex_lt_from(b, a, i) || a == b,
    decreases a.len() + b.len() - i,
{
    if i < a.len() && i < b.len() {
        if a[i] == b[i] {
            assert(a.subrange(0, i + 1) =~= a.subrange(0, i).push(a[i]));
            assert(b.subrange(0, i + 1) =~= b.subrange(0, i).push(b[i]));
            lemma_lex_total_from(a, b, i + 1);
        }
    } else if i == a.len() && i == b.len() {
        assert(a.subrange(0, i) =~= a);
        assert(b.subrange(0, i) =~= b);
    }
}

/// No byte string comes before itself.
pub proof fn lemma_lex_irreflexive(a: Seq<u8>)
    ensures
        !lex_lt(a, a),
{
    lemma_lex_irreflexive_from(a, 0);
}

/// The order is transitive.
pub proof fn lemma_lex_transitive(a: Seq<u8>, b: Seq<u8>, c: Seq<u8>)
    requires
        lex_lt(a, b),
        lex_lt(b, c),
    ensures
        lex_lt(a, c),
{
    lemma_lex_transitive_from(a, b, c, 0);
}

/// Of two different byte strings one comes before the other.
pub proof fn lemma_lex_total(a: Seq<u8>, b: Seq<u8>)
    ensures
        lex_lt(a, b) || lex_lt(b, a) || a == b,
{
    assert(a.subrange(0, 0) =~= b.subrange(0, 0));
    lemma_lex_total_from(a, b, 0);
}

/// No two byte strings come before each other.
pub proof fn lemma_lex_asymmetric(a: Seq<u8>, b: Seq<u8>)
    requires
        lex_lt(a, b),
    ensures
        !lex_lt(b, a),
{
    if lex_lt(b, a) {
        lemma_lex_transitive(a, b, a);
        lemma_lex_irreflexive(a);
    }
}

/// `a` comes strictly before `b` in the order of byte strings.
pub fn less_than(a: &[u8], b: &[u8]) -> (r: bool)
    ensures
        r == lex_lt(a@, b@),
{
    let mut i: usize = 0;
    while i < a.len() && i < b.len()
        invariant
            i <= a@.len(),
            i <= b@.len(),
            lex_lt(a@, b@) == lex_lt_from(a@, b@, i as int),
        decreases a@.len() - i,
    {
        if a[i] != b[i] {
            return a[i] < b[i];
        }
        i += 1;
    }
    i < b.len()
}

/// `s` split at the first `b`: what stands before it and what stands after.
pub open spec fn split_at_byte(s: Seq<u8>, b: u8) -> Option<(Seq<u8>, Seq<u8>)> {
    match find_byte(s, b, 0) {
        Some(i) => Some((s.subrange(0, i), s.subrange(i + 1, s.len() as int))),
        None => None,
    }
}

/// What stands in `s` after the first `pat`.
pub open spec fn after_first(s: Seq<u8>, pat: Seq<u8>) -> Option<Seq<u8>> {
    match find_sub(s, pat, 0) {
        Some(i) => Some(s.subrange(i + pat.len(), s.len() as int)),
        None => None,
    }
}

/// `s` split at the first `b`.
pub fn split_once<'a>(s: &'a [u8], b: u8) -> (r: Option<(&'a [u8], &'a [u8])>)
    ensures
        match r {
            Some((left, right)) => split_at_byte(s@, b) == Some((left@, right@)),
            None => split_at_byte(s@, b) is None,
        },
{
    match index_of_byte(s, b, 0) {
        Some(i) => {
            proof {
                lemma_find_byte(s@, b, 0);
            }
            let n: usize = s.len();
            Some((slice(s, 0, i), slice(s, i + 1, n)))
        },
        None => None,
    }
}

/// What stands in `s` after the first `pat`.
pub fn skip_past<'a>(s: &'a [u8], pat: &[u8]) -> (r: Option<&'a [u8]>)
    ensures
        match r {
            Some(rest) => after_first(s@, pat@) == Some(rest@),
            None => after_first(s@, pat@) is None,
        },
{
    match index_of_sub(s, pat, 0) {
        Some(i) => {
            proof {
                lemma_find_sub(s@, pat@, 0);
            }
            let n: usize = s.len();
            Some(slice(s, i + pat.len(), n))
        },
        None => None,
    }
}

/// The value of `k` in `m`, if `m` holds `k`.
pub open spec fn lookup(m: Map<Seq<u8>, Seq<u8>>, k: Seq<u8>) -> Option<Seq<u8>> {
    if m.contains_key(k) {
        Some(m[k])
    } else {
        None
    }
}

/// An index at which `b` stands, with no `b` between `from` and it, is what
/// `find_byte` returns.
pub proof fn lemma_find_byte_is(s: Seq<u8>, b: u8, from: int, i: int)
    requires
        0 <= from <= i < s.len(),
        s[i] == b,
        forall|j: int| from <= j < i ==> s[j] != b,
    ensures
        find_byte(s, b, from) == Some(i),
    decreases i - from,
{
    if from < i {
        lemma_find_byte_is(s, b, from + 1, i);
    }
}

/// Behind a text `x`, `find_byte` finds in `x + y` what it finds in `y`.
pub proof fn lemma_find_byte_shift(x: Seq<u8>, y: Seq<u8>, b: u8, k: int)
    requires
        0 <= k,
    ensures
        find_byte(x + y, b, x.len() + k) == match find_byte(y, b, k) {
            Some(i) => Some(i + x.len()),
            None => None,
        },
    decreases y.len() - k,
{
    if k < y.len() {
        assert((x + y)[x.len() + k] == y[k]);
        if y[k] != b {
            lemma_find_byte_shift(x, y, b, k + 1);
        }
    }
}

/// Behind a text `x`, the lines of `x + y` are the lines of `y`.
pub proof fn lemma_lines_shift(x: Seq<u8>, y: Seq<u8>, k: int)
    requires
        0 <= k,
    ensures
        lines_from(x + y, x.len() + k) == lines_from(y, k),
    decreases y.len() - k,
{
    if k < y.len() {
        lemma_find_byte_shift(x, y, LF, k);
        lemma_find_byte(y, LF, k);
        match find_byte(y, LF, k) {
            None => {
                assert((x + y).subrange(x.len() + k, (x + y).len() as int) =~= y.subrange(
                    k,
                    y.len() as int,
                ));
            },
            Some(end) => {
                assert((x + y).subrange(x.len() + k, x.len() + end) =~= y.subrange(k, end));
                lemma_lines_shift(x, y, end + 1);
            },
        }
    }
}

/// After a text that is empty or ends with a line feed, the lines of what
/// follows come after its own lines.
pub proof fn lemma_lines_concat(x: Seq<u8>, y: Seq<u8>, from: int)
    requires
        0 <= from <= x.len(),
        x.len() > 0 ==> x.last() == LF,
    ensures
        lines_from(x + y, from) == lines_from(x, from) + lines_from(y, 0),
    decreases x.len() - from,
{
    if from == x.len() {
        lemma_lines_shift(x, y, 0);
        assert(lines_from(x, from) + lines_from(y, 0) =~= lines_from(y, 0));
    } else {
        lemma_find_byte(x, LF, from);
        let end = find_byte(x, LF, from)->0;
        assert(find_byte(x, LF, from) is Some) by {
            if find_byte(x, LF, from) is None {
                assert(x[x.len() - 1] != LF);
            }
        }
        assert forall|j: int| from <= j < end implies (x + y)[j] != LF by {
            assert((x + y)[j] == x[j]);
        }
        assert((x + y)[end] == x[end]);
        lemma_find_byte_is(x + y, LF, from, end);
        assert((x + y).subrange(from, end) =~= x.subrange(from, end));
        lemma_lines_concat(x, y, end + 1);
        assert(lines_from(x + y, from) =~= lines_from(x, from) + lines_from(y, 0));
    }
}

/// A text without line feed, followed by a line feed, is one line.
pub proof fn lemma_one_line(line: Seq<u8>)
    requires
        forall|j: int| 0 <= j < line.len() ==> line[j] != LF,
    ensures
        lines(line + seq![LF]) == seq![strip_cr(line)],
{
    let s = line + seq![LF];
    assert forall|j: int| 0 <= j < line.len() implies s[j] != LF by {
        assert(s[j] == line[j]);
    }
    assert(s[line.len() as int] == LF);
    lemma_find_byte_is(s, LF, 0, line.len() as int);
    assert(s.subrange(0, line.len() as int) =~= line);
    assert(lines_from(s, (line.len() + 1) as int) =~= Seq::<Seq<u8>>::empty());
    assert(lines(s) =~= seq![strip_cr(line)]);
}

/// A line that is added to a text of whole lines is its last line.
pub proof fn lemma_lines_push(x: Seq<u8>, line: Seq<u8>)
    requires
        x.len() > 0 ==> x.last() == LF,
        forall|j: int| 0 <= j < line.len() ==> line[j] != LF,
    ensures
        lines(x + (line + seq![LF])) == lines(x).push(strip_cr(line)),
{
    lemma_lines_concat(x, line + seq![LF], 0);
    lemma_one_line(line);
    assert(lines(x) + seq![strip_cr(line)] =~= lines(x).push(strip_cr(line)));
}

/// No byte of `s` has the value `b`.
pub open spec fn free_of(s: Seq<u8>, b: u8) -> bool {
    forall|j: int| 0 <= j < s.len() ==> s[j] != b
}

/// A text that is split at a byte which its first part does not hold gives
/// its two parts back.
pub proof fn lemma_split_joined(left: Seq<u8>, b: u8, right: Seq<u8>)
    requires
        free_of(left, b),
    ensures
        split_at_byte(left + seq![b] + right, b) == Some((left, right)),
{
    let s = left + seq![b] + right;
    assert forall|j: int| 0 <= j < left.len() implies s[j] != b by {
        assert(s[j] == left[j]);
    }
    assert(s[left.len() as int] == b);
    lemma_find_byte_is(s, b, 0, left.len() as int);
    assert(s.subrange(0, left.len() as int) =~= left);
    assert(s.subrange((left.len() + 1) as int, s.len() as int) =~= right);
}

/// A text that neither starts nor ends with white space is its own trimmed
/// form.
pub proof fn lemma_trimmed_same(s: Seq<u8>)
    requires
        s.len() > 0 ==> !is_space(s[0]) && !is_space(s.last()),
    ensures
        trimmed(s) == s,
{
    assert(s.subrange(0, s.len() as int) =~= s);
}

/// White space at the end of a text that does not start with white space
/// and whose part before does not end with it is cut off.
pub proof fn lemma_trimmed_tail(s: Seq<u8>, tail: Seq<u8>)
    requires
        s.len() > 0,
        !is_space(s[0]),
        !is_space(s.last()),
        forall|j: int| 0 <= j < tail.len() ==> is_space(#[trigger] tail[j]),
    ensures
        trimmed(s + tail) == s,
    decreases tail.len(),
{
    let t = s + tail;
    assert(t[0] == s[0]);
    lemma_drop_tail(t, s.len() as int, t.len() as int);
    assert(t.subrange(0, s.len() as int) =~= s);
}

/// From an end behind which only white space stands, dropping white space
/// leads back to the last byte that is none.
pub proof fn lemma_drop_tail(t: Seq<u8>, keep: int, end: int)
    requires
        0 < keep <= end <= t.len(),
        !is_space(t[keep - 1]),
        forall|j: int| keep <= j < end ==> is_space(#[trigger] t[j]),
    ensures
        drop_spaces(t, 0, end) == keep,
    decreases end - keep,
{
    if keep < end {
        assert(is_space(t[end - 1]));
        lemma_drop_tail(t, keep, end - 1);
    }
}

} // verus!
