//! Byte-string primitives: substring search, trimming, splitting and
//! filtering over `Vec<u8>`, each tied to a direct mathematical statement
//! over `Seq<u8>`.

use vstd::prelude::*;

verus! {

/// `needle` occurs in `hay` starting at position `i`.
pub open spec fn match_at(hay: Seq<u8>, needle: Seq<u8>, i: int) -> bool {
    0 <= i && i + needle.len() <= hay.len() && hay.subrange(i, i + needle.len()) == needle
}

/// `needle` occurs somewhere in `hay`.
pub open spec fn contains_seq(hay: Seq<u8>, needle: Seq<u8>) -> bool {
    exists|i: int| match_at(hay, needle, i)
}

/// The position of the first occurrence of `needle` in `hay` at or after `from`.
pub open spec fn find_from(hay: Seq<u8>, needle: Seq<u8>, from: int) -> Option<int>
    decreases hay.len() + 1 - from,
{
    if from + needle.len() > hay.len() {
        None
    } else if match_at(hay, needle, from) {
        Some(from)
    } else {
        find_from(hay, needle, from + 1)
    }
}

/// The position of the last occurrence of `needle` in `hay` at or before `from`.
pub open spec fn rfind_to(hay: Seq<u8>, needle: Seq<u8>, from: int) -> Option<int>
    decreases from + 1,
{
    if from < 0 {
        None
    } else if match_at(hay, needle, from) {
        Some(from)
    } else {
        rfind_to(hay, needle, from - 1)
    }
}

/// The position of the last occurrence of `needle` in `hay`.
pub open spec fn rfind_seq(hay: Seq<u8>, needle: Seq<u8>) -> Option<int> {
    rfind_to(hay, needle, hay.len() - needle.len())
}

/// The view of each element of `s`.
pub open spec fn seq_views<T: View>(s: Seq<T>) -> Seq<T::V> {
    Seq::new(s.len(), |i: int| s[i]@)
}

/// Viewing the elements commutes with appending one.
pub proof fn lemma_seq_views_push<T: View>(s: Seq<T>, x: T)
    ensures
        seq_views(s.push(x)) == seq_views(s).push(x@),
{
    assert(seq_views(s.push(x)) =~= seq_views(s).push(x@));
}

/// An ASCII whitespace byte: space, tab, carriage return or line feed.
pub open spec fn is_ws(b: u8) -> bool {
    b == 32 || b == 9 || b == 13 || b == 10
}

/// The suffix of `hay` after the last occurrence of the byte `sep`
/// (all of `hay` when `sep` does not occur).
pub open spec fn after_last_byte(hay: Seq<u8>, sep: u8) -> Seq<u8>
    decreases hay.len(),
{
    if hay.len() == 0 {
        hay
    } else if hay.last() == sep {
        Seq::empty()
    } else {
        after_last_byte(hay.drop_last(), sep).push(hay.last())
    }
}

/// The suffix of `hay` after the last whitespace byte
/// (all of `hay` when none is whitespace).
pub open spec fn after_last_ws(hay: Seq<u8>) -> Seq<u8>
    decreases hay.len(),
{
    if hay.len() == 0 {
        hay
    } else if is_ws(hay.last()) {
        Seq::empty()
    } else {
        after_last_ws(hay.drop_last()).push(hay.last())
    }
}

/// The number of leading whitespace bytes of `hay`.
pub open spec fn leading_ws(hay: Seq<u8>) -> int
    decreases hay.len(),
{
    if hay.len() > 0 && is_ws(hay[0]) {
        1 + leading_ws(hay.skip(1))
    } else {
        0
    }
}

/// The number of trailing whitespace bytes of `hay`.
pub open spec fn trailing_ws(hay: Seq<u8>) -> int
    decreases hay.len(),
{
    if hay.len() > 0 && is_ws(hay.last()) {
        1 + trailing_ws(hay.drop_last())
    } else {
        0
    }
}

/// `hay` with leading and trailing whitespace removed.
pub open spec fn trimmed(hay: Seq<u8>) -> Seq<u8> {
    if leading_ws(hay) == hay.len() {
        Seq::empty()
    } else {
        hay.subrange(leading_ws(hay), hay.len() - trailing_ws(hay))
    }
}

/// `hay` with every occurrence of the bytes `b1`, `b2` and `b3` removed.
pub open spec fn without_bytes(hay: Seq<u8>, b1: u8, b2: u8, b3: u8) -> Seq<u8>
    decreases hay.len(),
{
    if hay.len() == 0 {
        hay
    } else {
        let rest = without_bytes(hay.drop_last(), b1, b2, b3);
        if hay.last() == b1 || hay.last() == b2 || hay.last() == b3 {
            rest
        } else {
            rest.push(hay.last())
        }
    }
}

/// `hay` ends with `suffix`.
pub open spec fn ends_with_seq(hay: Seq<u8>, suffix: Seq<u8>) -> bool {
    hay.len() >= suffix.len() && hay.subrange(hay.len() - suffix.len(), hay.len() as int)
        == suffix
}

proof fn lemma_after_last_byte_none(hay: Seq<u8>, sep: u8)
    requires
        forall|k: int| 0 <= k < hay.len() ==> hay[k] != sep,
    ensures
        after_last_byte(hay, sep) == hay,
    decreases hay.len(),
{
    if hay.len() > 0 {
        lemma_after_last_byte_none(hay.drop_last(), sep);
        assert(after_last_byte(hay, sep) =~= hay);
    }
}

proof fn lemma_after_last_byte_at(hay: Seq<u8>, sep: u8, i: int)
    requires
        0 <= i < hay.len(),
        hay[i] == sep,
        forall|k: int| i < k < hay.len() ==> hay[k] != sep,
    ensures
        after_last_byte(hay, sep) == hay.subrange(i + 1, hay.len() as int),
    decreases hay.len(),
{
    if i == hay.len() - 1 {
        assert(after_last_byte(hay, sep) =~= hay.subrange(i + 1, hay.len() as int));
    } else {
        lemma_after_last_byte_at(hay.drop_last(), sep, i);
        assert(hay.drop_last().subrange(i + 1, hay.len() - 1) =~= hay.subrange(
            i + 1,
            hay.len() - 1,
        ));
        assert(after_last_byte(hay, sep) =~= hay.subrange(i + 1, hay.len() as int));
    }
}

proof fn lemma_after_last_ws_none(hay: Seq<u8>)
    requires
        forall|k: int| 0 <= k < hay.len() ==> !is_ws(#[trigger] hay[k]),
    ensures
        after_last_ws(hay) == hay,
    decreases hay.len(),
{
    if hay.len() > 0 {
        lemma_after_last_ws_none(hay.drop_last());
        assert(after_last_ws(hay) =~= hay);
    }
}

proof fn lemma_after_last_ws_at(hay: Seq<u8>, i: int)
    requires
        0 <= i < hay.len(),
        is_ws(hay[i]),
        forall|k: int| i < k < hay.len() ==> !is_ws(#[trigger] hay[k]),
    ensures
        after_last_ws(hay) == hay.subrange(i + 1, hay.len() as int),
    decreases hay.len(),
{
    if i == hay.len() - 1 {
        assert(after_last_ws(hay) =~= hay.subrange(i + 1, hay.len() as int));
    } else {
        lemma_after_last_ws_at(hay.drop_last(), i);
        assert(hay.drop_last().subrange(i + 1, hay.len() - 1) =~= hay.subrange(
            i + 1,
            hay.len() - 1,
        ));
        assert(after_last_ws(hay) =~= hay.subrange(i + 1, hay.len() as int));
    }
}

proof fn lemma_leading_ws_det(hay: Seq<u8>, lo: int)
    requires
        0 <= lo <= hay.len(),
        forall|k: int| 0 <= k < lo ==> is_ws(#[trigger] hay[k]),
        lo == hay.len() || !is_ws(hay[lo]),
    ensures
        leading_ws(hay) == lo,
    decreases hay.len(),
{
    if hay.len() > 0 && is_ws(hay[0]) {
        assert(lo >= 1);
        lemma_leading_ws_det(hay.skip(1), lo - 1);
    }
}

proof fn lemma_trailing_ws_det(hay: Seq<u8>, hi: int)
    requires
        0 <= hi <= hay.len(),
        forall|k: int| hi <= k < hay.len() ==> is_ws(#[trigger] hay[k]),
        hi == 0 || !is_ws(hay[hi - 1]),
    ensures
        trailing_ws(hay) == hay.len() - hi,
    decreases hay.len(),
{
    if hay.len() > 0 && is_ws(hay.last()) {
        assert(hi < hay.len());
        lemma_trailing_ws_det(hay.drop_last(), hi);
    }
}

/// A fresh copy of the bytes of `hay` from `lo` (inclusive) to `hi` (exclusive).
pub fn subrange_vec(hay: &Vec<u8>, lo: usize, hi: usize) -> (r: Vec<u8>)
    requires
        lo <= hi <= hay@.len(),
    ensures
        r@ == hay@.subrange(lo as int, hi as int),
{
    let mut out: Vec<u8> = Vec::new();
    let mut i: usize = lo;
    while i < hi
        invariant
            lo <= i <= hi <= hay@.len(),
            out@ == hay@.subrange(lo as int, i as int),
        decreases hi - i,
    {
        out.push(hay[i]);
        proof {
            assert(out@ =~= hay@.subrange(lo as int, i + 1));
        }
        i += 1;
    }
    out
}

/// The suffix of `hay` after the last occurrence of the byte `sep`.
pub fn after_last(hay: &Vec<u8>, sep: u8) -> (r: Vec<u8>)
    ensures
        r@ == after_last_byte(hay@, sep),
{
    let mut j: usize = hay.len();
    while j > 0
        invariant
            j <= hay@.len(),
            forall|k: int| j <= k < hay@.len() ==> hay@[k] != sep,
        decreases j,
    {
        if hay[j - 1] == sep {
            proof {
                lemma_after_last_byte_at(hay@, sep, j - 1);
            }
            return subrange_vec(hay, j, hay.len());
        }
        j -= 1;
    }
    proof {
        lemma_after_last_byte_none(hay@, sep);
    }
    subrange_vec(hay, 0, hay.len())
}

/// The suffix of `hay` after the last whitespace byte.
pub fn after_last_ws_vec(hay: &Vec<u8>) -> (r: Vec<u8>)
    ensures
        r@ == after_last_ws(hay@),
{
    let mut j: usize = hay.len();
    while j > 0
        invariant
            j <= hay@.len(),
            forall|k: int| j <= k < hay@.len() ==> !is_ws(#[trigger] hay@[k]),
        decreases j,
    {
        if ws_byte(hay[j - 1]) {
            proof {
                lemma_after_last_ws_at(hay@, j - 1);
            }
            return subrange_vec(hay, j, hay.len());
        }
        j -= 1;
    }
    proof {
        lemma_after_last_ws_none(hay@);
    }
    subrange_vec(hay, 0, hay.len())
}

/// Whether `b` is an ASCII whitespace byte.
pub fn ws_byte(b: u8) -> (r: bool)
    ensures
        r == is_ws(b),
{
    b == 32 || b == 9 || b == 13 || b == 10
}

/// `hay` with leading and trailing whitespace removed.
pub fn trim(hay: &Vec<u8>) -> (r: Vec<u8>)
    ensures
        r@ == trimmed(hay@),
{
    let mut lo: usize = 0;
    while lo < hay.len() && ws_byte(hay[lo])
        invariant
            lo <= hay@.len(),
            forall|k: int| 0 <= k < lo ==> is_ws(#[trigger] hay@[k]),
        decreases hay@.len() - lo,
    {
        lo += 1;
    }
    proof {
        lemma_leading_ws_det(hay@, lo as int);
    }
    if lo == hay.len() {
        return Vec::new();
    }
    let mut hi: usize = hay.len();
    while hi > lo && ws_byte(hay[hi - 1])
        invariant
            lo <= hi <= hay@.len(),
            forall|k: int| hi <= k < hay@.len() ==> is_ws(#[trigger] hay@[k]),
        decreases hi,
    {
        hi -= 1;
    }
    proof {
        assert(!is_ws(hay@[lo as int]));
        assert(hi > lo);
        lemma_trailing_ws_det(hay@, hi as int);
    }
    subrange_vec(hay, lo, hi)
}

/// `hay` with every occurrence of the bytes `b1`, `b2` and `b3` removed.
pub fn strip_bytes(hay: &Vec<u8>, b1: u8, b2: u8, b3: u8) -> (r: Vec<u8>)
    ensures
        r@ == without_bytes(hay@, b1, b2, b3),
{
    let mut out: Vec<u8> = Vec::new();
    let mut i: usize = 0;
    while i < hay.len()
        invariant
            i <= hay@.len(),
            out@ == without_bytes(hay@.subrange(0, i as int), b1, b2, b3),
        decreases hay@.len() - i,
    {
        let b = hay[i];
        proof {
            assert(hay@.subrange(0, i + 1).drop_last() =~= hay@.subrange(0, i as int));
            assert(hay@.subrange(0, i + 1).last() == hay@[i as int]);
        }
        if !(b == b1 || b == b2 || b == b3) {
            out.push(b);
        }
        i += 1;
    }
    proof {
        assert(hay@.subrange(0, hay@.len() as int) =~= hay@);
    }
    out
}

/// Whether `hay` ends with `suffix`.
pub fn ends_with(hay: &Vec<u8>, suffix: &Vec<u8>) -> (r: bool)
    ensures
        r == ends_with_seq(hay@, suffix@),
{
    if suffix.len() > hay.len() {
        return false;
    }
    match_at_exec(hay, suffix, hay.len() - suffix.len())
}

/// `dir`, a path separator, then `tail`: the path of `tail` inside `dir`.
pub fn join_path(dir: &Vec<u8>, tail: &Vec<u8>) -> (r: Vec<u8>)
    ensures
        r@ == dir@ + seq![47u8] + tail@,
{
    let mut out: Vec<u8> = Vec::new();
    let mut i: usize = 0;
    while i < dir.len()
        invariant
            i <= dir@.len(),
            out@ == dir@.subrange(0, i as int),
        decreases dir@.len() - i,
    {
        out.push(dir[i]);
        proof {
            assert(out@ =~= dir@.subrange(0, i + 1));
        }
        i += 1;
    }
    proof {
        assert(dir@.subrange(0, dir@.len() as int) =~= dir@);
    }
    out.push(47);
    proof {
        assert(out@ =~= dir@ + seq![47u8] + Seq::<u8>::empty());
        assert(tail@.subrange(0, 0) =~= Seq::<u8>::empty());
    }
    let mut j: usize = 0;
    while j < tail.len()
        invariant
            j <= tail@.len(),
            out@ == dir@ + seq![47u8] + tail@.subrange(0, j as int),
        decreases tail@.len() - j,
    {
        out.push(tail[j]);
        proof {
            assert(out@ =~= dir@ + seq![47u8] + tail@.subrange(0, j + 1));
        }
        j += 1;
    }
    proof {
        assert(dir@.subrange(0, dir@.len() as int) =~= dir@);
        assert(tail@.subrange(0, tail@.len() as int) =~= tail@);
        assert(out@ =~= dir@ + seq![47u8] + tail@);
    }
    out
}

/// A fresh copy of `hay`.
pub fn copy_bytes(hay: &Vec<u8>) -> (r: Vec<u8>)
    ensures
        r@ == hay@,
{
    subrange_vec(hay, 0, hay.len())
}

/// Whether the two byte strings are equal.
pub fn bytes_eq(a: &Vec<u8>, b: &Vec<u8>) -> (r: bool)
    ensures
        r == (a@ == b@),
{
    if a.len() != b.len() {
        return false;
    }
    let r = match_at_exec(a, b, 0);
    proof {
        assert(a@.subrange(0, a@.len() as int) =~= a@);
    }
    r
}

/// A fresh copy of a list of byte strings.
pub fn copy_lines(v: &Vec<Vec<u8>>) -> (r: Vec<Vec<u8>>)
    ensures
        seq_views(r@) == seq_views(v@),
{
    let mut out: Vec<Vec<u8>> = Vec::new();
    let mut i: usize = 0;
    while i < v.len()
        invariant
            i <= v@.len(),
            seq_views(out@) == seq_views(v@).subrange(0, i as int),
        decreases v@.len() - i,
    {
        let line = copy_bytes(&v[i]);
        proof {
            lemma_seq_views_push(out@, line);
            assert(seq_views(out@).push(line@) =~= seq_views(v@).subrange(0, i + 1));
        }
        out.push(line);
        i += 1;
    }
    proof {
        assert(seq_views(v@).subrange(0, v@.len() as int) =~= seq_views(v@));
    }
    out
}

/// Whether the two lists of byte strings are equal, element for element.
pub fn lines_eq(a: &Vec<Vec<u8>>, b: &Vec<Vec<u8>>) -> (r: bool)
    ensures
        r == (seq_views(a@) == seq_views(b@)),
{
    if a.len() != b.len() {
        assert(seq_views(a@).len() != seq_views(b@).len());
        return false;
    }
    let mut i: usize = 0;
    while i < a.len()
        invariant
            a@.len() == b@.len(),
            i <= a@.len(),
            forall|k: int| 0 <= k < i ==> a@[k]@ == b@[k]@,
        decreases a@.len() - i,
    {
        if !bytes_eq(&a[i], &b[i]) {
            assert(seq_views(a@)[i as int] != seq_views(b@)[i as int]);
            return false;
        }
        i += 1;
    }
    proof {
        assert(seq_views(a@) =~= seq_views(b@));
    }
    true
}

/// Lexicographic order on byte strings: `a` is at or before `b`.
pub open spec fn lex_le(a: Seq<u8>, b: Seq<u8>) -> bool
    decreases a.len(),
{
    if a.len() == 0 {
        true
    } else if b.len() == 0 {
        false
    } else if a[0] < b[0] {
        true
    } else if a[0] > b[0] {
        false
    } else {
        lex_le(a.skip(1), b.skip(1))
    }
}

/// The lexicographic order relates every pair of byte strings one way or the other.
pub proof fn lemma_lex_le_total(a: Seq<u8>, b: Seq<u8>)
    ensures
        lex_le(a, b) || lex_le(b, a),
    decreases a.len(),
{
    if a.len() > 0 && b.len() > 0 && a[0] == b[0] {
        lemma_lex_le_total(a.skip(1), b.skip(1));
    }
}

/// The lexicographic order is transitive.
pub proof fn lemma_lex_le_trans(a: Seq<u8>, b: Seq<u8>, c: Seq<u8>)
    requires
        lex_le(a, b),
        lex_le(b, c),
    ensures
        lex_le(a, c),
    decreases a.len(),
{
    if a.len() > 0 && b.len() > 0 && c.len() > 0 && a[0] == b[0] && b[0] == c[0] {
        lemma_lex_le_trans(a.skip(1), b.skip(1), c.skip(1));
    }
}

/// Whether `a` is lexicographically at or before `b`.
pub fn lex_le_bytes(a: &Vec<u8>, b: &Vec<u8>) -> (r: bool)
    ensures
        r == lex_le(a@, b@),
{
    let mut i: usize = 0;
    proof {
        assert(a@.skip(0) =~= a@);
        assert(b@.skip(0) =~= b@);
    }
    loop
        invariant
            i <= a@.len(),
            i <= b@.len(),
            lex_le(a@, b@) == lex_le(a@.skip(i as int), b@.skip(i as int)),
        decreases a@.len() - i,
    {
        if i == a.len() {
            assert(a@.skip(i as int).len() == 0);
            return true;
        }
        if i == b.len() {
            assert(b@.skip(i as int).len() == 0);
            assert(a@.skip(i as int).len() > 0);
            return false;
        }
        let x = a[i];
        let y = b[i];
        assert(a@.skip(i as int)[0] == a@[i as int]);
        assert(b@.skip(i as int)[0] == b@[i as int]);
        if x < y {
            return true;
        }
        if x > y {
            return false;
        }
        proof {
            assert(a@.skip(i as int).skip(1) =~= a@.skip(i + 1));
            assert(b@.skip(i as int).skip(1) =~= b@.skip(i + 1));
        }
        i += 1;
    }
}

/// Whether the bytes starting at `i` in `hay` equal `needle`.
fn match_at_exec(hay: &Vec<u8>, needle: &Vec<u8>, i: usize) -> (r: bool)
    requires
        i + needle@.len() <= hay@.len(),
    ensures
        r == match_at(hay@, needle@, i as int),
{
    let hl = hay.len();
    let mut j: usize = 0;
    while j < needle.len()
        invariant
            i + needle@.len() <= hay@.len(),
            hl == hay@.len(),
            j <= needle@.len(),
            forall|k: int| 0 <= k < j ==> hay@[i + k] == needle@[k],
        decreases needle@.len() - j,
    {
        if hay[i + j] != needle[j] {
            assert(hay@.subrange(i as int, i + needle@.len())[j as int] != needle@[j as int]);
            return false;
        }
        j += 1;
    }
    assert(hay@.subrange(i as int, i + needle@.len()) =~= needle@);
    true
}

/// Whether `needle` occurs anywhere in `hay`.
pub fn contains_bytes(hay: &Vec<u8>, needle: &Vec<u8>) -> (r: bool)
    ensures
        r == contains_seq(hay@, needle@),
{
    if needle.len() > hay.len() {
        proof {
            assert forall|i: int| !match_at(hay@, needle@, i) by {}
        }
        return false;
    }
    let last = hay.len() - needle.len();
    let mut i: usize = 0;
    loop
        invariant
            needle@.len() <= hay@.len(),
            last == hay@.len() - needle@.len(),
            i <= last,
            forall|k: int| 0 <= k < i ==> !match_at(hay@, needle@, k),
        decreases last - i,
    {
        if match_at_exec(hay, needle, i) {
            return true;
        }
        if i == last {
            proof {
                assert forall|k: int| !match_at(hay@, needle@, k) by {
                    if 0 <= k < i {
                    } else if k >= 0 && k + needle@.len() <= hay@.len() {
                        assert(0 <= k <= i);
                    }
                }
            }
            return false;
        }
        i += 1;
    }
}

/// The position of the first occurrence of `needle` in `hay` at or after
/// `from`, if any.
pub fn find_bytes_from(hay: &Vec<u8>, needle: &Vec<u8>, from: usize) -> (r: Option<usize>)
    ensures
        match r {
            Some(i) => find_from(hay@, needle@, from as int) == Some(i as int) && from <= i
                && match_at(hay@, needle@, i as int),
            None => find_from(hay@, needle@, from as int) is None,
        },
{
    let mut i: usize = from;
    loop
        invariant
            from <= i,
            find_from(hay@, needle@, from as int) == find_from(hay@, needle@, i as int),
        decreases hay@.len() + 1 - i,
    {
        if needle.len() > hay.len() || i > hay.len() - needle.len() {
            return None;
        }
        if match_at_exec(hay, needle, i) {
            return Some(i);
        }
        if i == hay.len() - needle.len() {
            assert(find_from(hay@, needle@, i + 1) is None);
            return None;
        }
        i += 1;
    }
}

/// The position of the last occurrence of `needle` in `hay`, if any.
pub fn rfind_bytes(hay: &Vec<u8>, needle: &Vec<u8>) -> (r: Option<usize>)
    ensures
        match r {
            Some(i) => rfind_seq(hay@, needle@) == Some(i as int) && match_at(
                hay@,
                needle@,
                i as int,
            ),
            None => rfind_seq(hay@, needle@) is None,
        },
{
    if needle.len() > hay.len() {
        return None;
    }
    let mut i: usize = hay.len() - needle.len();
    loop
        invariant
            needle@.len() <= hay@.len(),
            i + needle@.len() <= hay@.len(),
            rfind_seq(hay@, needle@) == rfind_to(hay@, needle@, i as int),
        decreases i,
    {
        if match_at_exec(hay, needle, i) {
            return Some(i);
        }
        if i == 0 {
            proof {
                assert(rfind_to(hay@, needle@, -1) is None);
                assert(rfind_to(hay@, needle@, 0) is None);
            }
            return None;
        }
        proof {
            assert(rfind_to(hay@, needle@, i as int) == rfind_to(hay@, needle@, i - 1));
        }
        i -= 1;
    }
}

} // verus!
