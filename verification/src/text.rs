//! Text primitives over the characters of a string.
//!
//! Every function is stated over `Seq<char>`, the characters of its argument,
//! and returns slices of its argument where the result is a part of it.

use vstd::prelude::*;
use vstd::string::*;

verus! {

/// `String::push`: the character is appended at the end.
pub assume_specification[ String::push ](s: &mut String, c: char)
    ensures
        final(s)@ == old(s)@.push(c),
;

// ---------------------------------------------------------------------------
// Specification vocabulary
// ---------------------------------------------------------------------------

/// The characters of each of a sequence of string slices.
pub open spec fn slice_views(v: Seq<&str>) -> Seq<Seq<char>> {
    v.map_values(|s: &str| s@)
}

/// The characters of each of a sequence of owned strings.
pub open spec fn string_views(v: Seq<String>) -> Seq<Seq<char>> {
    v.map_values(|s: String| s@)
}

/// The characters of an optional owned string.
pub open spec fn opt_view(o: Option<String>) -> Option<Seq<char>> {
    match o {
        Some(s) => Some(s@),
        None => None,
    }
}

/// The characters of an optional string slice.
pub open spec fn opt_slice_view(o: Option<&str>) -> Option<Seq<char>> {
    match o {
        Some(s) => Some(s@),
        None => None,
    }
}

/// The Unicode `White_Space` property.
pub open spec fn is_space(c: char) -> bool {
    ||| '\u{9}' <= c <= '\u{d}'
    ||| c == ' '
    ||| c == '\u{85}'
    ||| c == '\u{a0}'
    ||| c == '\u{1680}'
    ||| '\u{2000}' <= c <= '\u{200a}'
    ||| c == '\u{2028}'
    ||| c == '\u{2029}'
    ||| c == '\u{202f}'
    ||| c == '\u{205f}'
    ||| c == '\u{3000}'
}

/// The predicate [`is_space`].
pub open spec fn space() -> spec_fn(char) -> bool {
    |c: char| is_space(c)
}

/// The predicate "not white space".
pub open spec fn non_space() -> spec_fn(char) -> bool {
    |c: char| !is_space(c)
}

/// The predicate "is `x`".
pub open spec fn is_char(x: char) -> spec_fn(char) -> bool {
    |c: char| c == x
}

/// The predicate "is not `x`".
pub open spec fn not_char(x: char) -> spec_fn(char) -> bool {
    |c: char| c != x
}

/// How many characters at the start of `s` satisfy `p` without a break.
pub open spec fn lead(s: Seq<char>, p: spec_fn(char) -> bool) -> int
    decreases s.len(),
{
    if s.len() > 0 && p(s[0]) {
        1 + lead(s.skip(1), p)
    } else {
        0
    }
}

/// How many characters at the end of `s` satisfy `p` without a break.
pub open spec fn trail(s: Seq<char>, p: spec_fn(char) -> bool) -> int
    decreases s.len(),
{
    if s.len() > 0 && p(s.last()) {
        1 + trail(s.drop_last(), p)
    } else {
        0
    }
}

/// `s` without the white space at its start.
pub open spec fn trimmed_start(s: Seq<char>) -> Seq<char> {
    s.skip(lead(s, space()))
}

/// `s` without the white space at its end.
pub open spec fn trimmed_end(s: Seq<char>) -> Seq<char> {
    s.take(s.len() - trail(s, space()))
}

/// `s` without the white space at either end.
pub open spec fn trimmed(s: Seq<char>) -> Seq<char> {
    trimmed_end(trimmed_start(s))
}

/// The parts of `s` before and after its first `c`.
pub open spec fn cut_first(s: Seq<char>, c: char) -> Option<(Seq<char>, Seq<char>)> {
    let k = lead(s, not_char(c));
    if k < s.len() {
        Some((s.take(k), s.skip(k + 1)))
    } else {
        None
    }
}

/// The parts of `s` before and after its last `c`.
pub open spec fn cut_last(s: Seq<char>, c: char) -> Option<(Seq<char>, Seq<char>)> {
    let k = trail(s, not_char(c));
    if k < s.len() {
        Some((s.take(s.len() - k - 1), s.skip(s.len() - k)))
    } else {
        None
    }
}

/// The part of `s` before its first `c`, or all of it.
pub open spec fn before_first(s: Seq<char>, c: char) -> Seq<char> {
    s.take(lead(s, not_char(c)))
}

/// The part of `s` after its last `c`, or all of it.
pub open spec fn after_last(s: Seq<char>, c: char) -> Seq<char> {
    s.skip(s.len() - trail(s, not_char(c)))
}

/// The pieces of `s` between the occurrences of `c`; never empty.
pub open spec fn pieces(s: Seq<char>, c: char) -> Seq<Seq<char>>
    decreases s.len(),
{
    let k = lead(s, not_char(c));
    if 0 <= k < s.len() {
        seq![s.take(k)] + pieces(s.skip(k + 1), c)
    } else {
        seq![s]
    }
}

/// The maximal runs of non-white-space characters of `s`, in order.
pub open spec fn word_seq(s: Seq<char>) -> Seq<Seq<char>>
    decreases s.len(),
{
    let t = trimmed_start(s);
    let k = lead(t, non_space());
    if 0 < k <= t.len() <= s.len() {
        seq![t.take(k)] + word_seq(t.skip(k))
    } else {
        Seq::empty()
    }
}

/// Whether `needle` stands in `s` at position `i`.
pub open spec fn stands_at(s: Seq<char>, needle: Seq<char>, i: int) -> bool {
    &&& 0 <= i
    &&& i + needle.len() <= s.len()
    &&& s.subrange(i, i + needle.len()) == needle
}

/// Whether `needle` stands anywhere in `s`.
pub open spec fn has_part(s: Seq<char>, needle: Seq<char>) -> bool {
    exists|i: int| stands_at(s, needle, i)
}

/// The first position at which `needle` stands in `s`.
pub open spec fn find_at(s: Seq<char>, needle: Seq<char>) -> Option<int>
    decreases s.len(),
{
    if needle.is_prefix_of(s) {
        Some(0)
    } else if s.len() == 0 {
        None
    } else {
        match find_at(s.skip(1), needle) {
            Some(i) => Some(i + 1),
            None => None,
        }
    }
}

/// The parts of `s` before and after the first occurrence of `sep`.
pub open spec fn cut_on(s: Seq<char>, sep: Seq<char>) -> Option<(Seq<char>, Seq<char>)> {
    match find_at(s, sep) {
        Some(i) => Some((s.take(i), s.skip(i + sep.len()))),
        None => None,
    }
}

/// ASCII lower case of one character.
pub open spec fn lower(c: char) -> char {
    if 'A' <= c <= 'Z' {
        (c as u32 + 32) as char
    } else {
        c
    }
}

/// ASCII lower case of every character.
pub open spec fn lowered(s: Seq<char>) -> Seq<char> {
    s.map_values(|c: char| lower(c))
}

/// Equality up to ASCII case.
pub open spec fn same_ignoring_case(a: Seq<char>, b: Seq<char>) -> bool {
    lowered(a) == lowered(b)
}

/// The items of `list` with `sep` between neighbours.
pub open spec fn joined(list: Seq<Seq<char>>, sep: Seq<char>) -> Seq<char>
    decreases list.len(),
{
    if list.len() == 0 {
        Seq::empty()
    } else if list.len() == 1 {
        list[0]
    } else {
        joined(list.drop_last(), sep) + sep + list.last()
    }
}

// ---------------------------------------------------------------------------
// Facts about the vocabulary
// ---------------------------------------------------------------------------

/// `lead` counts exactly the unbroken run at the start.
pub proof fn lemma_lead(s: Seq<char>, p: spec_fn(char) -> bool)
    ensures
        0 <= lead(s, p) <= s.len(),
        forall|j: int| 0 <= j < lead(s, p) ==> p(#[trigger] s[j]),
        lead(s, p) < s.len() ==> !p(s[lead(s, p)]),
    decreases s.len(),
{
    if s.len() > 0 && p(s[0]) {
        let t = s.skip(1);
        lemma_lead(t, p);
        assert forall|j: int| 0 <= j < lead(s, p) implies p(#[trigger] s[j]) by {
            if j > 0 {
                assert(t[j - 1] == s[j]);
            }
        }
        if lead(s, p) < s.len() {
            assert(t[lead(t, p)] == s[lead(s, p)]);
        }
    }
}

/// The one number that has the properties of [`lemma_lead`].
pub proof fn lemma_lead_is(s: Seq<char>, p: spec_fn(char) -> bool, k: int)
    requires
        0 <= k <= s.len(),
        forall|j: int| 0 <= j < k ==> p(#[trigger] s[j]),
        k < s.len() ==> !p(s[k]),
    ensures
        lead(s, p) == k,
{
    lemma_lead(s, p);
    let m = lead(s, p);
    if m < k {
        assert(p(s[m]));
    } else if k < m {
        assert(p(s[k]));
    }
}

/// `trail` counts exactly the unbroken run at the end.
pub proof fn lemma_trail(s: Seq<char>, p: spec_fn(char) -> bool)
    ensures
        0 <= trail(s, p) <= s.len(),
        forall|j: int| s.len() - trail(s, p) <= j < s.len() ==> p(#[trigger] s[j]),
        trail(s, p) < s.len() ==> !p(s[s.len() - trail(s, p) - 1]),
    decreases s.len(),
{
    if s.len() > 0 && p(s.last()) {
        let t = s.drop_last();
        lemma_trail(t, p);
        assert forall|j: int| s.len() - trail(s, p) <= j < s.len() implies p(#[trigger] s[j]) by {
            if j < s.len() - 1 {
                assert(t[j] == s[j]);
            }
        }
    }
}

/// The one number that has the properties of [`lemma_trail`].
pub proof fn lemma_trail_is(s: Seq<char>, p: spec_fn(char) -> bool, k: int)
    requires
        0 <= k <= s.len(),
        forall|j: int| s.len() - k <= j < s.len() ==> p(#[trigger] s[j]),
        k < s.len() ==> !p(s[s.len() - k - 1]),
    ensures
        trail(s, p) == k,
{
    lemma_trail(s, p);
    let m = trail(s, p);
    if m < k {
        assert(p(s[s.len() - m - 1]));
    } else if k < m {
        assert(p(s[s.len() - k - 1]));
    }
}

/// `find_at` gives the first position at which the text stands, if any.
pub proof fn lemma_find_at(s: Seq<char>, needle: Seq<char>)
    ensures
        match find_at(s, needle) {
            Some(i) => stands_at(s, needle, i) && forall|j: int|
                0 <= j < i ==> !stands_at(s, needle, j),
            None => !has_part(s, needle),
        },
    decreases s.len(),
{
    assert(needle.is_prefix_of(s) == stands_at(s, needle, 0));
    if !needle.is_prefix_of(s) && s.len() > 0 {
        let t = s.skip(1);
        lemma_find_at(t, needle);
        assert forall|j: int| 1 <= j implies stands_at(s, needle, j) == stands_at(t, needle, j - 1) by {
            if j + needle.len() <= s.len() {
                assert(s.subrange(j, j + needle.len()) =~= t.subrange(j - 1, j - 1 + needle.len()));
            }
        }
        match find_at(t, needle) {
            Some(i) => {
                assert(stands_at(s, needle, i + 1));
            },
            None => {
                assert forall|j: int| !stands_at(s, needle, j) by {
                    if j >= 1 {
                        assert(!stands_at(t, needle, j - 1));
                    }
                }
            },
        }
    }
}

/// Where a needle stands and does not stand before, there it is found.
pub proof fn lemma_find_at_is(s: Seq<char>, needle: Seq<char>, p: int)
    requires
        stands_at(s, needle, p),
        forall|j: int| 0 <= j < p ==> !stands_at(s, needle, j),
    ensures
        find_at(s, needle) == Some(p),
{
    lemma_find_at(s, needle);
}

/// Trimming leaves alone what neither starts nor ends with white space.
pub proof fn lemma_trimmed_id(s: Seq<char>)
    requires
        s.len() > 0 ==> !is_space(s[0]) && !is_space(s.last()),
    ensures
        trimmed(s) == s,
{
    lemma_lead_is(s, space(), 0);
    assert(s.skip(0) =~= s);
    lemma_trail_is(s, space(), 0);
    assert(s.take(s.len() as int) =~= s);
}

/// A cut at the first `c` of `a + [c] + b`, where `a` has no `c`.
pub proof fn lemma_cut_first_at(a: Seq<char>, c: char, b: Seq<char>)
    requires
        !a.contains(c),
    ensures
        cut_first(a.push(c) + b, c) == Some((a, b)),
{
    let s = a.push(c) + b;
    assert forall|j: int| 0 <= j < a.len() implies not_char(c)(#[trigger] s[j]) by {
        assert(s[j] == a[j]);
        assert(a.contains(a[j]));
    }
    assert(s[a.len() as int] == c);
    lemma_lead_is(s, not_char(c), a.len() as int);
    assert(s.take(a.len() as int) =~= a);
    assert(s.skip(a.len() as int + 1) =~= b);
}

/// The first piece of `a + [c] + b`, where `a` has no `c`, is `a`.
pub proof fn lemma_pieces_at(a: Seq<char>, c: char, b: Seq<char>)
    requires
        !a.contains(c),
    ensures
        pieces(a.push(c) + b, c) == seq![a] + pieces(b, c),
{
    lemma_cut_first_at(a, c, b);
    let s = a.push(c) + b;
    lemma_lead(s, not_char(c));
    reveal_with_fuel(pieces, 2);
}

/// A text without `c` is its own only piece.
pub proof fn lemma_pieces_none(a: Seq<char>, c: char)
    requires
        !a.contains(c),
    ensures
        pieces(a, c) == seq![a],
{
    assert forall|j: int| 0 <= j < a.len() implies not_char(c)(#[trigger] a[j]) by {
        assert(a.contains(a[j]));
    }
    lemma_lead_is(a, not_char(c), a.len() as int);
}

/// UTF-8 of a concatenation is the concatenation of the encodings.
pub proof fn lemma_encode_concat(a: Seq<char>, b: Seq<char>)
    ensures
        vstd::utf8::encode_utf8(a + b) == vstd::utf8::encode_utf8(a) + vstd::utf8::encode_utf8(b),
    decreases a.len(),
{
    if a.len() == 0 {
        assert(a + b =~= b);
        assert(vstd::utf8::encode_utf8(a) =~= Seq::<u8>::empty());
        assert(vstd::utf8::encode_utf8(a) + vstd::utf8::encode_utf8(b)
            =~= vstd::utf8::encode_utf8(b));
    } else {
        assert((a + b).drop_first() =~= a.drop_first() + b);
        lemma_encode_concat(a.drop_first(), b);
        assert(vstd::utf8::encode_utf8(a + b) =~= vstd::utf8::encode_utf8(a)
            + vstd::utf8::encode_utf8(b));
    }
}

// ---------------------------------------------------------------------------
// Executable operations
// ---------------------------------------------------------------------------

/// The characters of `s`, in order.
pub fn chars_of(s: &str) -> (v: Vec<char>)
    ensures
        v@ == s@,
{
    let mut v: Vec<char> = Vec::new();
    for c in it: s.chars()
        invariant
            v@ == it.seq().take(it.index()),
            it.seq() == s@,
    {
        v.push(c);
    }
    v
}

/// Whether two strings hold the same characters.
pub fn same(a: &str, b: &str) -> (r: bool)
    ensures
        r == (a@ == b@),
{
    let x = chars_of(a);
    let y = chars_of(b);
    if x.len() != y.len() {
        return false;
    }
    let mut i: usize = 0;
    while i < x.len()
        invariant
            i <= x.len(),
            x.len() == y.len(),
            x@ == a@,
            y@ == b@,
            forall|j: int| 0 <= j < i ==> x[j] == y[j],
        decreases x.len() - i,
    {
        if x[i] != y[i] {
            return false;
        }
        i += 1;
    }
    proof {
        assert(x@ =~= y@);
    }
    true
}

/// Whether a character is white space.
pub fn space_char(c: char) -> (r: bool)
    ensures
        r == is_space(c),
{
    ('\u{9}' <= c && c <= '\u{d}') || c == ' ' || c == '\u{85}' || c == '\u{a0}' || c == '\u{1680}'
        || ('\u{2000}' <= c && c <= '\u{200a}') || c == '\u{2028}' || c == '\u{2029}' || c
        == '\u{202f}' || c == '\u{205f}' || c == '\u{3000}'
}

/// How many characters at the start of `v`, from `from` on, are white space.
fn skip_space(v: &Vec<char>, from: usize) -> (k: usize)
    requires
        from <= v.len(),
    ensures
        from <= k <= v.len(),
        k == from + lead(v@.skip(from as int), space()),
{
    let ghost t = v@.skip(from as int);
    let mut k: usize = from;
    while k < v.len() && space_char(v[k])
        invariant
            from <= k <= v.len(),
            t == v@.skip(from as int),
            forall|j: int| 0 <= j < k - from ==> space()(#[trigger] t[j]),
        decreases v.len() - k,
    {
        proof {
            assert(t[k - from] == v[k as int]);
        }
        k += 1;
    }
    proof {
        if k < v.len() {
            assert(t[k - from] == v[k as int]);
        }
        lemma_lead_is(t, space(), k - from);
    }
    k
}

/// The position of the first `c` at or after `from`, or the length.
fn find_from(v: &Vec<char>, c: char, from: usize) -> (k: usize)
    requires
        from <= v.len(),
    ensures
        from <= k <= v.len(),
        k == from + lead(v@.skip(from as int), not_char(c)),
{
    let ghost t = v@.skip(from as int);
    let mut k: usize = from;
    while k < v.len() && v[k] != c
        invariant
            from <= k <= v.len(),
            t == v@.skip(from as int),
            forall|j: int| 0 <= j < k - from ==> not_char(c)(#[trigger] t[j]),
        decreases v.len() - k,
    {
        proof {
            assert(t[k - from] == v[k as int]);
        }
        k += 1;
    }
    proof {
        if k < v.len() {
            assert(t[k - from] == v[k as int]);
        }
        lemma_lead_is(t, not_char(c), k - from);
    }
    k
}

/// `s` without the white space at either end.
pub fn trim(s: &str) -> (r: &str)
    ensures
        r@ == trimmed(s@),
{
    let v = chars_of(s);
    let a = skip_space(&v, 0);
    proof {
        assert(s@.skip(0) =~= s@);
    }
    let ghost t = s@.skip(a as int);
    let mut b: usize = v.len();
    while b > a && space_char(v[b - 1])
        invariant
            a <= b <= v.len(),
            v@ == s@,
            t == s@.skip(a as int),
            forall|j: int| b - a <= j < t.len() ==> space()(#[trigger] t[j]),
        decreases b,
    {
        proof {
            assert(t[b - 1 - a] == v[b - 1]);
        }
        b -= 1;
    }
    proof {
        if b > a {
            assert(t[b - 1 - a] == v[b - 1]);
        }
        lemma_trail_is(t, space(), v.len() - b);
        assert(t.take(b - a) =~= s@.subrange(a as int, b as int));
    }
    s.substring_char(a, b)
}

/// The parts of `s` before and after its first `c`.
pub fn split_once(s: &str, c: char) -> (r: Option<(&str, &str)>)
    ensures
        match r {
            Some((a, b)) => cut_first(s@, c) == Some((a@, b@)),
            None => cut_first(s@, c) is None,
        },
{
    let v = chars_of(s);
    let k = find_from(&v, c, 0);
    proof {
        assert(s@.skip(0) =~= s@);
    }
    if k < v.len() {
        proof {
            assert(s@.subrange(0, k as int) =~= s@.take(k as int));
            assert(s@.subrange(k + 1, s@.len() as int) =~= s@.skip(k + 1));
        }
        Some((s.substring_char(0, k), s.substring_char(k + 1, v.len())))
    } else {
        None
    }
}

/// The parts of `s` before and after its last `c`.
pub fn rsplit_once(s: &str, c: char) -> (r: Option<(&str, &str)>)
    ensures
        match r {
            Some((a, b)) => cut_last(s@, c) == Some((a@, b@)),
            None => cut_last(s@, c) is None,
        },
{
    let v = chars_of(s);
    let mut k: usize = v.len();
    while k > 0 && v[k - 1] != c
        invariant
            k <= v.len(),
            v@ == s@,
            forall|j: int| k <= j < s@.len() ==> not_char(c)(#[trigger] s@[j]),
        decreases k,
    {
        k -= 1;
    }
    proof {
        lemma_trail_is(s@, not_char(c), v.len() - k);
    }
    if k > 0 {
        proof {
            assert(s@.subrange(0, k - 1) =~= s@.take(k - 1));
            assert(s@.subrange(k as int, s@.len() as int) =~= s@.skip(k as int));
        }
        Some((s.substring_char(0, k - 1), s.substring_char(k, v.len())))
    } else {
        None
    }
}

/// The part of `s` before its first `c`, or all of it.
pub fn until(s: &str, c: char) -> (r: &str)
    ensures
        r@ == before_first(s@, c),
{
    let v = chars_of(s);
    let k = find_from(&v, c, 0);
    proof {
        assert(s@.skip(0) =~= s@);
        assert(s@.subrange(0, k as int) =~= s@.take(k as int));
    }
    s.substring_char(0, k)
}

/// The part of `s` after its last `c`, or all of it.
pub fn behind(s: &str, c: char) -> (r: &str)
    ensures
        r@ == after_last(s@, c),
{
    let v = chars_of(s);
    let mut k: usize = v.len();
    while k > 0 && v[k - 1] != c
        invariant
            k <= v.len(),
            v@ == s@,
            forall|j: int| k <= j < s@.len() ==> not_char(c)(#[trigger] s@[j]),
        decreases k,
    {
        k -= 1;
    }
    proof {
        lemma_trail_is(s@, not_char(c), v.len() - k);
        assert(s@.subrange(k as int, s@.len() as int) =~= s@.skip(k as int));
    }
    s.substring_char(k, v.len())
}

/// The pieces of `s` between the occurrences of `c`.
pub fn split(s: &str, c: char) -> (r: Vec<&str>)
    ensures
        slice_views(r@) == pieces(s@, c),
        r.len() > 0,
{
    let v = chars_of(s);
    let mut out: Vec<&str> = Vec::new();
    let mut start: usize = 0;
    proof {
        assert(s@.skip(0) =~= s@);
        assert(slice_views(out@) + pieces(s@.skip(0), c) =~= pieces(s@, c));
    }
    loop
        invariant
            start <= v.len(),
            v@ == s@,
            slice_views(out@) + pieces(s@.skip(start as int), c) == pieces(s@, c),
        decreases v.len() - start,
    {
        let k = find_from(&v, c, start);
        let ghost t = s@.skip(start as int);
        let ghost before = slice_views(out@);
        let piece = s.substring_char(start, k);
        out.push(piece);
        proof {
            assert(piece@ =~= t.take(k - start));
            assert(slice_views(out@) =~= before.push(piece@));
        }
        if k < v.len() {
            proof {
                assert(t.skip(k - start + 1) =~= s@.skip(k + 1));
                assert(before + pieces(t, c) =~= before.push(piece@) + pieces(s@.skip(k + 1), c));
            }
            start = k + 1;
        } else {
            proof {
                assert(t.take(k - start) =~= t);
                assert(before + pieces(t, c) =~= before.push(piece@));
            }
            return out;
        }
    }
}

/// The maximal runs of non-white-space characters of `s`.
pub fn words(s: &str) -> (r: Vec<&str>)
    ensures
        slice_views(r@) == word_seq(s@),
{
    let v = chars_of(s);
    let mut out: Vec<&str> = Vec::new();
    let mut start: usize = 0;
    proof {
        assert(s@.skip(0) =~= s@);
        assert(slice_views(out@) + word_seq(s@.skip(0)) =~= word_seq(s@));
    }
    loop
        invariant
            start <= v.len(),
            v@ == s@,
            slice_views(out@) + word_seq(s@.skip(start as int)) == word_seq(s@),
        decreases v.len() - start,
    {
        let ghost t0 = s@.skip(start as int);
        let a = skip_space(&v, start);
        let ghost t = s@.skip(a as int);
        proof {
            lemma_lead(t0, space());
            assert(trimmed_start(t0) =~= t);
        }
        let mut k: usize = a;
        while k < v.len() && !space_char(v[k])
            invariant
                a <= k <= v.len(),
                v@ == s@,
                t == s@.skip(a as int),
                forall|j: int| 0 <= j < k - a ==> non_space()(#[trigger] t[j]),
            decreases v.len() - k,
        {
            proof {
                assert(t[k - a] == v[k as int]);
            }
            k += 1;
        }
        proof {
            if k < v.len() {
                assert(t[k - a] == v[k as int]);
            }
            lemma_lead_is(t, non_space(), k - a);
        }
        if k == a {
            proof {
                assert(word_seq(t0) =~= Seq::empty());
                assert(slice_views(out@) =~= word_seq(s@));
            }
            return out;
        }
        let ghost before = slice_views(out@);
        let word = s.substring_char(a, k);
        out.push(word);
        proof {
            assert(word@ =~= t.take(k - a));
            assert(slice_views(out@) =~= before.push(word@));
            assert(t.skip(k - a) =~= s@.skip(k as int));
            assert(before + word_seq(t0) =~= before.push(word@) + word_seq(s@.skip(k as int)));
        }
        start = k;
    }
}

/// Whether `needle` stands in `v` at `i`.
fn matches_at(v: &Vec<char>, needle: &Vec<char>, i: usize) -> (r: bool)
    requires
        i <= v.len(),
    ensures
        r == stands_at(v@, needle@, i as int),
{
    if v.len() - i < needle.len() {
        return false;
    }
    let mut j: usize = 0;
    while j < needle.len()
        invariant
            i + needle.len() <= v.len(),
            j <= needle.len(),
            forall|k: int| 0 <= k < j ==> v[i + k] == needle[k],
        decreases needle.len() - j,
    {
        if v[i + j] != needle[j] {
            proof {
                assert(v@.subrange(i as int, i + needle.len())[j as int] != needle[j as int]);
            }
            return false;
        }
        j += 1;
    }
    proof {
        assert(v@.subrange(i as int, i + needle.len()) =~= needle@);
    }
    true
}

/// Whether `s` starts with `prefix`.
pub fn starts_with(s: &str, prefix: &str) -> (r: bool)
    ensures
        r == prefix@.is_prefix_of(s@),
{
    let v = chars_of(s);
    let n = chars_of(prefix);
    matches_at(&v, &n, 0)
}

/// `s` without `prefix` at its start, if it starts with it.
pub fn strip_prefix<'a>(s: &'a str, prefix: &str) -> (r: Option<&'a str>)
    ensures
        match r {
            Some(rest) => prefix@.is_prefix_of(s@) && rest@ == s@.skip(prefix@.len() as int),
            None => !prefix@.is_prefix_of(s@),
        },
{
    let v = chars_of(s);
    let n = chars_of(prefix);
    if matches_at(&v, &n, 0) {
        proof {
            assert(s@.subrange(n.len() as int, s@.len() as int) =~= s@.skip(n.len() as int));
        }
        Some(s.substring_char(n.len(), v.len()))
    } else {
        None
    }
}

/// The first position at which `needle` stands in `s`.
pub fn find(s: &str, needle: &str) -> (r: Option<usize>)
    ensures
        match r {
            Some(i) => find_at(s@, needle@) == Some(i as int) && i + needle@.len() <= s@.len(),
            None => find_at(s@, needle@) is None,
        },
{
    let v = chars_of(s);
    let n = chars_of(needle);
    proof {
        lemma_find_at(s@, needle@);
    }
    let mut i: usize = 0;
    loop
        invariant
            i <= v.len(),
            v@ == s@,
            n@ == needle@,
            forall|j: int| 0 <= j < i ==> !stands_at(s@, needle@, j),
            match find_at(s@, needle@) {
                Some(i) => stands_at(s@, needle@, i) && forall|j: int|
                    0 <= j < i ==> !stands_at(s@, needle@, j),
                None => !has_part(s@, needle@),
            },
        decreases v.len() - i,
    {
        if matches_at(&v, &n, i) {
            return Some(i);
        }
        if i == v.len() {
            return None;
        }
        i += 1;
    }
}

/// The parts of `s` before and after the first occurrence of `sep`.
pub fn split_on<'a>(s: &'a str, sep: &str) -> (r: Option<(&'a str, &'a str)>)
    ensures
        match r {
            Some((a, b)) => cut_on(s@, sep@) == Some((a@, b@)),
            None => cut_on(s@, sep@) is None,
        },
{
    match find(s, sep) {
        Some(i) => {
            let n: usize = s.unicode_len();
            let k: usize = sep.unicode_len();
            proof {
                assert(s@.subrange(0, i as int) =~= s@.take(i as int));
                assert(s@.subrange(i + k, n as int) =~= s@.skip(i + k));
            }
            Some((s.substring_char(0, i), s.substring_char(i + k, n)))
        },
        None => None,
    }
}

/// Whether `needle` stands anywhere in `s`.
pub fn contains(s: &str, needle: &str) -> (r: bool)
    ensures
        r == has_part(s@, needle@),
{
    proof {
        lemma_find_at(s@, needle@);
    }
    find(s, needle).is_some()
}

/// ASCII lower case of one character.
pub fn lower_char(c: char) -> (r: char)
    ensures
        r == lower(c),
{
    if 'A' <= c && c <= 'Z' {
        let b: u8 = (c as u32 + 32) as u8;
        b as char
    } else {
        c
    }
}

/// ASCII lower case of a string.
pub fn to_lower(s: &str) -> (r: String)
    ensures
        r@ == lowered(s@),
{
    let v = chars_of(s);
    let mut out = String::new();
    let mut i: usize = 0;
    while i < v.len()
        invariant
            i <= v.len(),
            v@ == s@,
            out@ == lowered(s@.take(i as int)),
        decreases v.len() - i,
    {
        out.push(lower_char(v[i]));
        proof {
            assert(lowered(s@.take(i + 1)) =~= lowered(s@.take(i as int)).push(lower(s@[i as int])));
        }
        i += 1;
    }
    proof {
        assert(s@.take(v.len() as int) =~= s@);
    }
    out
}

/// Equality up to ASCII case.
pub fn eq_ignore_case(a: &str, b: &str) -> (r: bool)
    ensures
        r == same_ignoring_case(a@, b@),
{
    let x = to_lower(a);
    let y = to_lower(b);
    same(x.as_str(), y.as_str())
}

/// `s` without the run of `c` at its end.
pub fn trim_end_char(s: &str, c: char) -> (r: &str)
    ensures
        r@ == s@.take(s@.len() - trail(s@, is_char(c))),
{
    let v = chars_of(s);
    let mut k: usize = v.len();
    while k > 0 && v[k - 1] == c
        invariant
            k <= v.len(),
            v@ == s@,
            forall|j: int| k <= j < s@.len() ==> is_char(c)(#[trigger] s@[j]),
        decreases k,
    {
        k -= 1;
    }
    proof {
        lemma_trail_is(s@, is_char(c), v.len() - k);
        assert(s@.subrange(0, k as int) =~= s@.take(k as int));
    }
    s.substring_char(0, k)
}

/// `s` without the run of `c` at its start.
pub fn trim_start_char(s: &str, c: char) -> (r: &str)
    ensures
        r@ == s@.skip(lead(s@, is_char(c))),
{
    let v = chars_of(s);
    let mut k: usize = 0;
    while k < v.len() && v[k] == c
        invariant
            k <= v.len(),
            v@ == s@,
            forall|j: int| 0 <= j < k ==> is_char(c)(#[trigger] s@[j]),
        decreases v.len() - k,
    {
        k += 1;
    }
    proof {
        lemma_lead_is(s@, is_char(c), k as int);
        assert(s@.subrange(k as int, s@.len() as int) =~= s@.skip(k as int));
    }
    s.substring_char(k, v.len())
}

/// A copy of a list of strings.
pub fn copy_list(list: &Vec<String>) -> (r: Vec<String>)
    ensures
        string_views(r@) == string_views(list@),
{
    let mut out: Vec<String> = Vec::new();
    let ghost all = string_views(list@);
    let mut i: usize = 0;
    while i < list.len()
        invariant
            i <= list.len(),
            all == string_views(list@),
            string_views(out@) == all.take(i as int),
        decreases list.len() - i,
    {
        let ghost before = string_views(out@);
        out.push(list[i].clone());
        proof {
            assert(string_views(out@) =~= before.push(list[i as int]@));
            assert(all.take(i + 1) =~= all.take(i as int).push(all[i as int]));
        }
        i += 1;
    }
    proof {
        assert(all.take(list.len() as int) =~= all);
    }
    out
}

/// A copy of an optional string.
pub fn copy_opt(s: &Option<String>) -> (r: Option<String>)
    ensures
        r == *s,
{
    match s {
        Some(x) => Some(x.clone()),
        None => None,
    }
}

/// The name that `format!("{:?}")` gives a string: quoted, with escapes.
pub uninterp spec fn debug_text(s: Seq<char>) -> Seq<char>;

/// The `Debug` form of a string, by `format!`: the text in double quotes, with
/// special characters escaped, as [`debug_text`] names it.
#[verifier::external_body]
pub(crate) fn quoted(s: &str) -> (r: String)
    ensures
        r@ == debug_text(s@),
{
    format!("{s:?}")
}

/// The items of `list` with `sep` between neighbours.
pub fn join(list: &Vec<String>, sep: &str) -> (r: String)
    ensures
        r@ == joined(string_views(list@), sep@),
{
    let mut out = String::new();
    let ghost all = string_views(list@);
    let mut i: usize = 0;
    while i < list.len()
        invariant
            i <= list.len(),
            all == string_views(list@),
            out@ == joined(all.take(i as int), sep@),
        decreases list.len() - i,
    {
        proof {
            assert(all.take(i + 1).drop_last() =~= all.take(i as int));
            assert(all.take(i + 1).last() == list[i as int]@);
        }
        if i > 0 {
            out.append(sep);
            out.append(list[i].as_str());
        } else {
            out.append(list[i].as_str());
            proof {
                assert(out@ =~= list[0]@);
            }
        }
        i += 1;
    }
    proof {
        assert(all.take(list.len() as int) =~= all);
    }
    out
}

// ---------------------------------------------------------------------------
// Laws
// ---------------------------------------------------------------------------

/// Trimming takes white space off either end, all of it and nothing else.
pub proof fn law_trimming_takes_white_space(s: Seq<char>)
    ensures
        exists|a: Seq<char>, b: Seq<char>| #[trigger]
            (a + trimmed(s) + b) == s && (forall|i: int|
                0 <= i < a.len() ==> is_space(#[trigger] a[i])) && (forall|i: int|
                0 <= i < b.len() ==> is_space(#[trigger] b[i])),
        trimmed(s).len() > 0 ==> !is_space(trimmed(s)[0]) && !is_space(trimmed(s).last()),
{
    lemma_lead(s, space());
    let k = lead(s, space());
    let t = trimmed_start(s);
    lemma_trail(t, space());
    let a = s.take(k);
    let n = t.len() - trail(t, space());
    let b = t.skip(n);
    assert(a + trimmed(s) + b =~= s);
    assert forall|i: int| 0 <= i < a.len() implies is_space(#[trigger] a[i]) by {
        assert(space()(s[i]));
    }
    assert forall|i: int| 0 <= i < b.len() implies is_space(#[trigger] b[i]) by {
        assert(space()(t[n + i]));
    }
    if trimmed(s).len() > 0 {
        assert(t[0] == s[k]);
        assert(!space()(s[k]));
        assert(!space()(t[n - 1]));
    }
}

/// A cut at the first or the last occurrence of a character leaves the parts on
/// its two sides; there is none exactly if the character does not occur.
pub proof fn law_cuts_split_at_the_character(s: Seq<char>, c: char)
    ensures
        match cut_first(s, c) {
            Some((a, b)) => s == a.push(c) + b && !a.contains(c),
            None => !s.contains(c),
        },
        match cut_last(s, c) {
            Some((a, b)) => s == a.push(c) + b && !b.contains(c),
            None => !s.contains(c),
        },
        before_first(s, c) == (match cut_first(s, c) {
            Some((a, _)) => a,
            None => s,
        }),
        after_last(s, c) == (match cut_last(s, c) {
            Some((_, b)) => b,
            None => s,
        }),
{
    let p = not_char(c);
    lemma_lead(s, p);
    lemma_trail(s, p);
    let k = lead(s, p);
    let m = s.len() - trail(s, p);
    if k < s.len() {
        let a = s.take(k);
        assert(s =~= a.push(c) + s.skip(k + 1));
        assert(!a.contains(c)) by {
            assert forall|j: int| 0 <= j < a.len() implies a[j] != c by {
                assert(p(s[j]));
            }
        }
    } else {
        assert forall|j: int| 0 <= j < s.len() implies s[j] != c by {
            assert(p(s[j]));
        }
        assert(s.take(k) =~= s);
    }
    if m > 0 {
        let b = s.skip(m);
        assert(s =~= s.take(m - 1).push(c) + b);
        assert(!b.contains(c)) by {
            assert forall|j: int| 0 <= j < b.len() implies b[j] != c by {
                assert(p(s[m + j]));
            }
        }
    } else {
        assert forall|j: int| 0 <= j < s.len() implies s[j] != c by {
            assert(p(s[j]));
        }
        assert(s.skip(m) =~= s);
    }
}

/// A cut on a text leaves the parts on the two sides of its first occurrence;
/// there is none exactly if it does not occur.
pub proof fn law_cut_on_splits_at_the_text(s: Seq<char>, sep: Seq<char>)
    ensures
        match cut_on(s, sep) {
            Some((a, b)) => s == a + sep + b && forall|i: int|
                0 <= i < a.len() ==> !sep.is_prefix_of(#[trigger] s.skip(i)),
            None => forall|i: int|
                0 <= i <= s.len() ==> !sep.is_prefix_of(#[trigger] s.skip(i)),
        },
{
    lemma_find_at(s, sep);
    assert forall|i: int| 0 <= i <= s.len() && sep.is_prefix_of(#[trigger] s.skip(i)) implies
        stands_at(s, sep, i) by {
        assert(s.subrange(i, i + sep.len()) =~= s.skip(i).take(sep.len() as int));
        assert(s.skip(i).take(sep.len() as int) =~= sep);
    }
    if let Some(i) = find_at(s, sep) {
        assert(s =~= s.take(i) + s.subrange(i, i + sep.len()) + s.skip(i + sep.len()));
    }
}

/// A text stands in another exactly if the other is made of it and what stands
/// before and after.
pub proof fn law_parts_stand_between(a: Seq<char>, needle: Seq<char>, b: Seq<char>)
    ensures
        has_part(a + needle + b, needle),
{
    let s = a + needle + b;
    assert(s.subrange(a.len() as int, (a.len() + needle.len()) as int) =~= needle);
    assert(stands_at(s, needle, a.len() as int));
}

/// What stands in a text has something before it and something after it.
pub proof fn law_parts_have_surroundings(s: Seq<char>, needle: Seq<char>)
    requires
        has_part(s, needle),
    ensures
        exists|a: Seq<char>, b: Seq<char>| #[trigger] (a + needle + b) == s,
{
    let i = choose|i: int| stands_at(s, needle, i);
    assert(s.take(i) + needle + s.skip(i + needle.len()) =~= s);
}

/// No piece holds the character that separates them, and with it between them
/// they make up the text.
pub proof fn law_pieces_make_up_the_text(s: Seq<char>, c: char)
    ensures
        pieces(s, c).len() > 0,
        forall|k: int| 0 <= k < pieces(s, c).len() ==> !(#[trigger] pieces(s, c)[k]).contains(c),
        joined(pieces(s, c), seq![c]) == s,
    decreases s.len(),
{
    law_cuts_split_at_the_character(s, c);
    lemma_lead(s, not_char(c));
    match cut_first(s, c) {
        Some((a, b)) => {
            law_pieces_make_up_the_text(b, c);
            let rest = pieces(b, c);
            let all = pieces(s, c);
            assert(all == seq![a] + rest);
            assert forall|k: int| 0 <= k < all.len() implies !(#[trigger] all[k]).contains(c) by {
                if k > 0 {
                    assert(all[k] == rest[k - 1]);
                }
            }
            lemma_joined_front(a, rest, seq![c]);
            assert(a + seq![c] + b =~= s);
        },
        None => {
            assert(pieces(s, c) == seq![s]);
        },
    }
}

/// A list with one more item in front.
pub proof fn lemma_joined_front(a: Seq<char>, rest: Seq<Seq<char>>, sep: Seq<char>)
    requires
        rest.len() > 0,
    ensures
        joined(seq![a] + rest, sep) == a + sep + joined(rest, sep),
    decreases rest.len(),
{
    let all = seq![a] + rest;
    if rest.len() == 1 {
        assert(all.drop_last() =~= seq![a]);
        assert(all.last() == rest[0]);
        assert(joined(seq![a], sep) == a);
    } else {
        let head = rest.drop_last();
        lemma_joined_front(a, head, sep);
        assert(all.drop_last() =~= seq![a] + head);
        assert(all.last() == rest.last());
        assert(a + sep + joined(head, sep) + sep + rest.last() =~= a + sep + (joined(head, sep)
            + sep + rest.last()));
    }
}

/// Words hold no white space and at least one character, and together they hold
/// all characters of the text but its white space, in order.
pub proof fn law_words_hold_all_but_white_space(s: Seq<char>)
    ensures
        forall|k: int|
            0 <= k < word_seq(s).len() ==> (#[trigger] word_seq(s)[k]).len() > 0 && !word_seq(
                s,
            )[k].any(|c: char| is_space(c)),
        joined(word_seq(s), Seq::empty()) == s.filter(|c: char| !is_space(c)),
    decreases s.len(),
{
    let keep = |c: char| !is_space(c);
    let t = trimmed_start(s);
    let a = lead(s, space());
    lemma_lead(s, space());
    lemma_lead(t, non_space());
    let k = lead(t, non_space());
    let low = s.take(a);
    assert(s =~= low + t);
    assert forall|j: int| 0 <= j < low.len() implies !keep(#[trigger] low[j]) by {
        assert(space()(s[j]));
    }
    low.lemma_all_neg_filter_empty(keep);
    Seq::filter_distributes_over_add(low, t, keep);
    assert(low.filter(keep) + t.filter(keep) =~= t.filter(keep));
    if 0 < k {
        let word = t.take(k);
        let rest = t.skip(k);
        law_words_hold_all_but_white_space(rest);
        assert(t =~= word + rest);
        Seq::filter_distributes_over_add(word, rest, keep);
        assert forall|j: int| 0 <= j < word.len() implies keep(#[trigger] word[j]) by {
            assert(non_space()(t[j]));
        }
        lemma_filter_keeps_all(word, keep);
        let all = word_seq(s);
        assert(all == seq![word] + word_seq(rest));
        assert forall|j: int| 0 <= j < all.len() implies (#[trigger] all[j]).len() > 0
            && !all[j].any(|c: char| is_space(c)) by {
            if j > 0 {
                assert(all[j] == word_seq(rest)[j - 1]);
            }
        }
        if word_seq(rest).len() > 0 {
            lemma_joined_front(word, word_seq(rest), Seq::empty());
            assert(word + Seq::<char>::empty() + joined(word_seq(rest), Seq::empty()) =~= word
                + joined(word_seq(rest), Seq::empty()));
        } else {
            assert(all =~= seq![word]);
            assert(word + rest.filter(keep) =~= word);
        }
    } else {
        if t.len() > 0 {
            assert(!space()(s[a]));
            assert(t[0] == s[a]);
            assert(non_space()(t[0]));
        }
        assert(t.filter(keep) =~= Seq::empty()) by {
            assert(t =~= Seq::empty());
            reveal(Seq::filter);
        }
    }
}

proof fn lemma_filter_keeps_all(s: Seq<char>, p: spec_fn(char) -> bool)
    requires
        forall|k: int| 0 <= k < s.len() ==> p(#[trigger] s[k]),
    ensures
        s.filter(p) == s,
    decreases s.len(),
{
    reveal(Seq::filter);
    if s.len() > 0 {
        let head = s.drop_last();
        assert forall|k: int| 0 <= k < head.len() implies p(#[trigger] head[k]) by {
            assert(head[k] == s[k]);
        }
        lemma_filter_keeps_all(head, p);
        assert(p(s[s.len() - 1]));
        assert(head.push(s.last()) =~= s);
    } else {
        assert(s.filter(p) =~= s);
    }
}

/// Lower case changes the 26 letters from `A` to `Z`, each to the letter that
/// stands 32 places after it, and nothing else; the length stays.
pub proof fn law_lower_case_changes_capitals_only(s: Seq<char>, i: int)
    requires
        0 <= i < s.len(),
    ensures
        lowered(s).len() == s.len(),
        ('A' <= s[i] && s[i] <= 'Z') ==> lowered(s)[i] as int == s[i] as int + 32,
        !('A' <= s[i] && s[i] <= 'Z') ==> lowered(s)[i] == s[i],
        same_ignoring_case(s, lowered(s)),
{
    assert forall|k: int| 0 <= k < s.len() implies #[trigger] lowered(lowered(s))[k] == lowered(
        s,
    )[k] by {}
    assert(lowered(lowered(s)) =~= lowered(s));
}

} // verus!
