//! Decimal numerals: printing and parsing of unsigned integers.

use vstd::prelude::*;

use crate::text;

verus! {

/// The decimal digit with value `d`.
pub open spec fn digit(d: int) -> char {
    (48 + d) as char
}

/// The decimal numeral of `n`, without leading zeros.
pub open spec fn dec(n: nat) -> Seq<char>
    decreases n,
{
    if n < 10 {
        seq![digit(n as int)]
    } else {
        dec(n / 10).push(digit((n % 10) as int))
    }
}

/// Whether a character is an ASCII decimal digit.
pub open spec fn is_digit(c: char) -> bool {
    '0' <= c <= '9'
}

/// Whether every character is an ASCII decimal digit.
pub open spec fn all_digits(s: Seq<char>) -> bool {
    forall|i: int| 0 <= i < s.len() ==> is_digit(#[trigger] s[i])
}

/// The number that a string of digits stands for.
pub open spec fn value(s: Seq<char>) -> int
    decreases s.len(),
{
    if s.len() == 0 {
        0
    } else {
        value(s.drop_last()) * 10 + (s.last() as int - 48)
    }
}

/// A numeral without an optional leading plus sign.
pub open spec fn unsigned_part(s: Seq<char>) -> Seq<char> {
    if s.len() > 0 && s[0] == '+' {
        s.skip(1)
    } else {
        s
    }
}

/// The number that `s` denotes, if it is at most `max`: one or more digits,
/// after at most one plus sign.
pub open spec fn parsed(s: Seq<char>, max: int) -> Option<int> {
    let t = unsigned_part(s);
    if t.len() > 0 && all_digits(t) && value(t) <= max {
        Some(value(t))
    } else {
        None
    }
}

/// A string of digits denotes a number that is not negative.
pub proof fn lemma_value_nonneg(s: Seq<char>)
    requires
        all_digits(s),
    ensures
        value(s) >= 0,
    decreases s.len(),
{
    if s.len() > 0 {
        let t = s.drop_last();
        assert forall|i: int| 0 <= i < t.len() implies is_digit(#[trigger] t[i]) by {
            assert(t[i] == s[i]);
        }
        assert(is_digit(s[s.len() - 1]));
        lemma_value_nonneg(t);
    }
}

/// Appending digits never makes the number smaller.
pub proof fn lemma_value_prefix(s: Seq<char>, k: int)
    requires
        all_digits(s),
        0 <= k <= s.len(),
    ensures
        value(s.take(k)) <= value(s),
    decreases s.len(),
{
    if k == s.len() {
        assert(s.take(k) =~= s);
    } else {
        let t = s.drop_last();
        assert forall|i: int| 0 <= i < t.len() implies is_digit(#[trigger] t[i]) by {
            assert(t[i] == s[i]);
        }
        assert(is_digit(s[s.len() - 1]));
        lemma_value_nonneg(t);
        lemma_value_prefix(t, k);
        assert(t.take(k) =~= s.take(k));
    }
}

/// A numeral consists of digits and denotes its number.
pub proof fn lemma_dec(n: nat)
    ensures
        dec(n).len() > 0,
        all_digits(dec(n)),
        value(dec(n)) == n,
    decreases n,
{
    if n < 10 {
        let s = seq![digit(n as int)];
        assert(s.drop_last() =~= Seq::empty());
        assert(s.last() as int == 48 + n);
        assert(value(Seq::<char>::empty()) == 0);
        assert(dec(n) == s);
    } else {
        lemma_dec(n / 10);
        let s = dec(n / 10).push(digit((n % 10) as int));
        assert(s.drop_last() =~= dec(n / 10));
        assert(s.last() as int == 48 + n % 10);
        assert forall|i: int| 0 <= i < s.len() implies is_digit(#[trigger] s[i]) by {
            if i < s.len() - 1 {
                assert(s[i] == dec(n / 10)[i]);
            }
        }
    }
}

/// Parsing a printed number gives the number back.
pub proof fn lemma_parse_dec(n: nat, max: int)
    requires
        n <= max,
    ensures
        parsed(dec(n), max) == Some(n as int),
{
    lemma_dec(n);
    assert(is_digit(dec(n)[0]));
}

/// The decimal digit with value `d`.
pub fn digit_char(d: u8) -> (c: char)
    requires
        d < 10,
    ensures
        c == digit(d as int),
{
    (48 + d) as char
}

/// The decimal numeral of `n`.
pub fn decimal(n: u64) -> (r: String)
    ensures
        r@ == dec(n as nat),
    decreases n,
{
    if n < 10 {
        let mut s = String::new();
        s.push(digit_char(n as u8));
        proof {
            assert(s@ =~= dec(n as nat));
        }
        s
    } else {
        let mut s = decimal(n / 10);
        s.push(digit_char((n % 10) as u8));
        s
    }
}

/// Whether a character is an ASCII decimal digit.
pub fn digit_test(c: char) -> (r: bool)
    ensures
        r == is_digit(c),
{
    '0' <= c && c <= '9'
}

/// The number that `s` denotes, if it is at most `max`.
pub fn parse_up_to(s: &str, max: u64) -> (r: Option<u64>)
    ensures
        match r {
            Some(n) => parsed(s@, max as int) == Some(n as int),
            None => parsed(s@, max as int) is None,
        },
{
    let v = text::chars_of(s);
    let start: usize = if v.len() > 0 && v[0] == '+' {
        1
    } else {
        0
    };
    let ghost t = unsigned_part(s@);
    proof {
        assert(t =~= s@.skip(start as int));
    }
    if start == v.len() {
        return None;
    }
    let mut n: u64 = 0;
    let mut i: usize = start;
    while i < v.len()
        invariant
            start <= i <= v.len(),
            v@ == s@,
            t == s@.skip(start as int),
            t == unsigned_part(s@),
            forall|j: int| 0 <= j < i - start ==> is_digit(#[trigger] t[j]),
            n == value(t.take(i - start)),
            n <= max,
        decreases v.len() - i,
    {
        let c = v[i];
        let ghost k = i - start;
        proof {
            assert(t[k] == c);
            assert(t.take(k + 1).drop_last() =~= t.take(k));
            assert(t.take(k + 1).last() == c);
        }
        if !digit_test(c) {
            return None;
        }
        let d: u64 = (c as u32 - 48) as u64;
        let room: bool = n <= max / 10 && d <= max - n * 10;
        if !room {
            proof {
                if all_digits(t) {
                    lemma_value_prefix(t, k + 1);
                }
            }
            return None;
        }
        n = n * 10 + d;
        i += 1;
    }
    proof {
        assert(t.take(v.len() - start) =~= t);
    }
    Some(n)
}

/// The `u64` that `s` denotes.
pub fn parse_u64(s: &str) -> (r: Option<u64>)
    ensures
        match r {
            Some(n) => parsed(s@, u64::MAX as int) == Some(n as int),
            None => parsed(s@, u64::MAX as int) is None,
        },
{
    parse_up_to(s, u64::MAX)
}

// ---------------------------------------------------------------------------
// Laws
// ---------------------------------------------------------------------------

/// One more digit makes a number ten times as large, and adds the digit.
pub proof fn law_digits_count_tens(s: Seq<char>, c: char)
    ensures
        value(Seq::empty()) == 0,
        value(s.push(c)) == 10 * value(s) + (c as int - '0' as int),
{
    assert(s.push(c).drop_last() =~= s);
}

/// A printed number has no sign and no leading zero, and is read back as itself.
pub proof fn law_printed_numbers_are_read_back(n: nat, max: int)
    ensures
        n <= max ==> parsed(dec(n), max) == Some(n as int),
        n > max ==> parsed(dec(n), max) is None,
        n < 10 ==> dec(n).len() == 1,
        n >= 10 ==> dec(n).len() >= 2 && dec(n)[0] != '0',
{
    lemma_dec(n);
    assert(is_digit(dec(n)[0]));
    lemma_first_digit(n);
}

proof fn lemma_first_digit(n: nat)
    ensures
        n > 0 ==> dec(n)[0] != '0',
        n >= 10 ==> dec(n).len() >= 2,
    decreases n,
{
    if n >= 10 {
        lemma_dec(n / 10);
        lemma_first_digit(n / 10);
        assert(dec(n)[0] == dec(n / 10)[0]);
    } else if n > 0 {
        assert(dec(n)[0] as int == 48 + n);
    }
}

/// Text is read as a number exactly if it is made of digits, at least one, that
/// denote no more than the maximum; one plus sign may come first.
pub proof fn law_numbers_are_made_of_digits(s: Seq<char>, max: int)
    ensures
        s.len() == 0 ==> parsed(s, max) is None,
        (exists|i: int|
            0 < i < s.len() && !('0' <= #[trigger] s[i] && s[i] <= '9')) ==> parsed(
            s,
            max,
        ) is None,
        s.len() > 0 && s[0] != '+' && !('0' <= s[0] && s[0] <= '9') ==> parsed(s, max) is None,
        s.len() > 0 && (forall|i: int|
            0 <= i < s.len() ==> '0' <= #[trigger] s[i] && s[i] <= '9') ==> parsed(s, max) == (
        if value(s) <= max {
            Some(value(s))
        } else {
            None
        }),
        s.len() > 0 && s[0] != '+' ==> parsed(seq!['+'] + s, max) == parsed(s, max),
{
    let t = unsigned_part(s);
    if exists|i: int| 0 < i < s.len() && !('0' <= #[trigger] s[i] && s[i] <= '9') {
        let i = choose|i: int| 0 < i < s.len() && !('0' <= #[trigger] s[i] && s[i] <= '9');
        if s[0] == '+' {
            assert(t[i - 1] == s[i]);
            assert(!is_digit(t[i - 1]));
        } else {
            assert(!is_digit(t[i]));
        }
    }
    if s.len() > 0 && s[0] != '+' && !('0' <= s[0] && s[0] <= '9') {
        assert(!is_digit(t[0]));
    }
    if s.len() > 0 && (forall|i: int| 0 <= i < s.len() ==> '0' <= #[trigger] s[i] && s[i] <= '9') {
        assert(s[0] != '+');
        assert(all_digits(s)) by {
            assert forall|i: int| 0 <= i < s.len() implies is_digit(#[trigger] s[i]) by {}
        }
    }
    assert((seq!['+'] + s).skip(1) =~= s);
}

} // verus!
