//! Hexadecimal text for byte strings.

use vstd::prelude::*;

use crate::text;

verus! {

/// The lower-case hexadecimal digit with value `d`.
pub open spec fn hex_digit(d: int) -> char {
    if d < 10 {
        (48 + d) as char
    } else {
        (87 + d) as char
    }
}

/// Two lower-case digits per byte, high half first.
pub open spec fn hex(b: Seq<u8>) -> Seq<char>
    decreases b.len(),
{
    if b.len() == 0 {
        Seq::empty()
    } else {
        hex(b.drop_last()).push(hex_digit(b.last() as int / 16)).push(
            hex_digit(b.last() as int % 16),
        )
    }
}

/// The value of a hexadecimal digit of either case.
pub open spec fn hex_value(c: char) -> Option<int> {
    if '0' <= c <= '9' {
        Some(c as int - 48)
    } else if 'a' <= c <= 'f' {
        Some(c as int - 87)
    } else if 'A' <= c <= 'F' {
        Some(c as int - 55)
    } else {
        None
    }
}

/// The byte that two characters denote: two digits, or a plus sign and one.
pub open spec fn pair_value(a: char, b: char) -> Option<int> {
    match (hex_value(a), hex_value(b)) {
        (Some(x), Some(y)) => Some(x * 16 + y),
        (None, Some(y)) => if a == '+' {
            Some(y)
        } else {
            None
        },
        _ => None,
    }
}

/// The bytes that `s` denotes, two characters each.
pub open spec fn unhex(s: Seq<char>) -> Option<Seq<u8>>
    decreases s.len(),
{
    if s.len() == 0 {
        Some(Seq::empty())
    } else if s.len() == 1 {
        None
    } else {
        match (unhex(s.take(s.len() - 2)), pair_value(s[s.len() - 2], s[s.len() - 1])) {
            (Some(head), Some(v)) => Some(head.push(v as u8)),
            _ => None,
        }
    }
}

/// Text of an odd length denotes no bytes.
pub proof fn lemma_unhex_odd(s: Seq<char>)
    requires
        s.len() % 2 == 1,
    ensures
        unhex(s) is None,
    decreases s.len(),
{
    if s.len() > 1 {
        lemma_unhex_odd(s.take(s.len() - 2));
    }
}

/// What has an invalid part denotes no bytes.
proof fn lemma_unhex_prefix(s: Seq<char>, k: int)
    requires
        s.len() % 2 == 0,
        k % 2 == 0,
        0 <= k <= s.len(),
        unhex(s.take(k)) is None,
    ensures
        unhex(s) is None,
    decreases s.len(),
{
    if k == s.len() {
        assert(s.take(k) =~= s);
    } else {
        let t = s.take(s.len() - 2);
        assert(t.take(k) =~= s.take(k));
        lemma_unhex_prefix(t, k);
    }
}

/// Decoding what was encoded gives the bytes back.
pub proof fn lemma_unhex_hex(b: Seq<u8>)
    ensures
        unhex(hex(b)) == Some(b),
        hex(b).len() == 2 * b.len(),
    decreases b.len(),
{
    if b.len() > 0 {
        let head = b.drop_last();
        lemma_unhex_hex(head);
        let s = hex(b);
        assert(s.take(s.len() - 2) =~= hex(head));
        let x = b.last() as int;
        assert(hex_value(hex_digit(x / 16)) == Some(x / 16));
        assert(hex_value(hex_digit(x % 16)) == Some(x % 16));
        assert(head.push(b.last()) =~= b);
    }
}

/// The encoding holds hexadecimal digits only.
pub proof fn lemma_hex_chars(b: Seq<u8>)
    ensures
        forall|i: int| 0 <= i < hex(b).len() ==> hex_value(#[trigger] hex(b)[i]) is Some,
    decreases b.len(),
{
    if b.len() > 0 {
        lemma_hex_chars(b.drop_last());
        let x = b.last() as int;
        assert(hex_value(hex_digit(x / 16)) == Some(x / 16));
        assert(hex_value(hex_digit(x % 16)) == Some(x % 16));
        assert forall|i: int| 0 <= i < hex(b).len() implies hex_value(#[trigger] hex(b)[i]) is Some by {
            if i < hex(b).len() - 2 {
                assert(hex(b)[i] == hex(b.drop_last())[i]);
            }
        }
    }
}

fn hex_char(d: u8) -> (c: char)
    requires
        d < 16,
    ensures
        c == hex_digit(d as int),
{
    if d < 10 {
        (48 + d) as char
    } else {
        (87 + d) as char
    }
}

/// Two lower-case digits per byte, high half first.
pub fn encode_hex(bytes: &[u8]) -> (r: String)
    ensures
        r@ == hex(bytes@),
{
    let mut s = String::new();
    let mut i: usize = 0;
    while i < bytes.len()
        invariant
            i <= bytes.len(),
            s@ == hex(bytes@.take(i as int)),
        decreases bytes.len() - i,
    {
        proof {
            assert(bytes@.take(i + 1).drop_last() =~= bytes@.take(i as int));
        }
        s.push(hex_char(bytes[i] / 16));
        s.push(hex_char(bytes[i] % 16));
        i += 1;
    }
    proof {
        assert(bytes@.take(bytes.len() as int) =~= bytes@);
    }
    s
}

fn value_of(c: char) -> (r: Option<u8>)
    ensures
        match r {
            Some(v) => hex_value(c) == Some(v as int) && v < 16,
            None => hex_value(c) is None,
        },
{
    if '0' <= c && c <= '9' {
        Some((c as u32 - 48) as u8)
    } else if 'a' <= c && c <= 'f' {
        Some((c as u32 - 87) as u8)
    } else if 'A' <= c && c <= 'F' {
        Some((c as u32 - 55) as u8)
    } else {
        None
    }
}

/// The bytes that `s` denotes; an error when it is not hexadecimal text.
pub fn decode_hex(s: &str) -> (r: Result<Vec<u8>, ()>)
    ensures
        match r {
            Ok(b) => unhex(s@) == Some(b@),
            Err(_) => unhex(s@) is None,
        },
{
    let v = text::chars_of(s);
    if v.len() % 2 != 0 {
        proof {
            lemma_unhex_odd(s@);
        }
        return Err(());
    }
    let mut out: Vec<u8> = Vec::new();
    let mut i: usize = 0;
    while i < v.len()
        invariant
            i <= v.len(),
            i % 2 == 0,
            v.len() % 2 == 0,
            v@ == s@,
            unhex(s@.take(i as int)) == Some(out@),
        decreases v.len() - i,
    {
        let ghost t = s@.take(i + 2);
        proof {
            assert(t.take(t.len() - 2) =~= s@.take(i as int));
        }
        let b: Option<u8> = match (value_of(v[i]), value_of(v[i + 1])) {
            (Some(x), Some(y)) => Some(x * 16 + y),
            (None, Some(y)) => if v[i] == '+' {
                Some(y)
            } else {
                None
            },
            _ => None,
        };
        match b {
            Some(x) => {
                out.push(x);
            },
            None => {
                proof {
                    lemma_unhex_prefix(s@, i + 2);
                }
                return Err(());
            },
        }
        i += 2;
    }
    proof {
        assert(s@.take(v.len() as int) =~= s@);
    }
    Ok(out)
}

/// Each byte is two digits, the high half first, and bytes are written one after
/// the other.
pub proof fn law_bytes_are_two_digits(a: Seq<u8>, b: Seq<u8>, x: u8)
    ensures
        hex(a + b) == hex(a) + hex(b),
        hex(seq![x]) == seq![
            "0123456789abcdef"@[x as int / 16],
            "0123456789abcdef"@[x as int % 16],
        ],
        hex(Seq::empty()) == Seq::<char>::empty(),
        unhex(hex(a)) == Some(a),
    decreases b.len(),
{
    reveal_strlit("0123456789abcdef");
    reveal_with_fuel(hex, 2);
    lemma_unhex_hex(a);
    assert(seq![x].drop_last() =~= Seq::<u8>::empty());
    lemma_digit_names(x as int / 16);
    lemma_digit_names(x as int % 16);
    assert(hex(seq![x]) =~= seq![
        "0123456789abcdef"@[x as int / 16],
        "0123456789abcdef"@[x as int % 16],
    ]);
    if b.len() == 0 {
        assert(a + b =~= a);
        assert(hex(a) + hex(b) =~= hex(a));
    } else {
        law_bytes_are_two_digits(a, b.drop_last(), x);
        assert((a + b).drop_last() =~= a + b.drop_last());
        assert((a + b).last() == b.last());
        assert(hex(a + b) =~= hex(a) + hex(b));
    }
}

proof fn lemma_digit_names(d: int)
    requires
        0 <= d < 16,
    ensures
        hex_digit(d) == "0123456789abcdef"@[d],
{
    reveal_strlit("0123456789abcdef");
    let s = "0123456789abcdef"@;
    assert(s[0] == '0' && s[1] == '1' && s[2] == '2' && s[3] == '3');
    assert(s[4] == '4' && s[5] == '5' && s[6] == '6' && s[7] == '7');
    assert(s[8] == '8' && s[9] == '9' && s[10] == 'a' && s[11] == 'b');
    assert(s[12] == 'c' && s[13] == 'd' && s[14] == 'e' && s[15] == 'f');
}

/// Two digits of either case after others denote one byte more; what is no digit
/// denotes nothing.
pub proof fn law_digits_denote_bytes(s: Seq<char>, x: int, y: int, c: char)
    requires
        0 <= x < 16,
        0 <= y < 16,
        unhex(s) is Some,
    ensures
        unhex(s.push("0123456789abcdef"@[x]).push("0123456789abcdef"@[y])) == Some(
            (unhex(s)->0).push((16 * x + y) as u8),
        ),
        unhex(s.push("0123456789ABCDEF"@[x]).push("0123456789ABCDEF"@[y])) == Some(
            (unhex(s)->0).push((16 * x + y) as u8),
        ),
        !"0123456789abcdefABCDEF"@.contains(c) ==> unhex(
            s.push("0123456789abcdef"@[x]).push(c),
        ) is None,
        unhex(s.push(c)) is None,
{
    reveal_strlit("0123456789abcdef");
    reveal_strlit("0123456789ABCDEF");
    let low = "0123456789abcdef"@;
    let up = "0123456789ABCDEF"@;
    lemma_digit_names(x);
    lemma_digit_names(y);
    lemma_upper_names(x);
    lemma_upper_names(y);
    let a = s.push(low[x]).push(low[y]);
    let b = s.push(up[x]).push(up[y]);
    let d = s.push(low[x]).push(c);
    assert(a.take(a.len() - 2) =~= s);
    assert(b.take(b.len() - 2) =~= s);
    assert(d.take(d.len() - 2) =~= s);
    assert(hex_value(low[x]) == Some(x) && hex_value(low[y]) == Some(y));
    if !"0123456789abcdefABCDEF"@.contains(c) {
        lemma_not_a_digit(c);
    }
    if s.len() % 2 == 1 {
        lemma_unhex_odd(s);
    }
    lemma_unhex_odd(s.push(c));
}

proof fn lemma_upper_names(d: int)
    requires
        0 <= d < 16,
    ensures
        hex_value("0123456789ABCDEF"@[d]) == Some(d),
{
    reveal_strlit("0123456789ABCDEF");
    let s = "0123456789ABCDEF"@;
    assert(s[0] == '0' && s[1] == '1' && s[2] == '2' && s[3] == '3');
    assert(s[4] == '4' && s[5] == '5' && s[6] == '6' && s[7] == '7');
    assert(s[8] == '8' && s[9] == '9' && s[10] == 'A' && s[11] == 'B');
    assert(s[12] == 'C' && s[13] == 'D' && s[14] == 'E' && s[15] == 'F');
}

proof fn lemma_not_a_digit(c: char)
    requires
        !"0123456789abcdefABCDEF"@.contains(c),
    ensures
        hex_value(c) is None,
{
    reveal_strlit("0123456789abcdefABCDEF");
    let s = "0123456789abcdefABCDEF"@;
    assert forall|i: int| 0 <= i < s.len() implies s[i] != c by {
        assert(s.contains(s[i]));
    }
    if '0' <= c && c <= '9' {
        assert(s[c as int - 48] == c);
    } else if 'a' <= c && c <= 'f' {
        assert(s[c as int - 87] == c);
    } else if 'A' <= c && c <= 'F' {
        assert(s[c as int - 49] == c);
    }
}

} // verus!
