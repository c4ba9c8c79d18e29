//! Small character and string helpers shared by the protocol codec and the
//! registry: character-exact string equality, hex digits, and the two places
//! where std does the work (collecting chars into a `String`, turning a code
//! point into a `char`).

use vstd::prelude::*;

verus! {

/// The char whose unicode code is `n` (meaningful only when `n` is a unicode
/// scalar value; `char as u32` is injective, so the value is unique).
pub open spec fn code_char(n: u32) -> char {
    choose|c: char| (#[trigger] (c as u32)) == n
}

/// `n` is a unicode scalar value: in range and not a surrogate.
pub open spec fn is_unicode_scalar(n: u32) -> bool {
    n < 0xD800 || (0xE000 <= n && n < 0x110000)
}

/// The char value is a unicode scalar value. Every char a program holds is
/// one; a mathematical `Seq<char>` may hold other values of the sort, so
/// statements about whole sequences of text say this explicitly.
pub open spec fn is_scalar_char(c: char) -> bool {
    0 <= (c as int) && ((c as int) < 0xD800 || (0xE000 <= (c as int) && (c as int) < 0x110000))
}

/// A sequence of text: every char in it is a unicode scalar value.
pub open spec fn scalar_chars(s: Seq<char>) -> bool {
    forall|k: int| 0 <= k < s.len() ==> is_scalar_char(#[trigger] s[k])
}

/// Relies on char::from_u32: returns `Some` exactly for unicode scalar
/// values, and the returned char has the given code.
#[verifier::external_body]
pub fn char_from_code(n: u32) -> (r: Option<char>)
    ensures
        r is Some <==> is_unicode_scalar(n),
        r matches Some(c) ==> c as u32 == n && c == code_char(n),
{
    char::from_u32(n)
}

/// Relies on String's FromIterator impl: collecting chars yields the string
/// of exactly those chars, in order.
#[verifier::external_body]
pub fn chars_to_string(v: &Vec<char>) -> (r: String)
    ensures
        r@ == v@,
{
    v.iter().collect()
}

/// Character-exact equality of two string slices.
pub fn str_eq(a: &str, b: &str) -> (r: bool)
    ensures
        r == (a@ == b@),
{
    let na = a.unicode_len();
    let nb = b.unicode_len();
    if na != nb {
        return false;
    }
    let mut i: usize = 0;
    while i < na
        invariant
            na == a@.len(),
            na == b@.len(),
            i <= na,
            forall|j: int| 0 <= j < i ==> a@[j] == b@[j],
        decreases na - i,
    {
        if a.get_char(i) != b.get_char(i) {
            return false;
        }
        i = i + 1;
    }
    proof {
        assert(a@ =~= b@);
    }
    true
}

/// Append every char of `s` to `out`.
pub fn push_str_chars(out: &mut Vec<char>, s: &str)
    ensures
        final(out)@ == old(out)@ + s@,
{
    let n = s.unicode_len();
    let mut i: usize = 0;
    while i < n
        invariant
            n == s@.len(),
            i <= n,
            out@ == old(out)@ + s@.take(i as int),
        decreases n - i,
    {
        let c = s.get_char(i);
        out.push(c);
        proof {
            assert(old(out)@ + s@.take(i as int + 1) =~= (old(out)@ + s@.take(i as int)).push(s@[i as int]));
        }
        i = i + 1;
    }
    proof {
        assert(s@.take(n as int) =~= s@);
    }
}

/// The lower-case hex digit for a value below 16.
pub open spec fn hex_char(n: int) -> char {
    if n == 0 { '0' } else if n == 1 { '1' } else if n == 2 { '2' } else if n == 3 { '3' }
    else if n == 4 { '4' } else if n == 5 { '5' } else if n == 6 { '6' } else if n == 7 { '7' }
    else if n == 8 { '8' } else if n == 9 { '9' } else if n == 10 { 'a' } else if n == 11 { 'b' }
    else if n == 12 { 'c' } else if n == 13 { 'd' } else if n == 14 { 'e' } else { 'f' }
}

/// The value of a hex digit char, upper or lower case, or -1 for any other char.
pub open spec fn hex_val(c: char) -> int {
    if '0' <= c && c <= '9' { c as int - '0' as int }
    else if 'a' <= c && c <= 'f' { 10 + c as int - 'a' as int }
    else if 'A' <= c && c <= 'F' { 10 + c as int - 'A' as int }
    else { -1 }
}

pub fn hex_char_of(n: u8) -> (c: char)
    requires
        n < 16,
    ensures
        c == hex_char(n as int),
{
    match n {
        0 => '0', 1 => '1', 2 => '2', 3 => '3', 4 => '4', 5 => '5', 6 => '6', 7 => '7',
        8 => '8', 9 => '9', 10 => 'a', 11 => 'b', 12 => 'c', 13 => 'd', 14 => 'e', _ => 'f',
    }
}

pub fn hex_val_of(c: char) -> (v: Option<u8>)
    ensures
        hex_val(c) >= 0 ==> (v matches Some(d) && d == hex_val(c)),
        hex_val(c) < 0 ==> v is None,
{
    if '0' <= c && c <= '9' {
        Some((c as u8) - ('0' as u8))
    } else if 'a' <= c && c <= 'f' {
        Some(10 + (c as u8) - ('a' as u8))
    } else if 'A' <= c && c <= 'F' {
        Some(10 + (c as u8) - ('A' as u8))
    } else {
        None
    }
}

} // verus!
