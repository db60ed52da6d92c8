//! Rendering of 64-bit values in lowercase hexadecimal and of lengths in
//! decimal, as bytes and as text, with exact specifications.
use vstd::prelude::*;
use vstd::string::StringExecFns;

verus! {

/// The lowercase hexadecimal digit for a value below sixteen, as a byte.
pub open spec fn hex_digit(d: int) -> u8 {
    if d < 10 {
        (48 + d) as u8
    } else {
        (87 + d) as u8
    }
}

/// The shortest lowercase hexadecimal rendering of `n`: no leading zeros,
/// a single `0` for zero.
pub open spec fn hex_bytes(n: int) -> Seq<u8>
    decreases n,
{
    if n < 16 {
        seq![hex_digit(n)]
    } else {
        hex_bytes(n / 16).push(hex_digit(n % 16))
    }
}

/// The shortest decimal rendering of `n`.
pub open spec fn dec_bytes(n: int) -> Seq<u8>
    decreases n,
{
    if n < 10 {
        seq![(48 + n) as u8]
    } else {
        dec_bytes(n / 10).push((48 + n % 10) as u8)
    }
}

/// Every byte of a hexadecimal rendering is a digit `0`-`9` or a letter
/// `a`-`f`; in particular it is ASCII and is no separator byte.
pub proof fn lemma_hex_bytes_are_hex_digits(n: int)
    requires
        n >= 0,
    ensures
        hex_bytes(n).len() >= 1,
        forall|i: int|
            0 <= i < hex_bytes(n).len() ==> (48 <= #[trigger] hex_bytes(n)[i] <= 57 || 97
                <= hex_bytes(n)[i] <= 102),
    decreases n,
{
    if n >= 16 {
        lemma_hex_bytes_are_hex_digits(n / 16);
    }
}

fn hex_digit_byte(d: u64) -> (r: u8)
    requires
        d < 16,
    ensures
        r == hex_digit(d as int),
{
    if d < 10 {
        48 + (d as u8)
    } else {
        87 + (d as u8)
    }
}

/// The hexadecimal key bytes for a digest value.
pub fn hex_of_u64(n: u64) -> (r: Vec<u8>)
    ensures
        r@ == hex_bytes(n as int),
    decreases n,
{
    if n < 16 {
        let mut v: Vec<u8> = Vec::new();
        v.push(hex_digit_byte(n));
        assert(v@ =~= hex_bytes(n as int));
        v
    } else {
        let mut v = hex_of_u64(n / 16);
        v.push(hex_digit_byte(n % 16));
        v
    }
}

/// The decimal rendering of a length, used for `Content-Length` headers.
pub fn dec_of_u64(n: u64) -> (r: Vec<u8>)
    ensures
        r@ == dec_bytes(n as int),
    decreases n,
{
    if n < 10 {
        let mut v: Vec<u8> = Vec::new();
        v.push(48 + (n as u8));
        assert(v@ =~= dec_bytes(n as int));
        v
    } else {
        let mut v = dec_of_u64(n / 10);
        v.push(48 + ((n % 10) as u8));
        v
    }
}

/// A sequence of bytes read as characters, one code point per byte.
pub open spec fn chars_of_bytes(s: Seq<u8>) -> Seq<char> {
    s.map_values(|b: u8| b as char)
}

/// Relies on `String::push` from std: it appends exactly the given
/// character to the end of the string.
#[verifier::external_body]
fn push_char(s: &mut String, c: char)
    ensures
        final(s)@ == old(s)@.push(c),
{
    s.push(c);
}

/// Builds the text that reads a byte sequence as characters, one code
/// point per byte.
pub fn string_of_bytes(v: &[u8]) -> (r: String)
    ensures
        r@ == chars_of_bytes(v@),
{
    let mut s = String::new();
    let mut i: usize = 0;
    while i < v.len()
        invariant
            i <= v@.len(),
            s@ == chars_of_bytes(v@).take(i as int),
        decreases v@.len() - i,
    {
        push_char(&mut s, v[i] as char);
        i = i + 1;
        assert(s@ =~= chars_of_bytes(v@).take(i as int));
    }
    assert(chars_of_bytes(v@).take(v@.len() as int) =~= chars_of_bytes(v@));
    s
}

} // verus!
