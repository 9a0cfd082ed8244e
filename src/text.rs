//! Text fields of the container: author names, hexadecimal identifiers and
//! filenames.
use vstd::prelude::*;
use vstd::utf8::{decode_utf8, valid_utf8};
use crate::bytes::le16;

verus! {

/// `s` without its zero bytes, order kept.
pub open spec fn without_nul(s: Seq<u8>) -> Seq<u8>
    decreases s.len(),
{
    if s.len() == 0 {
        seq![]
    } else if s.last() == 0 {
        without_nul(s.drop_last())
    } else {
        without_nul(s.drop_last()).push(s.last())
    }
}

/// The uppercase hexadecimal digit of `n` (below 16).
pub open spec fn hex_char(n: u8) -> char {
    if n < 10 {
        (48u8 + n) as char
    } else {
        (65u8 + n - 10) as char
    }
}

/// The two digits of `b`, high nibble first.
pub open spec fn hex_pair(b: u8, k: int) -> char {
    if k % 2 == 0 {
        hex_char(b >> 4u8)
    } else {
        hex_char(b & 15u8)
    }
}

/// `s` in uppercase hexadecimal, two digits per byte, last byte first.
pub open spec fn hex_rev(s: Seq<u8>) -> Seq<char> {
    Seq::new(2 * s.len(), |k: int| hex_pair(s[s.len() - 1 - k / 2], k))
}

/// `s` in uppercase hexadecimal, two digits per byte, first byte first.
pub open spec fn hex_fwd(s: Seq<u8>) -> Seq<char> {
    Seq::new(2 * s.len(), |k: int| hex_pair(s[k / 2], k))
}

/// Each byte of `s` read as the character of that code point.
pub open spec fn latin1(s: Seq<u8>) -> Seq<char> {
    Seq::new(s.len(), |k: int| s[k] as char)
}

/// The decimal digits of `n`, without leading zeros.
pub open spec fn decimal(n: nat) -> Seq<char>
    decreases n,
{
    if n < 10 {
        seq![(48u8 + n as u8) as char]
    } else {
        decimal(n / 10).push((48u8 + (n % 10) as u8) as char)
    }
}

/// The decimal digits of `n`, padded with zeros to at least three.
pub open spec fn decimal3(n: nat) -> Seq<char> {
    if n < 10 {
        seq!['0', '0'] + decimal(n)
    } else if n < 100 {
        seq!['0'] + decimal(n)
    } else {
        decimal(n)
    }
}

/// An 18-byte filename record: `MAC_IDENT_EDITS`, the three MAC bytes in
/// hexadecimal, the thirteen identifier bytes as characters, and the edit
/// counter in decimal of at least three digits.
pub open spec fn filename_text(s: Seq<u8>) -> Seq<char> {
    hex_fwd(s.subrange(0, 3)) + seq!['_'] + latin1(s.subrange(3, 16)) + seq!['_'] + decimal3(
        le16(s, 16) as nat,
    )
}

/// Relies on `String::from_utf8`: it succeeds exactly on valid UTF-8, and the
/// string then holds the characters that the bytes encode.
#[verifier::external_body]
fn utf8_string(b: Vec<u8>) -> (r: Option<String>)
    ensures
        r is Some <==> valid_utf8(b@),
        r is Some ==> r->Some_0@ == decode_utf8(b@),
{
    String::from_utf8(b).ok()
}

/// Relies on `String::push`: appends one character.
#[verifier::external_body]
fn push_char(s: &mut String, c: char)
    ensures
        final(s)@ == old(s)@.push(c),
{
    s.push(c)
}

/// Removes every zero byte.
pub fn strip_null(string: &Vec<u8>) -> (r: Vec<u8>)
    ensures
        r@ == without_nul(string@),
{
    let mut out: Vec<u8> = Vec::new();
    let mut i: usize = 0;
    while i < string.len()
        invariant
            i <= string.len(),
            out@ == without_nul(string@.subrange(0, i as int)),
        decreases string.len() - i,
    {
        let b = string[i];
        proof {
            let t = string@.subrange(0, i + 1);
            assert(t.drop_last() =~= string@.subrange(0, i as int));
            assert(t.last() == b);
        }
        if b != 0 {
            out.push(b);
        }
        i += 1;
    }
    assert(string@.subrange(0, string.len() as int) =~= string@);
    out
}

/// Decodes an author name: the buffer without its zero bytes, read as UTF-8.
pub fn name_text(b: &Vec<u8>) -> (r: Option<String>)
    ensures
        r is Some <==> valid_utf8(without_nul(b@)),
        r is Some ==> r->Some_0@ == decode_utf8(without_nul(b@)),
{
    utf8_string(strip_null(b))
}

fn hex_digit(n: u8) -> (c: char)
    requires
        n < 16,
    ensures
        c == hex_char(n),
{
    if n < 10 {
        (48u8 + n) as char
    } else {
        (65u8 + n - 10) as char
    }
}

/// The bytes of `vec` in uppercase hexadecimal, last byte first.
pub fn vec_u8_to_string(vec: &Vec<u8>) -> (r: String)
    requires
        vec@.len() < 0x4000_0000,
    ensures
        r@ == hex_rev(vec@),
{
    let n = vec.len();
    let mut out = String::new();
    let mut j: usize = 0;
    while j < n
        invariant
            n == vec@.len(),
            n < 0x4000_0000,
            j <= n,
            out@.len() == 2 * j,
            forall|k: int| 0 <= k < 2 * j ==> out@[k] == hex_rev(vec@)[k],
        decreases n - j,
    {
        let b = vec[n - 1 - j];
        assert((b >> 4u8) < 16 && (b & 15u8) < 16) by (bit_vector);
        push_char(&mut out, hex_digit(b >> 4u8));
        push_char(&mut out, hex_digit(b & 15u8));
        assert forall|k: int| 0 <= k < 2 * (j + 1) implies out@[k] == hex_rev(vec@)[k] by {
            if k >= 2 * j {
                assert(k / 2 == j);
            }
        }
        j += 1;
    }
    assert(out@ =~= hex_rev(vec@));
    out
}

/// Appends the bytes of `s` in uppercase hexadecimal, first byte first.
fn push_hex_fwd(out: &mut String, s: &Vec<u8>)
    requires
        s@.len() < 0x4000_0000,
    ensures
        final(out)@ == old(out)@ + hex_fwd(s@),
{
    let ghost o = out@;
    let n = s.len();
    let mut j: usize = 0;
    while j < n
        invariant
            n == s@.len(),
            n < 0x4000_0000,
            j <= n,
            out@.len() == o.len() + 2 * j,
            forall|k: int| 0 <= k < o.len() ==> out@[k] == o[k],
            forall|k: int| 0 <= k < 2 * j ==> out@[o.len() + k] == hex_fwd(s@)[k],
        decreases n - j,
    {
        let b = s[j];
        assert((b >> 4u8) < 16 && (b & 15u8) < 16) by (bit_vector);
        push_char(out, hex_digit(b >> 4u8));
        push_char(out, hex_digit(b & 15u8));
        assert forall|k: int| 0 <= k < 2 * (j + 1) implies out@[o.len() + k] == hex_fwd(s@)[k] by {
            if k >= 2 * j {
                assert(k / 2 == j);
            }
        }
        j += 1;
    }
    assert(out@ =~= o + hex_fwd(s@));
}

/// Appends each byte of `s` as the character of that code point.
fn push_latin1(out: &mut String, s: &Vec<u8>)
    ensures
        final(out)@ == old(out)@ + latin1(s@),
{
    let ghost o = out@;
    let mut j: usize = 0;
    while j < s.len()
        invariant
            j <= s@.len(),
            out@ =~= o + latin1(s@.subrange(0, j as int)),
        decreases s.len() - j,
    {
        let b = s[j];
        push_char(out, b as char);
        j += 1;
        assert(latin1(s@.subrange(0, j as int)) =~= latin1(s@.subrange(0, j - 1)).push(b as char));
    }
    assert(s@.subrange(0, s@.len() as int) =~= s@);
}

/// Appends the decimal digits of `n`.
fn push_decimal(out: &mut String, n: u16)
    ensures
        final(out)@ == old(out)@ + decimal(n as nat),
    decreases n,
{
    if n >= 10 {
        push_decimal(out, n / 10);
    }
    push_char(out, (48u8 + (n % 10) as u8) as char);
    proof {
        if n < 10 {
            assert(n % 10 == n);
        }
    }
    assert(final(out)@ =~= old(out)@ + decimal(n as nat));
}

/// The text of an 18-byte filename record.
pub fn filename_string(s: &Vec<u8>) -> (r: String)
    requires
        s@.len() == 18,
    ensures
        r@ == filename_text(s@),
{
    let mac = crate::bytes::read_n_to_vec(s, 0, 3);
    let ident = crate::bytes::read_n_to_vec(s, 3, 13);
    let edits = crate::bytes::read_u16_le(s, 16);
    match (mac, ident, edits) {
        (Ok(mac), Ok(ident), Ok(edits)) => {
            let mut out = String::new();
            push_hex_fwd(&mut out, &mac);
            push_char(&mut out, '_');
            push_latin1(&mut out, &ident);
            push_char(&mut out, '_');
            if edits < 10 {
                push_char(&mut out, '0');
                push_char(&mut out, '0');
            } else if edits < 100 {
                push_char(&mut out, '0');
            }
            push_decimal(&mut out, edits);
            assert(out@ =~= filename_text(s@));
            out
        },
        _ => String::new(),
    }
}

} // verus!
