//! Hexadecimal text for hashes and identities: encoding through an
//! outside implementation with an exact contract, and a verified decoder
//! for hash arguments handed in as text.

use vstd::prelude::*;

verus! {

/// Lowercase hexadecimal digit of a value below sixteen.
pub open spec fn hex_digit(v: u8) -> u8 {
    if v < 10 {
        (48 + v) as u8
    } else {
        (87 + v) as u8
    }
}

/// The lowercase hexadecimal encoding: two digits per byte, most
/// significant digit first, no prefix.
pub open spec fn hex_of(b: Seq<u8>) -> Seq<u8> {
    Seq::new(
        2 * b.len(),
        |i: int|
            if i % 2 == 0 {
                hex_digit((b[i / 2] / 16) as u8)
            } else {
                hex_digit((b[i / 2] % 16) as u8)
            },
    )
}

/// The byte is an ASCII hexadecimal digit, either case.
pub open spec fn is_hex_byte(c: u8) -> bool {
    (48 <= c <= 57) || (97 <= c <= 102) || (65 <= c <= 70)
}

/// Value of an ASCII hexadecimal digit, either case.
pub open spec fn hex_val(c: u8) -> u8 {
    if 48 <= c <= 57 {
        (c - 48) as u8
    } else if 97 <= c <= 102 {
        (c - 87) as u8
    } else {
        (c - 55) as u8
    }
}

/// Relies on faster_hex::hex_string: it encodes each byte as two
/// lowercase ASCII hexadecimal digits, most significant first, with no
/// prefix or separators. It panics when the output length overflows, so
/// such inputs are excluded.
#[verifier::external_body]
fn hex_string_bytes(b: &Vec<u8>) -> (r: Vec<u8>)
    requires
        2 * b@.len() <= usize::MAX,
    ensures
        r@ == hex_of(b@),
{
    faster_hex::hex_string(b.as_slice()).into_bytes()
}

/// Lowercase hexadecimal text of a byte string, prefixed with `0x`: how
/// hashes and lock identities are displayed and accepted.
pub fn hex_with_prefix(b: &Vec<u8>) -> (r: Vec<u8>)
    requires
        2 * b@.len() + 2 <= usize::MAX,
    ensures
        r@ == seq![48u8, 120u8] + hex_of(b@),
{
    let digits = hex_string_bytes(b);
    let mut r: Vec<u8> = Vec::new();
    r.push(48);
    r.push(120);
    let n = digits.len();
    let mut i: usize = 0;
    while i < n
        invariant
            i <= n,
            n == digits@.len(),
            r@ == seq![48u8, 120u8] + digits@.take(i as int),
        decreases n - i,
    {
        r.push(digits[i]);
        proof {
            assert(seq![48u8, 120u8] + digits@.take(i + 1) =~= (seq![48u8, 120u8] + digits@.take(
                i as int,
            )).push(digits@[i as int]));
        }
        i += 1;
    }
    proof {
        assert(digits@.take(n as int) =~= digits@);
    }
    r
}

/// Decodes hexadecimal text (either case) into bytes: nothing on odd
/// length or a byte that is no hexadecimal digit.
pub fn hex_decode_bytes(s: &Vec<u8>) -> (r: Option<Vec<u8>>)
    ensures
        r is Some <==> s@.len() % 2 == 0 && (forall|i: int|
            0 <= i < s@.len() ==> is_hex_byte(#[trigger] s@[i])),
        r matches Some(v) ==> {
            &&& 2 * v@.len() == s@.len()
            &&& forall|i: int|
                0 <= i < v@.len() ==> #[trigger] v@[i] == hex_val(s@[2 * i]) * 16 + hex_val(
                    s@[2 * i + 1],
                )
        },
{
    let n = s.len();
    if n % 2 != 0 {
        return None;
    }
    let mut v: Vec<u8> = Vec::new();
    let mut i: usize = 0;
    while i < n
        invariant
            i <= n,
            n == s@.len(),
            n % 2 == 0,
            i % 2 == 0,
            2 * v@.len() == i,
            forall|k: int| 0 <= k < i ==> is_hex_byte(#[trigger] s@[k]),
            forall|k: int|
                0 <= k < v@.len() ==> #[trigger] v@[k] == hex_val(s@[2 * k]) * 16 + hex_val(
                    s@[2 * k + 1],
                ),
        decreases n - i,
    {
        let hi = s[i];
        let lo = s[i + 1];
        let hi_ok = (48 <= hi && hi <= 57) || (97 <= hi && hi <= 102) || (65 <= hi && hi <= 70);
        let lo_ok = (48 <= lo && lo <= 57) || (97 <= lo && lo <= 102) || (65 <= lo && lo <= 70);
        if !hi_ok || !lo_ok {
            return None;
        }
        let hv = if hi <= 57 {
            hi - 48
        } else if hi >= 97 {
            hi - 87
        } else {
            hi - 55
        };
        let lv = if lo <= 57 {
            lo - 48
        } else if lo >= 97 {
            lo - 87
        } else {
            lo - 55
        };
        v.push(hv * 16 + lv);
        i += 2;
    }
    Some(v)
}

/// Hash text as the command line hands it over: `0x` plus 64 hexadecimal
/// digits. Returns the 32 hash bytes, or nothing on any other shape.
pub fn parse_h256(s: &Vec<u8>) -> (r: Option<Vec<u8>>)
    ensures
        r is Some <==> s@.len() == 66 && s@[0] == 48 && s@[1] == 120 && (forall|i: int|
            2 <= i < 66 ==> is_hex_byte(#[trigger] s@[i])),
        r matches Some(v) ==> {
            &&& v@.len() == 32
            &&& forall|i: int|
                0 <= i < 32 ==> #[trigger] v@[i] == hex_val(s@[2 + 2 * i]) * 16 + hex_val(
                    s@[2 + 2 * i + 1],
                )
        },
{
    if s.len() != 66 {
        return None;
    }
    if !(s[0] == 48 && s[1] == 120) {
        return None;
    }
    let mut digits: Vec<u8> = Vec::new();
    let mut i: usize = 2;
    while i < 66
        invariant
            2 <= i <= 66,
            s@.len() == 66,
            digits@.len() == i - 2,
            forall|k: int| 0 <= k < i - 2 ==> #[trigger] digits@[k] == s@[k + 2],
        decreases 66 - i,
    {
        digits.push(s[i]);
        i += 1;
    }
    match hex_decode_bytes(&digits) {
        Some(v) => {
            proof {
                assert forall|k: int| 2 <= k < 66 implies is_hex_byte(#[trigger] s@[k]) by {
                    assert(is_hex_byte(digits@[k - 2]));
                }
                assert forall|k: int| 0 <= k < 32 implies #[trigger] v@[k] == hex_val(
                    s@[2 + 2 * k],
                ) * 16 + hex_val(s@[2 + 2 * k + 1]) by {
                    assert(digits@[2 * k] == s@[2 * k + 2]);
                    assert(digits@[2 * k + 1] == s@[2 * k + 1 + 2]);
                }
            }
            Some(v)
        },
        None => {
            proof {
                if forall|k: int| 2 <= k < 66 ==> is_hex_byte(#[trigger] s@[k]) {
                    assert forall|k: int|
                        0 <= k < digits@.len() implies is_hex_byte(#[trigger] digits@[k]) by {
                        assert(digits@[k] == s@[k + 2]);
                        assert(is_hex_byte(s@[k + 2]));
                    }
                    assert(false);
                }
            }
            None
        },
    }
}

/// Decoding inverts encoding: the bytes decoded from a lowercase
/// hexadecimal encoding are the bytes that were encoded.
pub proof fn lemma_hex_round_trip(v: Seq<u8>, w: Seq<u8>, u: Seq<u8>)
    requires
        w == hex_of(v),
        2 * u.len() == w.len(),
        forall|i: int|
            0 <= i < u.len() ==> #[trigger] u[i] == hex_val(w[2 * i]) * 16 + hex_val(w[2 * i + 1]),
    ensures
        u == v,
{
    assert forall|i: int| 0 <= i < v.len() implies u[i] == v[i] by {
        assert(w[2 * i] == hex_digit((v[i] / 16) as u8));
        assert(w[2 * i + 1] == hex_digit((v[i] % 16) as u8));
    }
    assert(u =~= v);
}

} // verus!
