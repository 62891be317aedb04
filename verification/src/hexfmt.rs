//! Lowercase hexadecimal rendering of digests, and its inverse.

use vstd::prelude::*;

verus! {

/// The lowercase ASCII hex digit for a nibble value below 16.
pub open spec fn hex_digit(n: u8) -> u8
    recommends
        n < 16,
{
    if n < 10 {
        (48 + n) as u8
    } else {
        (87 + n) as u8
    }
}

/// The lowercase hex rendering of a byte sequence: two digits per byte,
/// high nibble first.
pub open spec fn hex_of(bytes: Seq<u8>) -> Seq<u8> {
    Seq::new(
        bytes.len() * 2,
        |i: int|
            if i % 2 == 0 {
                hex_digit(bytes[i / 2] / 16)
            } else {
                hex_digit(bytes[i / 2] % 16)
            },
    )
}

/// The nibble value of a lowercase ASCII hex digit, if it is one.
pub open spec fn nibble_of(d: u8) -> Option<u8> {
    if 48 <= d <= 57 {
        Some((d - 48) as u8)
    } else if 97 <= d <= 102 {
        Some((d - 87) as u8)
    } else {
        None
    }
}

/// Renders bytes as lowercase hex, two digits per byte.
pub fn bytes_to_hex(bytes: &Vec<u8>) -> (r: Vec<u8>)
    ensures
        r@ == hex_of(bytes@),
{
    let mut r: Vec<u8> = Vec::new();
    let mut i: usize = 0;
    while i < bytes.len()
        invariant
            i <= bytes.len(),
            r@.len() == i * 2,
            forall|j: int| 0 <= j < r@.len() ==> r@[j] == hex_of(bytes@)[j],
        decreases bytes.len() - i,
    {
        let b = bytes[i];
        let hi = b / 16;
        let lo = b % 16;
        let hd = if hi < 10 {
            48 + hi
        } else {
            87 + hi
        };
        let ld = if lo < 10 {
            48 + lo
        } else {
            87 + lo
        };
        r.push(hd);
        r.push(ld);
        i = i + 1;
    }
    proof {
        assert(r@ =~= hex_of(bytes@));
    }
    r
}

/// Renders a twenty-byte digest as forty lowercase hex digits.
pub fn digest_to_hex(d: &[u8; 20]) -> (r: Vec<u8>)
    ensures
        r@ == hex_of(d@),
{
    let mut v: Vec<u8> = Vec::new();
    let mut i: usize = 0;
    while i < 20
        invariant
            i <= 20,
            v@ == d@.take(i as int),
        decreases 20 - i,
    {
        v.push(d[i]);
        proof {
            assert(d@.take(i as int).push(d@[i as int]) =~= d@.take(i + 1));
        }
        i = i + 1;
    }
    proof {
        assert(v@ =~= d@);
    }
    bytes_to_hex(&v)
}

/// Decodes a lowercase hex string back into bytes. Returns the unique
/// preimage when the input is the hex rendering of some byte sequence, and
/// nothing otherwise (odd length, or a character that is not a lowercase
/// hex digit).
pub fn hex_to_bytes(hex: &Vec<u8>) -> (r: Option<Vec<u8>>)
    ensures
        r matches Some(v) ==> hex@ == hex_of(v@),
        r is None ==> forall|v: Seq<u8>| hex@ != hex_of(v),
{
    if hex.len() % 2 != 0 {
        proof {
            assert forall|v: Seq<u8>| hex@ != hex_of(v) by {
                assert(hex_of(v).len() == v.len() * 2);
            }
        }
        return None;
    }
    let mut out: Vec<u8> = Vec::new();
    let mut i: usize = 0;
    while i < hex.len()
        invariant
            i <= hex.len(),
            i % 2 == 0,
            hex.len() % 2 == 0,
            out@.len() * 2 == i,
            hex@.subrange(0, i as int) == hex_of(out@),
        decreases hex.len() - i,
    {
        let hd = hex[i];
        let ld = hex[i + 1];
        let hi = if 48 <= hd && hd <= 57 {
            hd - 48
        } else if 97 <= hd && hd <= 102 {
            hd - 87
        } else {
            proof {
                lemma_no_preimage(hex@, i as int);
            }
            return None;
        };
        let lo = if 48 <= ld && ld <= 57 {
            ld - 48
        } else if 97 <= ld && ld <= 102 {
            ld - 87
        } else {
            proof {
                lemma_no_preimage(hex@, i + 1);
            }
            return None;
        };
        let b = hi * 16 + lo;
        out.push(b);
        proof {
            assert(hex@.subrange(0, i + 2) =~= hex_of(out@)) by {
                assert(hex@[i as int] == hex_digit(b / 16));
                assert(hex@[i + 1] == hex_digit(b % 16));
            }
        }
        i = i + 2;
    }
    proof {
        assert(hex@.subrange(0, hex@.len() as int) =~= hex@);
    }
    Some(out)
}

/// If some position of a string holds no lowercase hex digit, the string
/// renders no byte sequence.
proof fn lemma_no_preimage(hex: Seq<u8>, i: int)
    requires
        0 <= i < hex.len(),
        nibble_of(hex[i]) is None,
    ensures
        forall|v: Seq<u8>| hex != hex_of(v),
{
    assert forall|v: Seq<u8>| hex != hex_of(v) by {
        if hex == hex_of(v) {
            if i % 2 == 0 {
                assert(hex[i] == hex_digit(v[i / 2] / 16));
            } else {
                assert(hex[i] == hex_digit(v[i / 2] % 16));
            }
        }
    }
}

} // verus!
