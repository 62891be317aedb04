//! The tagged, length-prefixed object representation and its codec.
//!
//! The uncompressed form of every stored object is
//! `<kind-name> <decimal-size> NUL <payload>`; the digest is computed over
//! exactly this sequence.

use vstd::prelude::*;

use crate::errors::StoreError;
use crate::kind::{kind_name, Kind};

verus! {

/// How many leading bytes are scanned for the header's NUL terminator.
/// The longest well-formed header is `commit`, a space, and twenty decimal
/// digits: 27 bytes before the NUL.
pub const HEADER_SCAN_MAX: usize = 32;

/// The decimal rendering of a number, most significant digit first, with no
/// leading zeros (a lone zero digit for zero).
pub open spec fn dec_rep(n: nat) -> Seq<u8>
    decreases n,
{
    if n < 10 {
        seq![(48 + n) as u8]
    } else {
        dec_rep(n / 10).push((48 + n % 10) as u8)
    }
}

/// Whether every byte of a sequence is an ASCII decimal digit.
pub open spec fn is_digit_seq(s: Seq<u8>) -> bool {
    forall|i: int| 0 <= i < s.len() ==> 48 <= #[trigger] s[i] <= 57
}

/// The numeric value of a sequence of ASCII decimal digits.
pub open spec fn dec_val(s: Seq<u8>) -> nat
    decreases s.len(),
{
    if s.len() == 0 {
        0
    } else {
        (dec_val(s.drop_last()) * 10 + (s.last() - 48)) as nat
    }
}

/// A decimal rendering consists of digits and is never empty.
pub proof fn lemma_dec_rep_digits(n: nat)
    ensures
        dec_rep(n).len() >= 1,
        is_digit_seq(dec_rep(n)),
    decreases n,
{
    if n >= 10 {
        lemma_dec_rep_digits(n / 10);
        assert forall|i: int| 0 <= i < dec_rep(n).len() implies 48 <= #[trigger] dec_rep(n)[i]
            <= 57 by {
            if i < dec_rep(n / 10).len() {
                assert(dec_rep(n)[i] == dec_rep(n / 10)[i]);
            }
        }
    }
}

/// Reading the decimal rendering of a number back gives the number.
pub proof fn lemma_dec_val_of_rep(n: nat)
    ensures
        dec_val(dec_rep(n)) == n,
    decreases n,
{
    if n < 10 {
        assert(dec_rep(n).drop_last() =~= Seq::<u8>::empty());
        assert(dec_rep(n).last() == (48 + n) as u8);
        assert(dec_val(Seq::<u8>::empty()) == 0);
        assert(dec_val(dec_rep(n)) == (dec_val(Seq::<u8>::empty()) * 10 + ((48 + n) as u8 - 48))
            as nat);
    } else {
        lemma_dec_val_of_rep(n / 10);
        assert(dec_rep(n).drop_last() =~= dec_rep(n / 10));
        assert(dec_rep(n).last() == (48 + n % 10) as u8);
        assert(dec_val(dec_rep(n)) == (dec_val(dec_rep(n / 10)) * 10 + ((48 + n % 10) as u8 - 48))
            as nat);
        assert(dec_val(dec_rep(n)) == ((n / 10) * 10 + n % 10) as nat);
    }
}

/// Powers of ten.
pub open spec fn pow10(k: nat) -> nat
    decreases k,
{
    if k == 0 {
        1
    } else {
        10 * pow10((k - 1) as nat)
    }
}

/// A number below the `k`-th power of ten renders in at most `k` digits.
pub proof fn lemma_dec_rep_len(n: nat, k: nat)
    requires
        k >= 1,
        n < pow10(k),
    ensures
        dec_rep(n).len() <= k,
    decreases n,
{
    if n >= 10 {
        assert(n / 10 < pow10((k - 1) as nat)) by {
            assert(pow10(k) == 10 * pow10((k - 1) as nat));
        }
        lemma_dec_rep_len(n / 10, (k - 1) as nat);
    }
}

/// A sixty-four-bit size renders in at most twenty digits.
pub proof fn lemma_dec_rep_len_u64(n: nat)
    requires
        n <= u64::MAX,
    ensures
        dec_rep(n).len() <= 20,
{
    assert(pow10(20) == 100000000000000000000) by {
        reveal_with_fuel(pow10, 21);
    }
    lemma_dec_rep_len(n, 20);
}

/// Renders a number in decimal.
pub fn u64_to_dec(n: u64) -> (r: Vec<u8>)
    ensures
        r@ == dec_rep(n as nat),
    decreases n,
{
    if n < 10 {
        let mut v: Vec<u8> = Vec::new();
        v.push(48 + n as u8);
        proof {
            assert(v@ =~= dec_rep(n as nat));
        }
        v
    } else {
        let mut v = u64_to_dec(n / 10);
        v.push(48 + (n % 10) as u8);
        proof {
            assert(v@ =~= dec_rep(n as nat));
        }
        v
    }
}

/// Appending a digit multiplies the value by ten and adds the digit.
proof fn lemma_dec_val_push(s: Seq<u8>, d: u8)
    requires
        48 <= d <= 57,
    ensures
        dec_val(s.push(d)) == dec_val(s) * 10 + (d - 48),
{
    assert(s.push(d).drop_last() =~= s);
}

/// The value of a digit string grows, digit by digit, from any prefix.
proof fn lemma_dec_val_prefix_le(s: Seq<u8>, i: int)
    requires
        0 <= i <= s.len(),
        is_digit_seq(s),
    ensures
        dec_val(s.subrange(0, i)) <= dec_val(s),
    decreases s.len() - i,
{
    if i < s.len() {
        lemma_dec_val_push(s.subrange(0, i), s[i]);
        assert(s.subrange(0, i).push(s[i]) =~= s.subrange(0, i + 1));
        assert(dec_val(s.subrange(0, i)) <= dec_val(s.subrange(0, i + 1)));
        lemma_dec_val_prefix_le(s, i + 1);
    } else {
        assert(s.subrange(0, i) =~= s);
    }
}

/// Reads the decimal value of the digits at `from .. to` of `data`.
/// Returns the value exactly when that range is nonempty, holds only
/// digits, and its value fits in sixty-four bits.
pub fn dec_range_to_u64(data: &Vec<u8>, from: usize, to: usize) -> (r: Option<u64>)
    requires
        from <= to <= data@.len(),
    ensures
        ({
            let digits = data@.subrange(from as int, to as int);
            match r {
                Some(n) => digits.len() > 0 && is_digit_seq(digits) && n as nat == dec_val(digits),
                None => digits.len() == 0 || !is_digit_seq(digits) || dec_val(digits) > u64::MAX,
            }
        }),
{
    let ghost digits = data@.subrange(from as int, to as int);
    if from == to {
        return None;
    }
    let mut n: u64 = 0;
    let mut i: usize = from;
    while i < to
        invariant
            from <= i <= to <= data@.len(),
            digits == data@.subrange(from as int, to as int),
            is_digit_seq(data@.subrange(from as int, i as int)),
            n as nat == dec_val(data@.subrange(from as int, i as int)),
        decreases to - i,
    {
        let b = data[i];
        if b < 48 || b > 57 {
            proof {
                assert(digits[i - from] == b);
            }
            return None;
        }
        let d = b - 48;
        proof {
            lemma_dec_val_push(data@.subrange(from as int, i as int), b);
            assert(data@.subrange(from as int, i as int).push(b) =~= data@.subrange(
                from as int,
                i + 1,
            ));
        }
        if n > (u64::MAX - d as u64) / 10 {
            proof {
                let upto = data@.subrange(from as int, i + 1);
                assert(dec_val(upto) > u64::MAX);
                if is_digit_seq(digits) {
                    assert(forall|j: int|
                        0 <= j < digits.len() ==> digits[j] == #[trigger] data@[from + j]);
                    assert(is_digit_seq(data@.subrange(from as int, to as int)));
                    lemma_dec_val_prefix_le(digits, i + 1 - from);
                    assert(upto =~= digits.subrange(0, i + 1 - from));
                    assert(dec_val(digits) > u64::MAX);
                }
            }
            return None;
        }
        n = n * 10 + d as u64;
        i = i + 1;
    }
    proof {
        assert(data@.subrange(from as int, i as int) =~= digits);
    }
    Some(n)
}

/// A decoded object: its kind, its declared payload size, and exactly that
/// many payload bytes.
#[derive(Debug, PartialEq, Eq)]
pub struct Object {
    pub kind: Kind,
    pub expected_size: u64,
    pub payload: Vec<u8>,
}

impl Object {
    /// The declared size always matches the payload actually held.
    pub open spec fn wf(&self) -> bool {
        self.expected_size == self.payload@.len()
    }
}

/// The uncompressed stored representation of an object: the kind name, a
/// space, the payload length in decimal, a NUL byte, then the payload.
pub open spec fn object_rep(k: Kind, payload: Seq<u8>) -> Seq<u8> {
    kind_name(k) + seq![32u8] + dec_rep(payload.len()) + seq![0u8] + payload
}

/// The kind whose name a byte sequence spells, if any.
pub open spec fn kind_of_name(s: Seq<u8>) -> Option<Kind> {
    if s == kind_name(Kind::Blob) {
        Some(Kind::Blob)
    } else if s == kind_name(Kind::Tree) {
        Some(Kind::Tree)
    } else if s == kind_name(Kind::Commit) {
        Some(Kind::Commit)
    } else if s == kind_name(Kind::Tag) {
        Some(Kind::Tag)
    } else {
        None
    }
}

/// What parsing an uncompressed object representation yields: the kind, the
/// declared size, and the payload bounded to exactly that size. The header
/// runs to the first NUL byte, which must lie within the scan bound; it
/// splits at its first space into a known kind name and a decimal size.
/// Bytes past the declared size are ignored; too few bytes are a size
/// mismatch.
pub open spec fn parse_object(data: Seq<u8>) -> Result<(Kind, u64, Seq<u8>), StoreError> {
    match data.index_of_first(0u8) {
        Some(e) => {
            if e > HEADER_SCAN_MAX {
                Err(StoreError::CorruptHeader)
            } else {
                let header = data.subrange(0, e);
                match header.index_of_first(32u8) {
                    Some(sp) => {
                        let digits = header.subrange(sp + 1, e);
                        match kind_of_name(header.subrange(0, sp)) {
                            Some(k) => {
                                if digits.len() == 0 || !is_digit_seq(digits) || dec_val(digits)
                                    > u64::MAX {
                                    Err(StoreError::CorruptHeader)
                                } else {
                                    let size = dec_val(digits);
                                    let rest = data.subrange(e + 1, data.len() as int);
                                    if rest.len() < size {
                                        Err(
                                            StoreError::SizeMismatch {
                                                expected: size as u64,
                                                actual: rest.len() as u64,
                                            },
                                        )
                                    } else {
                                        Ok((k, size as u64, rest.subrange(0, size as int)))
                                    }
                                }
                            },
                            None => Err(StoreError::CorruptHeader),
                        }
                    },
                    None => Err(StoreError::CorruptHeader),
                }
            }
        },
        None => Err(StoreError::CorruptHeader),
    }
}

/// A byte with a known first occurrence pins down `index_of_first`.
proof fn lemma_first_index(s: Seq<u8>, b: u8, e: int)
    requires
        0 <= e < s.len(),
        s[e] == b,
        forall|j: int| 0 <= j < e ==> s[j] != b,
    ensures
        s.index_of_first(b) == Some(e),
{
    s.index_of_first_ensures(b);
    match s.index_of_first(b) {
        Some(i) => {
            if i < e {
                assert(s[i] != b);
            } else if i > e {
                assert(s[e] != b);
            }
        },
        None => {
            assert(s.contains(b));
        },
    }
}

/// A byte that occurs nowhere has no first occurrence.
proof fn lemma_no_index(s: Seq<u8>, b: u8)
    requires
        forall|j: int| 0 <= j < s.len() ==> s[j] != b,
    ensures
        s.index_of_first(b) == None::<int>,
{
    s.index_of_first_ensures(b);
    match s.index_of_first(b) {
        Some(i) => {
            assert(s[i] != b);
        },
        None => {},
    }
}

/// A kind name is short and contains neither NUL nor space.
proof fn lemma_kind_name_bytes(k: Kind)
    ensures
        1 <= kind_name(k).len() <= 6,
        forall|i: int| 0 <= i < kind_name(k).len() ==> #[trigger] kind_name(k)[i] != 0,
        forall|i: int| 0 <= i < kind_name(k).len() ==> #[trigger] kind_name(k)[i] != 32,
{
    match k {
        Kind::Blob => {
            assert forall|i: int| 0 <= i < kind_name(k).len() implies #[trigger] kind_name(k)[i]
                != 0 && kind_name(k)[i] != 32 by {
                assert(kind_name(k)[i] == 98 || kind_name(k)[i] == 108 || kind_name(k)[i] == 111);
            }
        },
        Kind::Tree => {
            assert forall|i: int| 0 <= i < kind_name(k).len() implies #[trigger] kind_name(k)[i]
                != 0 && kind_name(k)[i] != 32 by {
                assert(kind_name(k)[i] == 116 || kind_name(k)[i] == 114 || kind_name(k)[i] == 101);
            }
        },
        Kind::Commit => {
            assert forall|i: int| 0 <= i < kind_name(k).len() implies #[trigger] kind_name(k)[i]
                != 0 && kind_name(k)[i] != 32 by {
                assert(kind_name(k)[i] == 99 || kind_name(k)[i] == 111 || kind_name(k)[i] == 109
                    || kind_name(k)[i] == 105 || kind_name(k)[i] == 116);
            }
        },
        Kind::Tag => {
            assert forall|i: int| 0 <= i < kind_name(k).len() implies #[trigger] kind_name(k)[i]
                != 0 && kind_name(k)[i] != 32 by {
                assert(kind_name(k)[i] == 116 || kind_name(k)[i] == 97 || kind_name(k)[i] == 103);
            }
        },
    }
}

/// Every kind is recovered from its own name.
proof fn lemma_kind_of_name_id(k: Kind)
    ensures
        kind_of_name(kind_name(k)) == Some(k),
{
    match k {
        Kind::Blob => {},
        Kind::Tree => {
            assert(kind_name(Kind::Tree)[0] != kind_name(Kind::Blob)[0]);
        },
        Kind::Commit => {
            assert(kind_name(Kind::Commit).len() != kind_name(Kind::Blob).len());
            assert(kind_name(Kind::Commit).len() != kind_name(Kind::Tree).len());
        },
        Kind::Tag => {
            assert(kind_name(Kind::Tag).len() != kind_name(Kind::Blob).len());
            assert(kind_name(Kind::Tag).len() != kind_name(Kind::Tree).len());
            assert(kind_name(Kind::Tag).len() != kind_name(Kind::Commit).len());
        },
    }
}

/// Parsing inverts the representation: the representation of any object,
/// with any trailing bytes after the declared payload, parses back to
/// exactly that object.
pub proof fn lemma_parse_object_rep(k: Kind, payload: Seq<u8>, extra: Seq<u8>)
    requires
        payload.len() <= u64::MAX,
    ensures
        parse_object(object_rep(k, payload) + extra) == Ok::<(Kind, u64, Seq<u8>), StoreError>(
            (k, payload.len() as u64, payload),
        ),
{
    let kn = kind_name(k);
    let dr = dec_rep(payload.len());
    let data = object_rep(k, payload) + extra;
    let e: int = (kn.len() + 1 + dr.len()) as int;
    lemma_kind_name_bytes(k);
    lemma_dec_rep_digits(payload.len());
    lemma_dec_rep_len_u64(payload.len());
    lemma_dec_val_of_rep(payload.len());
    assert(data.len() == e + 1 + payload.len() + extra.len());
    assert forall|j: int| 0 <= j < kn.len() implies data[j] == kn[j] by {}
    assert(data[kn.len() as int] == 32);
    assert forall|j: int| kn.len() + 1 <= j < e implies data[j] == dr[j - kn.len() - 1] by {}
    assert(data[e as int] == 0);
    assert forall|j: int| 0 <= j < e implies data[j] != 0 by {
        if j < kn.len() {
            assert(kn[j] != 0);
        } else if j > kn.len() {
            assert(48 <= dr[j - kn.len() - 1] <= 57);
        }
    }
    lemma_first_index(data, 0, e as int);
    assert(e <= 27);
    let header = data.subrange(0, e as int);
    assert forall|j: int| 0 <= j < header.len() implies header[j] == data[j] by {}
    assert forall|j: int| 0 <= j < kn.len() implies header[j] != 32 by {
        assert(kn[j] != 32);
    }
    lemma_first_index(header, 32, kn.len() as int);
    let sp = kn.len() as int;
    assert(header.subrange(0, sp) =~= kn);
    lemma_kind_of_name_id(k);
    let digits = header.subrange(sp + 1, e as int);
    assert(digits =~= dr);
    assert(dec_val(digits) == payload.len());
    let rest = data.subrange(e + 1, data.len() as int);
    assert(rest =~= payload + extra);
    assert(rest.len() >= payload.len());
    assert(rest.subrange(0, payload.len() as int) =~= payload);
}

/// The representation is injective: equal representations come from the
/// same kind and the same payload.
pub proof fn lemma_object_rep_injective(k1: Kind, p1: Seq<u8>, k2: Kind, p2: Seq<u8>)
    requires
        p1.len() <= u64::MAX,
        p2.len() <= u64::MAX,
        object_rep(k1, p1) == object_rep(k2, p2),
    ensures
        k1 == k2,
        p1 == p2,
{
    lemma_parse_object_rep(k1, p1, Seq::<u8>::empty());
    lemma_parse_object_rep(k2, p2, Seq::<u8>::empty());
    assert(object_rep(k1, p1) + Seq::<u8>::empty() =~= object_rep(k1, p1));
    assert(object_rep(k2, p2) + Seq::<u8>::empty() =~= object_rep(k2, p2));
}

/// Builds the uncompressed representation of an object.
pub fn encode_rep(kind: Kind, payload: &Vec<u8>) -> (r: Vec<u8>)
    requires
        payload@.len() <= u64::MAX,
    ensures
        r@ == object_rep(kind, payload@),
{
    let mut r = kind.name_bytes();
    r.push(32);
    let mut digits = u64_to_dec(payload.len() as u64);
    r.append(&mut digits);
    r.push(0);
    let mut i: usize = 0;
    while i < payload.len()
        invariant
            i <= payload@.len(),
            r@ == kind_name(kind) + seq![32u8] + dec_rep(payload@.len()) + seq![0u8]
                + payload@.subrange(0, i as int),
        decreases payload@.len() - i,
    {
        r.push(payload[i]);
        proof {
            assert(payload@.subrange(0, i as int).push(payload@[i as int]) =~= payload@.subrange(
                0,
                i + 1,
            ));
            assert(r@ =~= kind_name(kind) + seq![32u8] + dec_rep(payload@.len()) + seq![0u8]
                + payload@.subrange(0, i + 1));
        }
        i = i + 1;
    }
    proof {
        assert(payload@.subrange(0, payload@.len() as int) =~= payload@);
    }
    r
}

/// Finds the first occurrence of `b` among the first `bound` bytes of
/// `data` (or all of it, when shorter).
fn find_byte_upto(data: &Vec<u8>, bound: usize, b: u8) -> (r: Option<usize>)
    ensures
        r matches Some(i) ==> i < bound && i < data@.len() && data@[i as int] == b && forall|j: int|
            0 <= j < i ==> data@[j] != b,
        r is None ==> forall|j: int|
            0 <= j < data@.len() && j < bound ==> data@[j] != b,
{
    let mut i: usize = 0;
    while i < data.len() && i < bound
        invariant
            i <= data@.len(),
            forall|j: int| 0 <= j < i ==> data@[j] != b,
        decreases data@.len() - i,
    {
        if data[i] == b {
            return Some(i);
        }
        i = i + 1;
    }
    None
}

/// Decodes an uncompressed object representation, exactly as `parse_object`
/// describes.
pub fn decode_object(data: &Vec<u8>) -> (r: Result<Object, StoreError>)
    ensures
        ({
            let p = parse_object(data@);
            match r {
                Ok(o) => p matches Ok(t) && o.kind == t.0 && o.expected_size == t.1 && o.payload@
                    == t.2 && o.wf(),
                Err(err) => p matches Err(perr) && err == perr,
            }
        }),
{
    let nul = find_byte_upto(data, HEADER_SCAN_MAX + 1, 0);
    let e: usize = match nul {
        Some(e) => {
            proof {
                lemma_first_index(data@, 0, e as int);
            }
            e
        },
        None => {
            proof {
                data@.index_of_first_ensures(0u8);
                match data@.index_of_first(0u8) {
                    Some(i) => {
                        if i <= HEADER_SCAN_MAX {
                            assert(data@[i] != 0);
                        }
                    },
                    None => {},
                }
            }
            return Err(StoreError::CorruptHeader);
        },
    };
    let ghost header = data@.subrange(0, e as int);
    let sp: usize = match find_byte_upto(data, e, 32) {
        Some(sp) => {
            proof {
                assert(header[sp as int] == 32);
                assert forall|j: int| 0 <= j < sp implies header[j] != 32 by {
                    assert(header[j] == data@[j]);
                }
                lemma_first_index(header, 32, sp as int);
            }
            sp
        },
        None => {
            proof {
                assert forall|j: int| 0 <= j < header.len() implies header[j] != 32 by {
                    assert(header[j] == data@[j]);
                }
                lemma_no_index(header, 32);
            }
            return Err(StoreError::CorruptHeader);
        },
    };
    let kind = match kind_at(data, sp) {
        Some(k) => {
            proof {
                assert(header.subrange(0, sp as int) =~= data@.subrange(0, sp as int));
            }
            k
        },
        None => {
            proof {
                assert(header.subrange(0, sp as int) =~= data@.subrange(0, sp as int));
            }
            return Err(StoreError::CorruptHeader);
        },
    };
    let ghost digits = header.subrange(sp + 1, e as int);
    proof {
        assert(digits =~= data@.subrange(sp + 1, e as int));
    }
    let size: u64 = match dec_range_to_u64(data, sp + 1, e) {
        Some(n) => n,
        None => {
            return Err(StoreError::CorruptHeader);
        },
    };
    let rest_len: usize = data.len() - e - 1;
    let ghost rest = data@.subrange(e + 1, data@.len() as int);
    if (rest_len as u64) < size {
        return Err(StoreError::SizeMismatch { expected: size, actual: rest_len as u64 });
    }
    let size_us: usize = size as usize;
    let start: usize = e + 1;
    let end: usize = start + size_us;
    let mut payload: Vec<u8> = Vec::new();
    proof {
        assert(size_us == size);
        assert(end <= data@.len());
        assert(payload@ =~= data@.subrange(start as int, start as int));
    }
    let mut idx: usize = start;
    while idx < end
        invariant
            start <= idx <= end,
            end <= data@.len(),
            payload@ == data@.subrange(start as int, idx as int),
        decreases end - idx,
    {
        payload.push(data[idx]);
        proof {
            assert(data@.subrange(start as int, idx as int).push(data@[idx as int])
                =~= data@.subrange(start as int, idx + 1));
        }
        idx = idx + 1;
    }
    proof {
        assert(payload@ =~= rest.subrange(0, size as int));
    }
    Ok(Object { kind, expected_size: size, payload })
}

/// Compares the first `sp` bytes of `data` against the four kind names.
fn kind_at(data: &Vec<u8>, sp: usize) -> (r: Option<Kind>)
    requires
        sp <= data@.len(),
    ensures
        r == kind_of_name(data@.subrange(0, sp as int)),
{
    let ghost name = data@.subrange(0, sp as int);
    if sp == 4 && data[0] == 98 && data[1] == 108 && data[2] == 111 && data[3] == 98 {
        proof {
            assert(name =~= kind_name(Kind::Blob));
        }
        Some(Kind::Blob)
    } else if sp == 4 && data[0] == 116 && data[1] == 114 && data[2] == 101 && data[3] == 101 {
        proof {
            assert(name =~= kind_name(Kind::Tree));
            assert(name != kind_name(Kind::Blob));
        }
        Some(Kind::Tree)
    } else if sp == 6 && data[0] == 99 && data[1] == 111 && data[2] == 109 && data[3] == 109
        && data[4] == 105 && data[5] == 116 {
        proof {
            assert(name =~= kind_name(Kind::Commit));
        }
        Some(Kind::Commit)
    } else if sp == 3 && data[0] == 116 && data[1] == 97 && data[2] == 103 {
        proof {
            assert(name =~= kind_name(Kind::Tag));
        }
        Some(Kind::Tag)
    } else {
        proof {
            if name == kind_name(Kind::Blob) {
                assert(name.len() == 4 && name[0] == 98 && name[1] == 108 && name[2] == 111
                    && name[3] == 98);
                assert(false);
            }
            if name == kind_name(Kind::Tree) {
                assert(name.len() == 4 && name[0] == 116 && name[1] == 114 && name[2] == 101
                    && name[3] == 101);
                assert(false);
            }
            if name == kind_name(Kind::Commit) {
                assert(name.len() == 6 && name[0] == 99 && name[1] == 111 && name[2] == 109
                    && name[3] == 109 && name[4] == 105 && name[5] == 116);
                assert(false);
            }
            if name == kind_name(Kind::Tag) {
                assert(name.len() == 3 && name[0] == 116 && name[1] == 97 && name[2] == 103);
                assert(false);
            }
        }
        None
    }
}

} // verus!
