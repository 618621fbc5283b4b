//! Hex codec for a single share with Reed-Solomon error correction.
//!
//! Wire layout: a 4-byte magic tag, the x-coordinate byte, the parity
//! count, the y-length as 4 bytes little-endian, then the systematic
//! codeword (y followed by the parity bytes), the whole rendered as
//! lowercase hex.

use vstd::prelude::*;
use crate::gf256::GF256;
use crate::shamir::Share;

verus! {

/// Failure kinds of the share codec.
#[derive(Copy, Clone, Debug, PartialEq, Eq, Structural)]
pub enum ShareCodecError {
    /// The string is not well-formed hex.
    Hex,
    /// The magic tag does not match.
    BadMagic,
    /// The buffer ends early, or bytes trail the record.
    Truncated,
    /// The declared lengths do not fit the platform.
    Overflow,
    /// Error correction failed or the corrected data is inconsistent.
    EccDecode,
}

/// The record's magic tag, the bytes of "SHR1".
pub open spec fn rec_magic() -> Seq<u8> {
    seq![0x53u8, 0x48u8, 0x52u8, 0x31u8]
}

/// A 32-bit length as 4 little-endian bytes.
pub open spec fn le32(n: nat) -> Seq<u8> {
    seq![
        (n % 256) as u8,
        ((n / 256) % 256) as u8,
        ((n / 65536) % 256) as u8,
        ((n / 16777216) % 256) as u8,
    ]
}

/// The value of 4 little-endian bytes.
pub open spec fn le32_val(s: Seq<u8>) -> nat {
    (s[0] as nat) + 256 * (s[1] as nat) + 65536 * (s[2] as nat) + 16777216 * (s[3] as nat)
}

/// The `i`-th Reed-Solomon parity byte for `data` with `ecc` parity bytes
/// in all: what the outside encoder computes, named but not spelled out.
pub uninterp spec fn rs_parity_byte(data: Seq<u8>, ecc: nat, i: int) -> u8;

/// The Reed-Solomon parity block: `ecc` bytes, each named by position.
pub open spec fn rs_parity(data: Seq<u8>, ecc: nat) -> Seq<u8> {
    Seq::new(ecc, |i: int| rs_parity_byte(data, ecc, i))
}

/// The number of positions at which two equal-length sequences differ.
pub open spec fn diff_count(a: Seq<u8>, b: Seq<u8>) -> nat
    decreases a.len(),
{
    if a.len() == 0 {
        0
    } else {
        diff_count(a.drop_last(), b.drop_last()) + (if a.last() == b.last() {
            0nat
        } else {
            1nat
        })
    }
}

/// The full record for a share `(x, y)` with `ecc` parity bytes.
pub open spec fn record_bytes(x: u8, y: Seq<u8>, ecc: u8) -> Seq<u8> {
    rec_magic() + seq![x, ecc] + le32(y.len()) + y + rs_parity(y, ecc as nat)
}

/// What the header checks alone decide: the error a record's first bytes
/// force, or `None` when the header is sound and the buffer holds at
/// least the declared codeword.
pub open spec fn head_result(b: Seq<u8>) -> Option<ShareCodecError> {
    if b.len() < 4 {
        Some(ShareCodecError::Truncated)
    } else if b.take(4) != rec_magic() {
        Some(ShareCodecError::BadMagic)
    } else if b.len() < 10 {
        Some(ShareCodecError::Truncated)
    } else if b[5] < 2 {
        Some(ShareCodecError::Truncated)
    } else if le32_val(b.subrange(6, 10)) + b[5] > usize::MAX {
        Some(ShareCodecError::Overflow)
    } else if b.len() < 10 + le32_val(b.subrange(6, 10)) + b[5] {
        Some(ShareCodecError::Truncated)
    } else {
        None
    }
}

/// Everything decoding promises about its result on input `b`.
pub open spec fn decode_post(b: Seq<u8>, r: Result<Share, ShareCodecError>) -> bool {
    &&& (head_result(b) is Some ==> r == Result::<Share, ShareCodecError>::Err(
        head_result(b)->Some_0,
    ))
    &&& (head_result(b) is None ==> {
        let ecc = b[5];
        let ylen = le32_val(b.subrange(6, 10));
        let clen = ylen + ecc;
        &&& (clen >= 256 || ecc > 170 ==> r == Result::<Share, ShareCodecError>::Err(
            ShareCodecError::EccDecode,
        ))
        &&& (clen < 256 && ecc <= 170 ==> {
            &&& (r is Ok ==> b.len() == 10 + clen && r->Ok_0.x.0 == b[4] && r->Ok_0.y@.len()
                == ylen)
            &&& (forall|y: Seq<u8>|
                y.len() == ylen && #[trigger] diff_count(
                    b.subrange(10, 10 + clen as int),
                    y + rs_parity(y, ecc as nat),
                ) <= ecc / 2 ==> (b.len() == 10 + clen ==> r is Ok && r->Ok_0.x.0 == b[4]
                    && r->Ok_0.y@ == y) && (b.len() != 10 + clen
                    ==> r == Result::<Share, ShareCodecError>::Err(ShareCodecError::Truncated)))
            &&& (r is Err ==> r->Err_0 == ShareCodecError::EccDecode || r->Err_0
                == ShareCodecError::Truncated)
            &&& (r->Err_0 == ShareCodecError::Truncated && r is Err ==> b.len() > 10 + clen)
        })
    })
}

/// A lowercase hex digit for a value below 16.
pub open spec fn hex_digit(v: u8) -> char {
    if v == 0 {
        '0'
    } else if v == 1 {
        '1'
    } else if v == 2 {
        '2'
    } else if v == 3 {
        '3'
    } else if v == 4 {
        '4'
    } else if v == 5 {
        '5'
    } else if v == 6 {
        '6'
    } else if v == 7 {
        '7'
    } else if v == 8 {
        '8'
    } else if v == 9 {
        '9'
    } else if v == 10 {
        'a'
    } else if v == 11 {
        'b'
    } else if v == 12 {
        'c'
    } else if v == 13 {
        'd'
    } else if v == 14 {
        'e'
    } else {
        'f'
    }
}

/// The bytes rendered as lowercase hex, high nibble first.
pub open spec fn hex_of(bytes: Seq<u8>) -> Seq<char> {
    Seq::new(
        2 * bytes.len(),
        |i: int|
            if i % 2 == 0 {
                hex_digit(bytes[i / 2] / 16)
            } else {
                hex_digit(bytes[i / 2] % 16)
            },
    )
}

/// A character that decodes as a hex digit, either case.
pub open spec fn is_hex_digit(c: char) -> bool {
    ('0' <= c && c <= '9') || ('a' <= c && c <= 'f') || ('A' <= c && c <= 'F')
}

/// A string that hex-decodes: even length, hex digits throughout.
pub open spec fn valid_hex(s: Seq<char>) -> bool {
    s.len() % 2 == 0 && forall|i: int| 0 <= i < s.len() ==> is_hex_digit(#[trigger] s[i])
}

/// The value of one hex digit character.
pub open spec fn hex_val(c: char) -> u8 {
    if '0' <= c && c <= '9' {
        ((c as u32) - ('0' as u32)) as u8
    } else if 'a' <= c && c <= 'f' {
        ((c as u32) - ('a' as u32) + 10) as u8
    } else if 'A' <= c && c <= 'F' {
        ((c as u32) - ('A' as u32) + 10) as u8
    } else {
        0
    }
}

/// The bytes a hex string denotes, two digits per byte.
pub open spec fn hex_bytes_of(s: Seq<char>) -> Seq<u8> {
    Seq::new(s.len() / 2, |i: int| (16 * hex_val(s[2 * i]) + hex_val(s[2 * i + 1])) as u8)
}

/// Relies on reed_solomon::Encoder::encode: the systematic codeword, the
/// data followed by `ecc` parity bytes.  The encoder's block is capped at
/// 255 bytes, the field's non-zero count.
#[verifier::external_body]
fn rs_encode(data: &Vec<u8>, ecc: u8) -> (r: Vec<u8>)
    requires
        1 <= ecc,
        data@.len() + ecc <= 255,
    ensures
        r@.len() == data@.len() + ecc,
        r@.take(data@.len() as int) == data@,
        forall|i: int|
            0 <= i < ecc ==> r@[data@.len() + i] == #[trigger] rs_parity_byte(
                data@,
                ecc as nat,
                i,
            ),
        r@.skip(data@.len() as int) == rs_parity(data@, ecc as nat),
{
    let enc = reed_solomon::Encoder::new(ecc as usize);
    let buf = enc.encode(data);
    buf.to_vec()
}

/// Relies on reed_solomon::Decoder::correct: any buffer within
/// `floor(ecc/2)` byte errors of a codeword is corrected to that
/// codeword's data; whatever comes back on success has the data length.
/// The decoder works in a fixed 256-byte polynomial buffer and while
/// correcting `v` errors builds polynomials of length `ecc + v + 1`, so
/// it can panic once `ecc + floor(ecc/2) + 1` exceeds 256: parity counts
/// above 170 are kept out.
#[verifier::external_body]
fn rs_correct(code: &Vec<u8>, ecc: u8) -> (r: Option<Vec<u8>>)
    requires
        1 <= ecc,
        ecc <= 170,
        ecc <= code@.len(),
        code@.len() < 256,
    ensures
        r is Some ==> r->0@.len() + ecc == code@.len(),
        forall|y: Seq<u8>|
            y.len() + ecc == code@.len() && #[trigger] diff_count(
                code@,
                y + rs_parity(y, ecc as nat),
            ) <= ecc / 2 ==> r is Some && r->0@ == y,
{
    let dec = reed_solomon::Decoder::new(ecc as usize);
    match dec.correct(code, None) {
        Ok(buf) => Some(buf.data().to_vec()),
        Err(_) => None,
    }
}

/// Relies on hex::encode: two lowercase digits per byte, high nibble
/// first.
#[verifier::external_body]
fn hex_encode_bytes(b: &Vec<u8>) -> (r: String)
    ensures
        r@ == hex_of(b@),
{
    hex::encode(b)
}

/// Relies on hex::decode: succeeds exactly on even-length strings of hex
/// digits of either case, and yields the denoted bytes.
#[verifier::external_body]
fn hex_decode_str(s: &str) -> (r: Option<Vec<u8>>)
    ensures
        r is Some <==> valid_hex(s@),
        r is Some ==> r->0@ == hex_bytes_of(s@),
{
    match hex::decode(s) {
        Ok(v) => Some(v),
        Err(_) => None,
    }
}

/// The record for `share` with `ecc_len` parity bytes, as raw bytes.
/// The parity count is capped at 170 so that every record this side
/// emits can be error-corrected on the way back; see rs_correct.
pub fn encode_share_bytes(share: &Share, ecc_len: u8) -> (r: Vec<u8>)
    requires
        2 <= ecc_len <= 170,
        share.y@.len() + ecc_len <= 255,
    ensures
        r@ == record_bytes(share.x.0, share.y@, ecc_len),
{
    let code = rs_encode(&share.y, ecc_len);
    let mut out: Vec<u8> = Vec::new();
    out.push(0x53);
    out.push(0x48);
    out.push(0x52);
    out.push(0x31);
    out.push(share.x.0);
    out.push(ecc_len);
    let y_len = share.y.len();
    out.push(y_len as u8);
    out.push(0);
    out.push(0);
    out.push(0);
    let mut idx: usize = 0;
    let ghost head = out@;
    while idx < code.len()
        invariant
            idx <= code@.len(),
            out@ == head + code@.take(idx as int),
        decreases code@.len() - idx,
    {
        let b = code[idx];
        out.push(b);
        proof {
            assert(head + code@.take(idx as int + 1) =~= (head + code@.take(idx as int)).push(b));
        }
        idx = idx + 1;
    }
    proof {
        assert(code@.take(code@.len() as int) =~= code@);
        assert(code@ =~= share.y@ + rs_parity(share.y@, ecc_len as nat));
        assert(le32(share.y@.len()) =~= seq![(share.y@.len() % 256) as u8, 0u8, 0u8, 0u8]);
        assert(out@ =~= record_bytes(share.x.0, share.y@, ecc_len));
    }
    out
}

/// Parse and error-correct one record; the reverse of
/// `encode_share_bytes`, with every failure mapped to its kind.
pub fn decode_share_bytes(bytes: &Vec<u8>) -> (r: Result<Share, ShareCodecError>)
    ensures
        decode_post(bytes@, r),
{
    if bytes.len() < 4 {
        return Err(ShareCodecError::Truncated);
    }
    if !(bytes[0] == 0x53 && bytes[1] == 0x48 && bytes[2] == 0x52 && bytes[3] == 0x31) {
        proof {
            assert(bytes@.take(4) != rec_magic());
        }
        return Err(ShareCodecError::BadMagic);
    }
    proof {
        assert(bytes@.take(4) =~= rec_magic());
    }
    if bytes.len() < 10 {
        return Err(ShareCodecError::Truncated);
    }
    let x = bytes[4];
    let ecc = bytes[5];
    if ecc < 2 {
        return Err(ShareCodecError::Truncated);
    }
    let y_len: u32 = bytes[6] as u32 + (bytes[7] as u32) * 256 + (bytes[8] as u32) * 65536 + (
    bytes[9] as u32) * 16777216;
    proof {
        assert(le32_val(bytes@.subrange(6, 10)) == y_len as nat);
    }
    let code_len_wide: u64 = y_len as u64 + ecc as u64;
    if code_len_wide > usize::MAX as u64 {
        return Err(ShareCodecError::Overflow);
    }
    let code_len: usize = code_len_wide as usize;
    if bytes.len() - 10 < code_len {
        return Err(ShareCodecError::Truncated);
    }
    if code_len >= 256 {
        return Err(ShareCodecError::EccDecode);
    }
    if ecc > 170 {
        // a parity count the decoder cannot honor; see rs_correct
        return Err(ShareCodecError::EccDecode);
    }
    let mut code: Vec<u8> = Vec::new();
    let mut idx: usize = 0;
    while idx < code_len
        invariant
            idx <= code_len,
            code_len < 256,
            bytes@.len() >= 10 + code_len,
            code@.len() == idx,
            forall|m: int| 0 <= m < idx ==> code@[m] == bytes@[10 + m],
        decreases code_len - idx,
    {
        let b = bytes[10 + idx];
        code.push(b);
        idx = idx + 1;
    }
    proof {
        assert(code@ =~= bytes@.subrange(10, 10 + code_len as int));
    }
    match rs_correct(&code, ecc) {
        None => Err(ShareCodecError::EccDecode),
        Some(y) => {
            if y.len() != y_len as usize {
                // the decoder hands back exactly the data portion, so this
                // cannot fire; kept as the decoder's own consistency check
                Err(ShareCodecError::EccDecode)
            } else if bytes.len() != 10 + code_len {
                Err(ShareCodecError::Truncated)
            } else {
                Ok(Share { x: GF256(x), y })
            }
        },
    }
}

/// Serialize `share` with `ecc_len` Reed-Solomon parity bytes as
/// lowercase hex.  The codeword is capped at 255 bytes in all, and the
/// parity count at 170, the most the decoder can honor.
pub fn share_to_hex(share: &Share, ecc_len: usize) -> (r: String)
    requires
        2 <= ecc_len <= 170,
        share.y@.len() + ecc_len <= 255,
    ensures
        r@ == hex_of(record_bytes(share.x.0, share.y@, ecc_len as u8)),
{
    let bytes = encode_share_bytes(share, ecc_len as u8);
    hex_encode_bytes(&bytes)
}

/// Decode a hex record back into a share, correcting up to
/// `floor(ecc/2)` corrupted codeword bytes.
pub fn share_from_hex(s: &str) -> (r: Result<Share, ShareCodecError>)
    ensures
        r == Result::<Share, ShareCodecError>::Err(ShareCodecError::Hex) <==> !valid_hex(s@),
        valid_hex(s@) ==> decode_post(hex_bytes_of(s@), r),
{
    match hex_decode_str(s) {
        None => Err(ShareCodecError::Hex),
        Some(bytes) => {
            let r = decode_share_bytes(&bytes);
            proof {
                lemma_decode_post_not_hex(bytes@, r);
            }
            r
        },
    }
}

proof fn lemma_diff_count_self(a: Seq<u8>)
    ensures
        diff_count(a, a) == 0,
    decreases a.len(),
{
    if a.len() > 0 {
        lemma_diff_count_self(a.drop_last());
    }
}

/// Each hex digit character carries its value back.
proof fn lemma_hex_digit_val(v: u8)
    requires
        v < 16,
    ensures
        is_hex_digit(hex_digit(v)),
        hex_val(hex_digit(v)) == v,
{
}

/// Rendering bytes as hex always yields a decodable string denoting the
/// same bytes.
pub proof fn lemma_hex_round_trip(b: Seq<u8>)
    ensures
        valid_hex(hex_of(b)),
        hex_bytes_of(hex_of(b)) == b,
{
    let h = hex_of(b);
    assert forall|i: int| 0 <= i < h.len() implies is_hex_digit(#[trigger] h[i]) by {
        if i % 2 == 0 {
            lemma_hex_digit_val(b[i / 2] / 16);
        } else {
            lemma_hex_digit_val(b[i / 2] % 16);
        }
    }
    assert forall|i: int| 0 <= i < b.len() implies hex_bytes_of(h)[i] == b[i] by {
        lemma_hex_digit_val(b[i] / 16);
        lemma_hex_digit_val(b[i] % 16);
        assert(h[2 * i] == hex_digit(b[i] / 16));
        assert(h[2 * i + 1] == hex_digit(b[i] % 16));
        assert(16 * (b[i] / 16) + b[i] % 16 == b[i]);
    }
    assert(hex_bytes_of(h) =~= b);
}

/// Decoding any buffer that matches a record's header and lies within
/// `floor(ecc/2)` byte errors of its codeword recovers the share.
pub proof fn lemma_decode_of_close(
    x: u8,
    y: Seq<u8>,
    ecc: u8,
    b: Seq<u8>,
    r: Result<Share, ShareCodecError>,
)
    requires
        2 <= ecc <= 170,
        y.len() + ecc <= 255,
        b.len() == 10 + y.len() + ecc,
        b.take(4) == rec_magic(),
        b[4] == x,
        b[5] == ecc,
        b.subrange(6, 10) == le32(y.len()),
        diff_count(b.subrange(10, b.len() as int), y + rs_parity(y, ecc as nat)) <= ecc / 2,
        decode_post(b, r),
    ensures
        r is Ok,
        r->Ok_0.x.0 == x,
        r->Ok_0.y@ == y,
{
    let n = y.len();
    assert(le32(n)[0] == (n % 256) as u8 && le32(n)[1] == ((n / 256) % 256) as u8 && le32(n)[2]
        == ((n / 65536) % 256) as u8 && le32(n)[3] == ((n / 16777216) % 256) as u8);
    assert(n < 256);
    assert(n % 256 == n && n / 256 == 0 && n / 65536 == 0 && n / 16777216 == 0);
    assert(le32_val(b.subrange(6, 10)) == n);
    assert(head_result(b) is None);
    let clen = n + ecc;
    assert(b.len() == 10 + clen);
    assert(b.subrange(10, 10 + clen as int) == b.subrange(10, b.len() as int));
    assert(diff_count(b.subrange(10, 10 + clen as int), y + rs_parity(y, ecc as nat)) <= ecc
        / 2);
}

/// Codec round-trip: a record built from a share and decoded again,
/// undamaged, yields that share back.
pub proof fn lemma_codec_round_trip(
    x: u8,
    y: Seq<u8>,
    ecc: u8,
    r: Result<Share, ShareCodecError>,
)
    requires
        2 <= ecc <= 170,
        y.len() + ecc <= 255,
        decode_post(record_bytes(x, y, ecc), r),
    ensures
        r is Ok,
        r->Ok_0.x.0 == x,
        r->Ok_0.y@ == y,
{
    let b = record_bytes(x, y, ecc);
    assert(b.take(4) =~= rec_magic());
    assert(b.subrange(6, 10) =~= le32(y.len()));
    assert(b.subrange(10, b.len() as int) =~= y + rs_parity(y, ecc as nat));
    lemma_diff_count_self(y + rs_parity(y, ecc as nat));
    lemma_decode_of_close(x, y, ecc, b, r);
}

/// The full hex round trip: what `share_to_hex` produces, `share_from_hex`
/// accepts and decodes to the original share.
pub proof fn lemma_hex_codec_round_trip(
    x: u8,
    y: Seq<u8>,
    ecc: u8,
    s: Seq<char>,
    r: Result<Share, ShareCodecError>,
)
    requires
        2 <= ecc <= 170,
        y.len() + ecc <= 255,
        s == hex_of(record_bytes(x, y, ecc)),
        r == Result::<Share, ShareCodecError>::Err(ShareCodecError::Hex) <==> !valid_hex(s),
        valid_hex(s) ==> decode_post(hex_bytes_of(s), r),
    ensures
        r is Ok,
        r->Ok_0.x.0 == x,
        r->Ok_0.y@ == y,
{
    lemma_hex_round_trip(record_bytes(x, y, ecc));
    lemma_codec_round_trip(x, y, ecc, r);
}

/// Decoding raw bytes never reports the hex failure kind.
proof fn lemma_decode_post_not_hex(b: Seq<u8>, r: Result<Share, ShareCodecError>)
    requires
        decode_post(b, r),
    ensures
        r != Result::<Share, ShareCodecError>::Err(ShareCodecError::Hex),
{
}

} // verus!
