//! Percent-decoding the path component of a `file://` URI back into the
//! text of a filesystem path.
use vstd::prelude::*;

use vstd::string::StringSliceAdditionalSpecFns;
use vstd::utf8::{decode_utf8, encode_utf8_decode_utf8, encode_utf8_valid_utf8, valid_utf8};

verus! {

/// The value of one ASCII hex digit.
pub open spec fn hex_value(b: u8) -> Option<u8> {
    if 0x30 <= b <= 0x39 {
        Some((b - 0x30) as u8)
    } else if 0x61 <= b <= 0x66 {
        Some((b - 0x61 + 10) as u8)
    } else if 0x41 <= b <= 0x46 {
        Some((b - 0x41 + 10) as u8)
    } else {
        None
    }
}

/// `%` followed by two hex digits at the front of `b`.
pub open spec fn escape_at_front(b: Seq<u8>) -> bool {
    b.len() > 2 && b[0] == 0x25 && hex_value(b[1]).is_some() && hex_value(b[2]).is_some()
}

/// The bytes of `b` with every `%XY` (two hex digits) replaced by the
/// byte `0xXY`; any other `%` passes through unchanged.
pub open spec fn percent_decoded(b: Seq<u8>) -> Seq<u8>
    decreases b.len(),
{
    if b.len() == 0 {
        seq![]
    } else if escape_at_front(b) {
        seq![(hex_value(b[1]).unwrap() * 16 + hex_value(b[2]).unwrap()) as u8] + percent_decoded(
            b.subrange(3, b.len() as int),
        )
    } else {
        seq![b[0]] + percent_decoded(b.drop_first())
    }
}

/// What `String::from_utf8_lossy` makes of the bytes.
pub uninterp spec fn utf8_lossy(bytes: Seq<u8>) -> Seq<char>;

/// `String::from_utf8_lossy`: decodes the bytes as UTF-8, putting U+FFFD
/// in place of each invalid sequence. The contract names the result and
/// states only that valid UTF-8 decodes to the characters it encodes; the
/// replacement of invalid sequences is left unsaid.
#[verifier::external_body]
fn from_utf8_lossy(bytes: &[u8]) -> (r: String)
    ensures
        r@ == utf8_lossy(bytes@),
        valid_utf8(bytes@) ==> r@ == decode_utf8(bytes@),
{
    String::from_utf8_lossy(bytes).into_owned()
}

/// The value of one hex digit, or `None` if `b` is not one.
pub fn hex_val(b: u8) -> (r: Option<u8>)
    ensures
        r == hex_value(b),
{
    if b >= 0x30 && b <= 0x39 {
        Some(b - 0x30)
    } else if b >= 0x61 && b <= 0x66 {
        Some(b - 0x61 + 10)
    } else if b >= 0x41 && b <= 0x46 {
        Some(b - 0x41 + 10)
    } else {
        None
    }
}

/// Percent-decodes bytes: `%` and two hex digits become that byte.
pub fn percent_decode_bytes(bytes: &[u8]) -> (r: Vec<u8>)
    ensures
        r@ == percent_decoded(bytes@),
{
    let n = bytes.len();
    let mut out: Vec<u8> = Vec::new();
    let mut i: usize = 0;
    assert(bytes@.subrange(0, n as int) =~= bytes@);
    assert(out@ + percent_decoded(bytes@) =~= percent_decoded(bytes@));
    while i < n
        invariant
            n == bytes@.len(),
            0 <= i <= n,
            out@ + percent_decoded(bytes@.subrange(i as int, n as int)) == percent_decoded(bytes@),
        decreases n - i,
    {
        let ghost rest = bytes@.subrange(i as int, n as int);
        let ghost before = out@;
        if bytes[i] == 0x25 && 2 < n - i {
            let hi = hex_val(bytes[i + 1]);
            let lo = hex_val(bytes[i + 2]);
            if hi.is_some() && lo.is_some() {
                let h = hi.unwrap();
                let l = lo.unwrap();
                assert(h < 16 && l < 16);
                let v = (h << 4) | l;
                assert(v == h * 16 + l) by (bit_vector)
                    requires
                        h < 16,
                        l < 16,
                        v == (h << 4) | l,
                ;
                out.push(v);
                assert(rest[1] == bytes@[i + 1] && rest[2] == bytes@[i + 2]);
                assert(escape_at_front(rest));
                assert(rest.subrange(3, rest.len() as int) =~= bytes@.subrange(i + 3, n as int));
                assert(before + percent_decoded(rest) =~= out@ + percent_decoded(
                    bytes@.subrange(i + 3, n as int),
                ));
                i = i + 3;
                continue;
            }
        }
        assert(!escape_at_front(rest)) by {
            if rest.len() > 2 {
                assert(rest[0] == bytes@[i as int] && rest[1] == bytes@[i + 1] && rest[2]
                    == bytes@[i + 2]);
            }
        }
        out.push(bytes[i]);
        assert(rest.drop_first() =~= bytes@.subrange(i + 1, n as int));
        assert(before + percent_decoded(rest) =~= out@ + percent_decoded(
            bytes@.subrange(i + 1, n as int),
        ));
        i = i + 1;
    }
    assert(percent_decoded(bytes@.subrange(n as int, n as int)) =~= Seq::<u8>::empty());
    assert(out@ + Seq::<u8>::empty() =~= out@);
    out
}

/// Percent-decodes a URI path component back into text, passing through
/// unchanged any `%` not followed by two hex digits, and decoding the
/// resulting bytes as UTF-8 with invalid sequences replaced.
pub fn percent_decode(s: &str) -> (r: String)
    ensures
        r@ == utf8_lossy(percent_decoded(s.spec_bytes())),
        valid_utf8(percent_decoded(s.spec_bytes())) ==> r@ == decode_utf8(
            percent_decoded(s.spec_bytes()),
        ),
{
    let decoded = percent_decode_bytes(s.as_bytes());
    from_utf8_lossy(decoded.as_slice())
}

/// The bytes of `file://`.
pub open spec fn file_scheme() -> Seq<u8> {
    seq![0x66u8, 0x69u8, 0x6cu8, 0x65u8, 0x3au8, 0x2fu8, 0x2fu8]
}

/// `b` starts with `file://`.
pub open spec fn is_file_uri(b: Seq<u8>) -> bool {
    b.len() >= 7 && b.take(7) == file_scheme()
}

/// The filesystem path a `file://` URI names: what follows the scheme,
/// percent-decoded; nothing for any other scheme.
pub fn file_uri_to_path(uri: &str) -> (r: Option<String>)
    ensures
        match r {
            Some(p) => is_file_uri(uri.spec_bytes()) && p@ == utf8_lossy(
                percent_decoded(uri.spec_bytes().skip(7)),
            ),
            None => !is_file_uri(uri.spec_bytes()),
        },
{
    let b = uri.as_bytes();
    let scheme: [u8; 7] = [0x66, 0x69, 0x6c, 0x65, 0x3a, 0x2f, 0x2f];
    if b.len() < 7 {
        return None;
    }
    for k in 0..7usize
        invariant
            b@ == uri.spec_bytes(),
            b@.len() >= 7,
            scheme@ == file_scheme(),
            forall|j: int| 0 <= j < k ==> b@[j] == file_scheme()[j],
    {
        if b[k] != scheme[k] {
            assert(b@.take(7)[k as int] != file_scheme()[k as int]);
            return None;
        }
    }
    assert(b@.take(7) =~= file_scheme());
    let mut rest: Vec<u8> = Vec::new();
    for k in 7..b.len()
        invariant
            b@ == uri.spec_bytes(),
            7 <= k <= b@.len(),
            rest@ == b@.subrange(7, k as int),
    {
        rest.push(b[k]);
        assert(b@.subrange(7, k + 1) =~= b@.subrange(7, k as int).push(b@[k as int]));
    }
    assert(rest@ =~= b@.skip(7));
    let decoded = percent_decode_bytes(rest.as_slice());
    Some(from_utf8_lossy(decoded.as_slice()))
}

/// Bytes without a `%` decode to themselves.
pub proof fn lemma_no_escape_is_unchanged(b: Seq<u8>)
    requires
        forall|i: int| 0 <= i < b.len() ==> b[i] != 0x25,
    ensures
        percent_decoded(b) == b,
    decreases b.len(),
{
    if b.len() > 0 {
        let t = b.drop_first();
        assert forall|i: int| 0 <= i < t.len() implies t[i] != 0x25 by {
            assert(t[i] == b[i + 1]);
        }
        lemma_no_escape_is_unchanged(t);
        assert(seq![b[0]] + t =~= b);
    }
}

/// Text without a `%` decodes to itself.
pub proof fn lemma_decode_without_escapes(s: &str)
    requires
        forall|i: int| 0 <= i < s.spec_bytes().len() ==> s.spec_bytes()[i] != 0x25,
    ensures
        valid_utf8(percent_decoded(s.spec_bytes())),
        decode_utf8(percent_decoded(s.spec_bytes())) == s@,
{
    lemma_no_escape_is_unchanged(s.spec_bytes());
    encode_utf8_valid_utf8(s@);
    encode_utf8_decode_utf8(s@);
}

} // verus!
