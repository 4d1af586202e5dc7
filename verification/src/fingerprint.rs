//! Pattern fingerprints: keyed blake3 digests of a pattern's structural shape,
//! written as 64 lowercase hex characters.
use vstd::prelude::*;
use vstd::string::StringSliceAdditionalSpecFns;
use crate::text::push_char;

verus! {

/// Fixed 32-byte key for all pattern fingerprints (`sdi-rust::patterns::fingerprint!`).
pub const FINGERPRINT_KEY: [u8; 32] = [
    115, 100, 105, 45, 114, 117, 115, 116, 58, 58, 112, 97, 116, 116, 101, 114,
    110, 115, 58, 58, 102, 105, 110, 103, 101, 114, 112, 114, 105, 110, 116, 33,
];

/// Lowercase hex digits, indexed by value.
const HEX_LOWER: [char; 16] = [
    '0', '1', '2', '3', '4', '5', '6', '7', '8', '9', 'a', 'b', 'c', 'd', 'e', 'f',
];

/// The keyed blake3 digest of `data` under `key` (32 bytes each side).
pub uninterp spec fn keyed_blake3(key: Seq<u8>, data: Seq<u8>) -> Seq<u8>;

/// Calls `blake3::keyed_hash`.  The contract claims only that the 32 digest
/// bytes are the named digest of the key and the data; the hash itself is not
/// modelled.
#[verifier::external_body]
fn blake3_keyed_hash(key: &[u8; 32], data: &[u8]) -> (digest: [u8; 32])
    ensures
        digest@ == keyed_blake3(key@, data@),
{
    *blake3::keyed_hash(key, data).as_bytes()
}

/// A keyed blake3 digest representing the structural shape of a pattern.
#[derive(Debug, Clone, Copy, PartialEq, Eq, PartialOrd, Ord, Hash)]
pub struct PatternFingerprint(pub [u8; 32]);

impl View for PatternFingerprint {
    type V = Seq<u8>;

    open spec fn view(&self) -> Seq<u8> {
        self.0@
    }
}

/// Whether `b` is an ASCII hex digit (either case).
pub open spec fn is_hex_digit(b: u8) -> bool {
    (48 <= b && b <= 57) || (97 <= b && b <= 102) || (65 <= b && b <= 70)
}

/// The value of an ASCII hex digit.
pub open spec fn hex_digit_value(b: u8) -> int {
    if 48 <= b && b <= 57 {
        b - 48
    } else if 97 <= b && b <= 102 {
        b - 87
    } else {
        b - 55
    }
}

/// The lowercase hex character for a nibble `d` in `[0, 16)`.
pub open spec fn hex_char(d: int) -> char {
    if d < 10 {
        (48 + d) as char
    } else {
        (87 + d) as char
    }
}

/// The lowercase hex encoding of `bytes`: two characters per byte, high nibble first.
pub open spec fn hex_encode(bytes: Seq<u8>) -> Seq<char> {
    Seq::new(
        2 * bytes.len(),
        |i: int| if i % 2 == 0 { hex_char((bytes[i / 2] / 16) as int) } else { hex_char((bytes[i / 2] % 16) as int) },
    )
}

/// Whether `text` is exactly 64 hex digits (the input `from_hex` accepts).
pub open spec fn is_fingerprint_hex(text: Seq<u8>) -> bool {
    text.len() == 64 && forall|i: int| 0 <= i < 64 ==> is_hex_digit(#[trigger] text[i])
}

/// The 32 bytes that 64 hex digits denote.
pub open spec fn hex_decode(text: Seq<u8>) -> Seq<u8> {
    Seq::new(
        text.len() / 2,
        |i: int| (16 * hex_digit_value(text[2 * i]) + hex_digit_value(text[2 * i + 1])) as u8,
    )
}

/// Reading back the hex text of a fingerprint gives the fingerprint: for any
/// 32 bytes, the text `to_hex` writes is accepted by `from_hex`, which decodes
/// it to the same bytes.
pub proof fn lemma_hex_round_trip(bytes: Seq<u8>, text: &str)
    requires
        bytes.len() == 32,
        text@ == hex_encode(bytes),
    ensures
        is_fingerprint_hex(text.spec_bytes()),
        hex_decode(text.spec_bytes()) == bytes,
{
    let chars = text@;
    assert forall|i: int| 0 <= i < chars.len() implies '\0' <= #[trigger] chars[i] <= '\u{7f}' by {
        let b = bytes[i / 2];
        assert(b / 16 < 16 && b % 16 < 16);
    }
    assert(vstd::string::is_ascii(text));
    vstd::utf8::is_ascii_chars_encode_utf8(chars);
    let t = text.spec_bytes();
    assert(t.len() == 64);
    assert forall|i: int| 0 <= i < 64 implies is_hex_digit(#[trigger] t[i]) && hex_digit_value(t[i]) == (
    if i % 2 == 0 { bytes[i / 2] / 16 } else { bytes[i / 2] % 16 }) by {
        assert(t[i] == chars[i] as u8);
        let b = bytes[i / 2];
        assert(b / 16 < 16 && b % 16 < 16);
    }
    assert forall|k: int| 0 <= k < 32 implies #[trigger] hex_decode(t)[k] == bytes[k] by {
        assert(hex_digit_value(t[2 * k]) == bytes[k] / 16);
        assert(hex_digit_value(t[2 * k + 1]) == bytes[k] % 16);
        let b = bytes[k];
        assert(16 * (b / 16) + b % 16 == b);
    }
    assert(hex_decode(t) =~= bytes);
}

fn hex_digit(b: u8) -> (r: Option<u8>)
    ensures
        r is Some <==> is_hex_digit(b),
        r matches Some(v) ==> v == hex_digit_value(b) && v < 16,
{
    if 48 <= b && b <= 57 {
        Some(b - 48)
    } else if 97 <= b && b <= 102 {
        Some(b - 87)
    } else if 65 <= b && b <= 70 {
        Some(b - 55)
    } else {
        None
    }
}

impl PatternFingerprint {
    /// Constructs a fingerprint from raw digest bytes.
    pub fn from_bytes(bytes: [u8; 32]) -> (fp: Self)
        ensures
            fp@ == bytes@,
    {
        PatternFingerprint(bytes)
    }

    /// Returns the raw digest bytes.
    pub fn as_bytes(&self) -> (bytes: &[u8; 32])
        ensures
            bytes@ == self@,
    {
        &self.0
    }

    /// Parses a fingerprint from 64 hex characters.
    ///
    /// Returns `None` unless the text is exactly 64 hex digits.
    pub fn from_hex(hex: &str) -> (fp: Option<Self>)
        ensures
            fp is Some <==> is_fingerprint_hex(hex.spec_bytes()),
            fp matches Some(f) ==> f@ == hex_decode(hex.spec_bytes()),
    {
        let text = hex.as_bytes();
        if text.len() != 64 {
            return None;
        }
        let mut bytes = [0u8; 32];
        let mut i: usize = 0;
        while i < 32
            invariant
                text@ == hex.spec_bytes(),
                text@.len() == 64,
                0 <= i <= 32,
                bytes@.len() == 32,
                forall|j: int| 0 <= j < 2 * i ==> is_hex_digit(#[trigger] text@[j]),
                forall|j: int| 0 <= j < i ==> #[trigger] bytes@[j] == hex_decode(text@)[j],
            decreases 32 - i,
        {
            let hi = hex_digit(text[2 * i]);
            let lo = hex_digit(text[2 * i + 1]);
            match (hi, lo) {
                (Some(h), Some(l)) => {
                    bytes[i] = h * 16 + l;
                    assert(text@[2 * i as int] == text[2 * i as int]);
                },
                _ => {
                    assert(!is_fingerprint_hex(text@)) by {
                        if hi is None {
                            assert(!is_hex_digit(text@[2 * i as int]));
                        } else {
                            assert(!is_hex_digit(text@[2 * i + 1]));
                        }
                    }
                    return None;
                },
            }
            i = i + 1;
        }
        assert(bytes@ =~= hex_decode(text@));
        Some(PatternFingerprint(bytes))
    }

    /// Returns the 64-character lowercase hex string.
    pub fn to_hex(&self) -> (hex: String)
        ensures
            hex@ == hex_encode(self@),
    {
        let mut out = String::new();
        let mut i: usize = 0;
        while i < 32
            invariant
                0 <= i <= 32,
                self@.len() == 32,
                out@ =~= hex_encode(self@.subrange(0, i as int)),
            decreases 32 - i,
        {
            let b = self.0[i];
            let hi = b / 16;
            let lo = b % 16;
            let ghost before = out@;
            push_char(&mut out, HEX_LOWER[hi as usize]);
            push_char(&mut out, HEX_LOWER[lo as usize]);
            proof {
                assert(HEX_LOWER@[hi as int] == hex_char(hi as int));
                assert(HEX_LOWER@[lo as int] == hex_char(lo as int));
                assert(out@ =~= hex_encode(self@.subrange(0, i + 1)));
            }
            i = i + 1;
        }
        assert(self@.subrange(0, 32) =~= self@);
        out
    }
}

/// Computes the fingerprint of a node kind under the fixed key.
pub fn fingerprint_node_kind(node_kind: &str) -> (fp: PatternFingerprint)
    ensures
        fp@ == keyed_blake3(FINGERPRINT_KEY@, node_kind.spec_bytes()),
{
    let key = FINGERPRINT_KEY;
    PatternFingerprint::from_bytes(blake3_keyed_hash(&key, node_kind.as_bytes()))
}

} // verus!
