//! Content digests and their hexadecimal text.
//!
//! A [`Digest`] is the SHA-256 hash of a file's bytes; a [`Hex`] is the same
//! value written as 64 lowercase hexadecimal digits, the form under which a
//! file is looked up.

use core::cmp::Ordering;
use vstd::prelude::*;
use vstd::utf8::*;

use crate::lex::{compare, precedes, Rank};

verus! {

/// The lowercase hexadecimal digit, as an ASCII byte, for a value below
/// sixteen.
pub open spec fn hex_digit(value: int) -> u8 {
    if value < 10 {
        (48 + value) as u8
    } else {
        (87 + value) as u8
    }
}

/// The value that a lowercase hexadecimal digit stands for.
pub open spec fn hex_value(digit: u8) -> int {
    if digit <= 57 {
        digit - 48
    } else {
        digit - 87
    }
}

/// `byte` is one of the ASCII characters `0123456789abcdef`.
pub open spec fn is_hex_digit(byte: u8) -> bool {
    48 <= byte <= 57 || 97 <= byte <= 102
}

/// `text` is made of lowercase hexadecimal digits, two for each byte that it
/// encodes.
pub open spec fn is_hex_text(text: Seq<u8>) -> bool {
    &&& text.len() % 2 == 0
    &&& forall|i: int| 0 <= i < text.len() ==> is_hex_digit(#[trigger] text[i])
}

/// The hexadecimal text of `bytes`: two digits for each byte, the high four
/// bits first.
pub open spec fn hex_encode(bytes: Seq<u8>) -> Seq<u8> {
    Seq::new(
        2 * bytes.len(),
        |i: int|
            if i % 2 == 0 {
                hex_digit(bytes[i / 2] as int / 16)
            } else {
                hex_digit(bytes[i / 2] as int % 16)
            },
    )
}

/// The bytes that a hexadecimal text encodes.
pub open spec fn hex_decode(text: Seq<u8>) -> Seq<u8> {
    Seq::new(
        text.len() / 2,
        |i: int| (16 * hex_value(text[2 * i]) + hex_value(text[2 * i + 1])) as u8,
    )
}

/// The characters of an ASCII byte string.
pub open spec fn ascii_text(bytes: Seq<u8>) -> Seq<char> {
    Seq::new(bytes.len(), |i: int| bytes[i] as char)
}

/// Decoding undoes encoding: the hexadecimal text of a byte string is
/// well-formed text of twice its length, and decodes to the same bytes. So no
/// two byte strings share a text.
pub proof fn lemma_hex_decode_encode(bytes: Seq<u8>)
    ensures
        hex_encode(bytes).len() == 2 * bytes.len(),
        is_hex_text(hex_encode(bytes)),
        hex_decode(hex_encode(bytes)) == bytes,
{
    let text = hex_encode(bytes);
    assert forall|i: int| 0 <= i < text.len() implies is_hex_digit(#[trigger] text[i]) by {
        let b = bytes[i / 2];
        assert(0 <= b as int / 16 < 16 && 0 <= b as int % 16 < 16);
    }
    assert forall|i: int| 0 <= i < bytes.len() implies #[trigger] hex_decode(text)[i]
        == bytes[i] by {
        let b = bytes[i];
        assert((2 * i) / 2 == i && (2 * i) % 2 == 0);
        assert((2 * i + 1) / 2 == i && (2 * i + 1) % 2 == 1);
        assert(text[2 * i] == hex_digit(b as int / 16));
        assert(text[2 * i + 1] == hex_digit(b as int % 16));
        assert(hex_value(hex_digit(b as int / 16)) == b as int / 16);
        assert(hex_value(hex_digit(b as int % 16)) == b as int % 16);
        assert(16 * (b as int / 16) + b as int % 16 == b as int);
    }
    assert(hex_decode(text) =~= bytes);
}

/// Encoding undoes decoding: well-formed hexadecimal text is the text of the
/// bytes that it decodes to. Every such text of 64 digits is therefore the
/// text of exactly one 32-byte value.
pub proof fn lemma_hex_encode_decode(text: Seq<u8>)
    requires
        is_hex_text(text),
    ensures
        hex_decode(text).len() * 2 == text.len(),
        hex_encode(hex_decode(text)) == text,
{
    let bytes = hex_decode(text);
    assert forall|i: int| 0 <= i < text.len() implies #[trigger] hex_encode(bytes)[i]
        == text[i] by {
        let j = i / 2;
        let hi = text[2 * j];
        let lo = text[2 * j + 1];
        assert(is_hex_digit(hi) && is_hex_digit(lo));
        let b = (16 * hex_value(hi) + hex_value(lo)) as u8;
        assert(bytes[j] == b);
        assert(0 <= hex_value(hi) < 16 && 0 <= hex_value(lo) < 16);
        assert(b as int / 16 == hex_value(hi) && b as int % 16 == hex_value(lo));
        assert(hex_digit(hex_value(hi)) == hi && hex_digit(hex_value(lo)) == lo);
    }
    assert(hex_encode(bytes) =~= text);
}

/// No two byte strings have the same hexadecimal text.
pub proof fn lemma_hex_injective(a: Seq<u8>, b: Seq<u8>)
    requires
        hex_encode(a) == hex_encode(b),
    ensures
        a == b,
{
    lemma_hex_decode_encode(a);
    lemma_hex_decode_encode(b);
}

/// A smaller value has a smaller digit: the digits `0` to `9` come before `a`
/// to `f` in ASCII.
proof fn lemma_hex_digit_increasing(x: int, y: int)
    requires
        0 <= x < y < 16,
    ensures
        hex_digit(x) < hex_digit(y),
{
}

/// Hexadecimal text sorts as the bytes that it encodes do.
pub proof fn lemma_hex_keeps_order(a: Seq<u8>, b: Seq<u8>)
    ensures
        precedes(a, b) <==> precedes(hex_encode(a), hex_encode(b)),
{
    if precedes(a, b) {
        lemma_hex_precedes(a, b);
    }
    if precedes(hex_encode(a), hex_encode(b)) {
        crate::lex::lemma_total(a, b);
        if a == b {
            crate::lex::lemma_irreflexive(hex_encode(a));
        } else if precedes(b, a) {
            lemma_hex_precedes(b, a);
            crate::lex::lemma_asymmetric(hex_encode(a), hex_encode(b));
        }
    }
}

proof fn lemma_hex_precedes(a: Seq<u8>, b: Seq<u8>)
    requires
        precedes(a, b),
    ensures
        precedes(hex_encode(a), hex_encode(b)),
{
    let k = choose|k: int| #[trigger] crate::lex::parts_at(a, b, k);
    let x = hex_encode(a);
    let y = hex_encode(b);
    assert forall|i: int| 0 <= i < 2 * k implies x[i] == y[i] by {
        assert(a[i / 2] == b[i / 2]);
    }
    if k == a.len() {
        assert(crate::lex::parts_at(x, y, 2 * k));
    } else {
        let p = a[k] as int;
        let q = b[k] as int;
        assert((2 * k) / 2 == k && (2 * k) % 2 == 0);
        assert((2 * k + 1) / 2 == k && (2 * k + 1) % 2 == 1);
        if p / 16 < q / 16 {
            lemma_hex_digit_increasing(p / 16, q / 16);
            assert(crate::lex::parts_at(x, y, 2 * k));
        } else {
            assert(p / 16 == q / 16);
            lemma_hex_digit_increasing(p % 16, q % 16);
            assert forall|i: int| 0 <= i < 2 * k + 1 implies x[i] == y[i] by {
                if i < 2 * k {
                    assert(a[i / 2] == b[i / 2]);
                }
            }
            assert(crate::lex::parts_at(x, y, 2 * k + 1));
        }
    }
}

/// The SHA-256 hash of a file's content: 32 bytes, equal for two files exactly
/// when they are treated as the same asset. Digests are equal when their
/// bytes are, and are ordered as their bytes are.
#[derive(Debug, Clone, Copy, Eq, Ord, Hash)]
pub struct Digest([u8; 32]);

impl View for Digest {
    type V = Seq<u8>;

    closed spec fn view(&self) -> Seq<u8> {
        self.0@
    }
}

/// A digest written as 64 lowercase hexadecimal digits. Texts are equal when
/// their digits are, and are ordered as text is.
#[derive(Debug, Clone, Copy, Eq, Ord, Hash)]
pub struct Hex([u8; 64]);

impl View for Hex {
    type V = Seq<u8>;

    closed spec fn view(&self) -> Seq<u8> {
        self.0@
    }
}

/// The SHA-256 hash of a byte string.
pub uninterp spec fn sha256(content: Seq<u8>) -> Seq<u8>;

/// The bytes that a hasher has been given so far, in the order given.
pub uninterp spec fn absorbed(hasher: Hasher) -> Seq<u8>;

/// A SHA-256 computation in progress. Content is fed to it in chunks of any
/// size, so that a file need not be held in memory to be digested: the result
/// depends on the bytes alone, not on how they were cut.
#[verifier::external_body]
pub struct Hasher {
    state: sha2::Sha256,
}

impl View for Hasher {
    type V = Seq<u8>;

    open spec fn view(&self) -> Seq<u8> {
        absorbed(*self)
    }
}

/// `sha2::Digest::new` on `sha2::Sha256`: a hasher that has been given no
/// bytes yet.
#[verifier::external_body]
fn sha_new() -> (hasher: Hasher)
    ensures
        absorbed(hasher) == Seq::<u8>::empty(),
{
    Hasher { state: sha2::Digest::new() }
}

/// `sha2::Digest::update` on `sha2::Sha256`: the hasher takes in the bytes of
/// `chunk` after those that it already has.
#[verifier::external_body]
fn sha_update(hasher: &mut Hasher, chunk: &[u8])
    ensures
        absorbed(*final(hasher)) == absorbed(*old(hasher)) + chunk@,
{
    sha2::Digest::update(&mut hasher.state, chunk)
}

/// `sha2::Digest::finalize` on `sha2::Sha256`: the SHA-256 hash of all the
/// bytes that the hasher was given.
#[verifier::external_body]
fn sha_finalize(hasher: Hasher) -> (hash: [u8; 32])
    ensures
        hash@ == sha256(absorbed(hasher)),
{
    sha2::Digest::finalize(hasher.state).into()
}

impl Hasher {
    /// A hasher that has been given nothing.
    pub fn new() -> (hasher: Hasher)
        ensures
            hasher@ == Seq::<u8>::empty(),
    {
        sha_new()
    }

    /// Feeds the next chunk of content.
    pub fn update(&mut self, chunk: &[u8])
        ensures
            final(self)@ == old(self)@ + chunk@,
    {
        sha_update(self, chunk)
    }

    /// The digest of everything that was fed.
    pub fn finish(self) -> (digest: Digest)
        ensures
            digest@ == sha256(self@),
    {
        Digest(sha_finalize(self))
    }
}

/// Digesting is deterministic: two digests of the same content are the same
/// digest and have the same text, whatever the path of the file and however
/// the content was cut into chunks.
pub proof fn lemma_same_content_same_digest(first: Digest, second: Digest, content: Seq<u8>)
    requires
        first@ == sha256(content),
        second@ == sha256(content),
    ensures
        first == second,
        hex_encode(first@) == hex_encode(second@),
{
    first.lemma_view(second);
}

/// The hexadecimal digit for a value below sixteen.
fn digit_of(value: u8) -> (digit: u8)
    requires
        value < 16,
    ensures
        digit == hex_digit(value as int),
{
    if value < 10 {
        48 + value
    } else {
        87 + value
    }
}

impl Digest {
    /// A digest has 32 bytes, and two digests with the same bytes are the
    /// same digest.
    pub proof fn lemma_view(self, other: Digest)
        ensures
            self@.len() == 32,
            self@ == other@ <==> self == other,
    {
        if self@ == other@ {
            assert(self.0 =~= other.0);
        }
    }

    /// The digest of `content`. It depends on the bytes alone: the same
    /// content has the same digest wherever it was read from.
    pub fn of(content: &[u8]) -> (digest: Digest)
        ensures
            digest@ == sha256(content@),
    {
        let mut hasher = Hasher::new();
        hasher.update(content);
        assert(hasher@ =~= content@);
        hasher.finish()
    }

    /// The 32 bytes of the digest.
    pub fn as_bytes(&self) -> (bytes: &[u8])
        ensures
            bytes@ == self@,
            bytes@.len() == 32,
    {
        self.0.as_slice()
    }

    /// The digest as hexadecimal text: 64 digits, two for each byte.
    pub fn to_hex(&self) -> (hex: Hex)
        ensures
            hex@ == hex_encode(self@),
            hex@.len() == 64,
            is_hex_text(hex@),
    {
        let mut bytes = [0u8; 64];
        let mut index: usize = 0;
        while index < 32
            invariant
                index <= 32,
                forall|i: int| 0 <= i < 2 * index ==> bytes@[i] == hex_encode(self@)[i],
            decreases 32 - index,
        {
            let byte = self.0[index];
            proof {
                let at = index as int;
                assert((2 * at) / 2 == at && (2 * at) % 2 == 0);
                assert((2 * at + 1) / 2 == at && (2 * at + 1) % 2 == 1);
            }
            bytes[index * 2] = digit_of(byte / 16);
            bytes[index * 2 + 1] = digit_of(byte % 16);
            index += 1;
        }
        assert(bytes@ =~= hex_encode(self@));
        proof {
            lemma_hex_decode_encode(self@);
        }
        Hex(bytes)
    }

}

impl PartialEq for Digest {
    fn eq(&self, other: &Digest) -> (same: bool) {
        matches!(compare(self.as_bytes(), other.as_bytes()), Rank::Same)
    }
}

impl vstd::std_specs::cmp::PartialEqSpecImpl for Digest {
    open spec fn obeys_eq_spec() -> bool {
        true
    }

    open spec fn eq_spec(&self, other: &Digest) -> bool {
        self@ == other@
    }
}

impl PartialOrd for Digest {
    fn partial_cmp(&self, other: &Digest) -> (order: Option<Ordering>) {
        match compare(self.as_bytes(), other.as_bytes()) {
            Rank::Before => Some(Ordering::Less),
            Rank::Same => Some(Ordering::Equal),
            Rank::After => Some(Ordering::Greater),
        }
    }
}

impl vstd::std_specs::cmp::PartialOrdSpecImpl for Digest {
    open spec fn obeys_partial_cmp_spec() -> bool {
        true
    }

    open spec fn partial_cmp_spec(&self, other: &Digest) -> Option<Ordering> {
        if self@ == other@ {
            Some(Ordering::Equal)
        } else if precedes(self@, other@) {
            Some(Ordering::Less)
        } else {
            Some(Ordering::Greater)
        }
    }
}

impl Hex {
    #[verifier::type_invariant]
    spec fn well_formed(self) -> bool {
        is_hex_text(self.0@)
    }

    /// The 64 digits as ASCII bytes.
    pub fn as_bytes(&self) -> (bytes: &[u8])
        ensures
            bytes@ == self@,
            bytes@.len() == 64,
            is_hex_text(bytes@),
    {
        proof {
            use_type_invariant(self);
        }
        self.0.as_slice()
    }

    /// The 64 digits as text.
    pub fn as_str(&self) -> (text: &str)
        ensures
            text@ == ascii_text(self@),
            text@.len() == 64,
    {
        proof {
            use_type_invariant(self);
            lemma_ascii_is_utf8(self@);
        }
        let text = text_of(self.0.as_slice()).unwrap();
        proof {
            encode_utf8_decode_utf8(text@);
        }
        text
    }
}

impl PartialEq for Hex {
    fn eq(&self, other: &Hex) -> (same: bool) {
        matches!(compare(self.as_bytes(), other.as_bytes()), Rank::Same)
    }
}

impl vstd::std_specs::cmp::PartialEqSpecImpl for Hex {
    open spec fn obeys_eq_spec() -> bool {
        true
    }

    open spec fn eq_spec(&self, other: &Hex) -> bool {
        self@ == other@
    }
}

impl PartialOrd for Hex {
    fn partial_cmp(&self, other: &Hex) -> (order: Option<Ordering>) {
        match compare(self.as_bytes(), other.as_bytes()) {
            Rank::Before => Some(Ordering::Less),
            Rank::Same => Some(Ordering::Equal),
            Rank::After => Some(Ordering::Greater),
        }
    }
}

impl vstd::std_specs::cmp::PartialOrdSpecImpl for Hex {
    open spec fn obeys_partial_cmp_spec() -> bool {
        true
    }

    open spec fn partial_cmp_spec(&self, other: &Hex) -> Option<Ordering> {
        if self@ == other@ {
            Some(Ordering::Equal)
        } else if precedes(self@, other@) {
            Some(Ordering::Less)
        } else {
            Some(Ordering::Greater)
        }
    }
}

/// A byte string below 128 throughout is the UTF-8 encoding of its own
/// characters, and of no other text.
pub proof fn lemma_ascii_is_utf8(bytes: Seq<u8>)
    requires
        forall|i: int| 0 <= i < bytes.len() ==> #[trigger] bytes[i] < 128,
    ensures
        encode_utf8(ascii_text(bytes)) == bytes,
        valid_utf8(bytes),
        decode_utf8(bytes) == ascii_text(bytes),
{
    let text = ascii_text(bytes);
    assert(is_ascii_chars(text)) by {
        assert forall|i: int| 0 <= i < text.len() implies '\0' <= #[trigger] text[i]
            <= '\u{7f}' by {
            assert(bytes[i] < 128);
        }
    }
    is_ascii_chars_encode_utf8(text);
    assert forall|i: int| 0 <= i < bytes.len() implies encode_utf8(text)[i] == bytes[i] by {
        assert(text[i] as u8 == encode_utf8(text)[i]);
        assert(bytes[i] < 128);
    }
    assert(encode_utf8(text) =~= bytes);
    encode_utf8_valid_utf8(text);
    encode_utf8_decode_utf8(text);
}

/// `core::str::from_utf8`: the text that `bytes` encodes in UTF-8. Every valid
/// encoding is accepted, and the text handed back is made of the very bytes
/// that were given.
#[verifier::external_body]
fn text_of(bytes: &[u8]) -> (text: Option<&str>)
    ensures
        valid_utf8(bytes@) ==> text is Some,
        text matches Some(t) ==> encode_utf8(t@) == bytes@,
{
    core::str::from_utf8(bytes).ok()
}

} // verus!
