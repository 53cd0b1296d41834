//! BLAKE3 as the library uses it: incremental hashing, key derivation and hex digests.
use vstd::prelude::*;

verus! {

/// The incremental hasher of the `blake3` crate, carried as an opaque value.
#[verifier::external_type_specification]
#[verifier::external_body]
pub struct ExHasher(blake3::Hasher);

/// The bytes that a hasher has been given, in order.
pub uninterp spec fn hasher_input(hasher: blake3::Hasher) -> Seq<u8>;

/// The key that a hasher was made with; `None` for the plain hash.
pub uninterp spec fn hasher_key(hasher: blake3::Hasher) -> Option<Seq<u8>>;

/// The 32-byte BLAKE3 digest of `input`, plain or keyed.
pub uninterp spec fn blake3_digest(key: Option<Seq<u8>>, input: Seq<u8>) -> Seq<u8>;

/// The 32-byte key that BLAKE3 derives from `material` for a context string.
pub uninterp spec fn blake3_derived(context: Seq<char>, material: Seq<u8>) -> Seq<u8>;

/// `blake3::Hasher::new` makes a hasher of the plain hash that has been given nothing.
#[verifier::external_body]
pub(crate) fn hasher_new() -> (r: blake3::Hasher)
    ensures
        hasher_input(r) == Seq::<u8>::empty(),
        hasher_key(r) is None,
{
    blake3::Hasher::new()
}

/// `blake3::Hasher::new_keyed` makes a hasher of the keyed hash that has been given nothing.
#[verifier::external_body]
pub(crate) fn hasher_new_keyed(key: &[u8; 32]) -> (r: blake3::Hasher)
    ensures
        hasher_input(r) == Seq::<u8>::empty(),
        hasher_key(r) == Some(key@),
{
    blake3::Hasher::new_keyed(key)
}

/// `blake3::Hasher::update` adds the bytes after those given before and keeps the key.
/// The crate counts its input in 64 bits.
#[verifier::external_body]
pub(crate) fn hasher_update(hasher: &mut blake3::Hasher, data: &[u8])
    requires
        hasher_input(*old(hasher)).len() + data@.len() <= u64::MAX,
    ensures
        hasher_input(*final(hasher)) == hasher_input(*old(hasher)) + data@,
        hasher_key(*final(hasher)) == hasher_key(*old(hasher)),
{
    hasher.update(data);
}

/// `blake3::Hasher::finalize` gives the digest of the bytes given so far, which depends on
/// the key and on those bytes alone, however they were split over the updates.
#[verifier::external_body]
pub(crate) fn hasher_finalize(hasher: &blake3::Hasher) -> (r: [u8; 32])
    ensures
        r@ == blake3_digest(hasher_key(*hasher), hasher_input(*hasher)),
{
    *hasher.finalize().as_bytes()
}

/// `blake3::derive_key` derives a 32-byte key from key material for a context string.
#[verifier::external_body]
pub(crate) fn derive_key(context: &str, material: &[u8]) -> (r: [u8; 32])
    ensures
        r@ == blake3_derived(context@, material@),
{
    blake3::derive_key(context, material)
}

/// The lower-case hexadecimal digit of a value under 16.
pub open spec fn hex_char(nibble: u8) -> char {
    if nibble < 10 {
        ((48 + nibble) as u8) as char
    } else {
        ((87 + nibble) as u8) as char
    }
}

/// Bytes in lower-case hexadecimal, high half first.
pub open spec fn hex(bytes: Seq<u8>) -> Seq<char> {
    Seq::new(
        2 * bytes.len(),
        |i: int|
            if i % 2 == 0 {
                hex_char(bytes[i / 2] / 16)
            } else {
                hex_char(bytes[i / 2] % 16)
            },
    )
}

/// Whether a text has the shape of a content hash: 64 lower-case hexadecimal digits.
pub open spec fn is_hash(text: Seq<char>) -> bool {
    text.len() == 64 && forall|i: int|
        0 <= i < text.len() ==> {
            ||| '0' <= #[trigger] text[i] <= '9'
            ||| 'a' <= text[i] <= 'f'
        }
}

/// A digest in hexadecimal has the shape of a content hash.
pub proof fn hex_is_hash(digest: Seq<u8>)
    requires
        digest.len() == 32,
    ensures
        is_hash(hex(digest)),
{
}

/// `blake3::Hash::to_hex` writes a digest in lower-case hexadecimal.
#[verifier::external_body]
pub(crate) fn digest_hex(digest: &[u8; 32]) -> (r: String)
    ensures
        r@ == hex(digest@),
{
    blake3::Hash::from_bytes(*digest).to_hex().to_string()
}

/// The hexadecimal content hash of `data`: the name under which it is stored.
pub open spec fn content_name(data: Seq<u8>) -> Seq<char> {
    hex(blake3_digest(None, data))
}

/// The plain digest of one buffer.
pub(crate) fn digest_of(data: &[u8]) -> (r: [u8; 32])
    ensures
        r@ == blake3_digest(None, data@),
{
    let mut hasher = hasher_new();
    assert(data@.len() == data.len());
    hasher_update(&mut hasher, data);
    assert(Seq::<u8>::empty() + data@ =~= data@);
    hasher_finalize(&hasher)
}

/// The hexadecimal form of bytes has two digits for each, the higher half first: a digit stands for
/// itself, and the letters from a on for ten and more.
pub proof fn hex_has_two_digits_for_each(bytes: Seq<u8>, i: int)
    requires
        0 <= i < bytes.len(),
    ensures
        hex(bytes).len() == 2 * bytes.len(),
        nibble_of(hex(bytes)[2 * i]) * 16 + nibble_of(hex(bytes)[2 * i + 1]) == bytes[i],
        0 <= nibble_of(hex(bytes)[2 * i]) < 16 && 0 <= nibble_of(hex(bytes)[2 * i + 1]) < 16,
{
    let high = bytes[i] / 16;
    let low = bytes[i] % 16;
    assert((2 * i) / 2 == i && (2 * i + 1) / 2 == i);
    assert(nibble_of(hex_char(high)) == high);
    assert(nibble_of(hex_char(low)) == low);
}

/// What a hexadecimal digit stands for.
pub open spec fn nibble_of(c: char) -> int {
    if '0' <= c <= '9' {
        c as int - '0' as int
    } else if 'a' <= c <= 'f' {
        10 + (c as int - 'a' as int)
    } else {
        -1
    }
}

/// Different bytes have different hexadecimal forms.
pub proof fn hex_tells_bytes_apart(a: Seq<u8>, b: Seq<u8>)
    requires
        hex(a) == hex(b),
    ensures
        a == b,
{
    assert(hex(a).len() == 2 * a.len() && hex(b).len() == 2 * b.len());
    assert forall|i: int| 0 <= i < a.len() implies a[i] == b[i] by {
        hex_has_two_digits_for_each(a, i);
        hex_has_two_digits_for_each(b, i);
    }
    assert(a =~= b);
}

/// Contents with the same name have the same digest.
pub proof fn names_are_of_digests(a: Seq<u8>, b: Seq<u8>)
    requires
        content_name(a) == content_name(b),
    ensures
        blake3_digest(None, a) == blake3_digest(None, b),
{
    hex_tells_bytes_apart(blake3_digest(None, a), blake3_digest(None, b));
}

} // verus!
