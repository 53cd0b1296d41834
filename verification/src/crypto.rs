//! Client-side encryption of chunks and index snapshots.
//!
//! Data is sealed with XChaCha20-Poly1305 in independent segments of one mebibyte of
//! plaintext. Each nonce is derived with keyed BLAKE3 from the chunk's plaintext hash and
//! the segment number, so sealing the same chunk again gives the same ciphertext, and
//! each segment can be opened on its own.
use vstd::prelude::*;
use vstd::bytes::{
    lemma_auto_spec_u64_to_from_le_bytes, spec_u64_from_le_bytes, spec_u64_to_le_bytes,
    u64_to_le_bytes,
};
use vstd::slice::{slice_subrange, slice_to_vec};
use chacha20poly1305::{KeyInit, XChaCha20Poly1305, XNonce};
use chacha20poly1305::aead::Aead;
use crate::bytes::append_bytes;
use crate::telegram_transfer::joined;
use crate::hashing::{
    blake3_derived, blake3_digest, derive_key, hasher_finalize, hasher_new_keyed, hasher_update,
};

verus! {

/// Plaintext bytes per sealed segment.
pub const SEGMENT_SIZE: u64 = 1024 * 1024;

/// Authentication tag appended to every segment.
pub const TAG_SIZE: u64 = 16;

/// Length of a full sealed segment.
pub const SEALED_SEGMENT_SIZE: u64 = SEGMENT_SIZE + TAG_SIZE;

/// The first bytes of a sealed container.
pub const SNAPSHOT_MAGIC: [u8; 8] = [116, 103, 102, 115, 101, 110, 99, 49];

/// Why sealing or opening failed.
#[derive(Debug, Clone, Copy, PartialEq, Eq, Structural)]
pub enum CryptoError {
    /// The cipher refused the plaintext.
    EncryptionFailed,
    /// The key is wrong, or the data was corrupted or tampered with.
    DecryptionFailed,
    /// The data does not begin as a sealed container does.
    NotEncryptedBlob,
    /// A sealed container ends within its header.
    TruncatedBlob,
}

impl CryptoError {
    /// A sentence for the user.
    pub fn message(&self) -> (r: String)
        ensures
            r@ == (match *self {
                CryptoError::EncryptionFailed => "encryption failed"@,
                CryptoError::DecryptionFailed =>
                    "decryption failed (wrong key, or the data was corrupted/tampered with)"@,
                CryptoError::NotEncryptedBlob => "not an encrypted tgfs blob"@,
                CryptoError::TruncatedBlob => "encrypted blob is truncated"@,
            }),
    {
        match self {
            CryptoError::EncryptionFailed => "encryption failed".to_owned(),
            CryptoError::DecryptionFailed =>
                "decryption failed (wrong key, or the data was corrupted/tampered with)".to_owned(),
            CryptoError::NotEncryptedBlob => "not an encrypted tgfs blob".to_owned(),
            CryptoError::TruncatedBlob => "encrypted blob is truncated".to_owned(),
        }
    }
}

/// The opaque error of the AEAD crate.
#[verifier::external_type_specification]
#[verifier::external_body]
pub struct ExAeadError(chacha20poly1305::Error);

/// What XChaCha20-Poly1305 makes of a plaintext with no associated data: the ciphertext
/// followed by the tag.
pub uninterp spec fn xchacha_sealed(key: Seq<u8>, nonce: Seq<u8>, plain: Seq<u8>) -> Seq<u8>;

/// Whether one call of the cipher takes a plaintext of this length: its 32-bit block counter,
/// which begins at one, must not run out.
pub open spec fn fits_cipher(len: int) -> bool {
    len <= 274_877_906_816
}

/// Whether a plaintext of this length would exhaust the block counter within its last block,
/// which the cipher notices only after it has begun.
pub open spec fn ends_in_last_block(len: int) -> bool {
    274_877_906_816 < len < 274_877_906_880
}

/// Whether `sealed` is what the cipher makes of `plain`.
pub open spec fn seals(key: Seq<u8>, nonce: Seq<u8>, plain: Seq<u8>, sealed: Seq<u8>) -> bool {
    fits_cipher(plain.len() as int) && sealed == xchacha_sealed(key, nonce, plain)
}

/// `XChaCha20Poly1305::encrypt` seals a plaintext with no associated data. It fails just where
/// the plaintext is too long for the block counter, and panics where the last block alone is too
/// much. The result is sixteen bytes longer than the plaintext, and no other plaintext gives it.
#[verifier::external_body]
fn xchacha_encrypt(key: &[u8; 32], nonce: &[u8; 24], plain: &[u8]) -> (r: Result<
    Vec<u8>,
    chacha20poly1305::Error,
>)
    requires
        !ends_in_last_block(plain@.len() as int),
    ensures
        r is Ok <==> fits_cipher(plain@.len() as int),
        r is Ok ==> r->Ok_0@ == xchacha_sealed(key@, nonce@, plain@),
        r is Ok ==> r->Ok_0@.len() == plain@.len() + 16,
        r is Ok ==> forall|other: Seq<u8>| #[trigger]
            seals(key@, nonce@, other, r->Ok_0@) ==> other == plain@,
{
    XChaCha20Poly1305::new(key.into()).encrypt(XNonce::from_slice(nonce), plain)
}

/// `XChaCha20Poly1305::decrypt` takes back what `encrypt` made: it gives the one plaintext that
/// seals to the given bytes, sixteen bytes shorter, and fails where there is none.
/// That altered bytes, or another key or nonce, have no such plaintext rests on the strength of the
/// cipher and is not claimed.
#[verifier::external_body]
fn xchacha_decrypt(key: &[u8; 32], nonce: &[u8; 24], sealed: &[u8]) -> (r: Result<
    Vec<u8>,
    chacha20poly1305::Error,
>)
    requires
        !ends_in_last_block(sealed@.len() - 16),
    ensures
        r is Ok ==> seals(key@, nonce@, r->Ok_0@, sealed@),
        r is Ok ==> sealed@.len() == r->Ok_0@.len() + 16,
        forall|plain: Seq<u8>| #[trigger]
            seals(key@, nonce@, plain, sealed@) ==> r is Ok && r->Ok_0@ == plain,
{
    XChaCha20Poly1305::new(key.into()).decrypt(XNonce::from_slice(nonce), sealed)
}

/// The two keys that encryption works with.
pub ghost struct CryptoKeys {
    pub cipher: Seq<u8>,
    pub nonce: Seq<u8>,
}

/// The working keys of a master key. They are separate derivations, so the master key is
/// never used raw.
pub open spec fn derived_keys(master: Seq<u8>) -> CryptoKeys {
    CryptoKeys {
        cipher: blake3_derived("tgfs 2026 encryption key v1"@, master),
        nonce: blake3_derived("tgfs 2026 nonce key v1"@, master),
    }
}

/// What is hashed for the nonce of a segment: the context, then the number.
pub open spec fn nonce_input(context: Seq<u8>, segment: u64) -> Seq<u8> {
    context + spec_u64_to_le_bytes(segment)
}

/// The nonce of a segment: the first 24 bytes of the keyed hash of context and number.
pub open spec fn segment_nonce(keys: CryptoKeys, context: Seq<u8>, segment: u64) -> Seq<u8> {
    blake3_digest(Some(keys.nonce), nonce_input(context, segment)).subrange(0, 24)
}

/// Whether `sealed` is the sealed form of the segment `plain`.
pub open spec fn seals_segment(
    keys: CryptoKeys,
    context: Seq<u8>,
    segment: u64,
    plain: Seq<u8>,
    sealed: Seq<u8>,
) -> bool {
    seals(keys.cipher, segment_nonce(keys, context, segment), plain, sealed)
}

/// The plaintext that a sealed segment opens to, if it is one.
pub open spec fn opened_segment(
    keys: CryptoKeys,
    context: Seq<u8>,
    segment: u64,
    sealed: Seq<u8>,
) -> Option<Seq<u8>> {
    if exists|plain: Seq<u8>| #[trigger] seals_segment(keys, context, segment, plain, sealed) {
        Some(
            choose|plain: Seq<u8>| #[trigger]
                seals_segment(keys, context, segment, plain, sealed),
        )
    } else {
        None
    }
}

/// How many segments, the last perhaps partial, `len` plaintext bytes fill.
pub open spec fn plain_segments(len: int) -> int {
    (len + 1_048_575) / 1_048_576
}

/// How many sealed segments, the last perhaps partial, `len` sealed bytes fill.
pub open spec fn sealed_segments(len: int) -> int {
    (len + 1_048_591) / 1_048_592
}

/// Length of the sealed form of `plain_len` bytes: one tag for each segment.
pub open spec fn sealed_len_of(plain_len: int) -> int {
    plain_len + 16 * plain_segments(plain_len)
}

/// The part of `s` from `from` to `to`, or to its end if that comes first.
pub open spec fn span(s: Seq<u8>, from: int, to: int) -> Seq<u8> {
    s.subrange(from, if to <= s.len() { to } else { s.len() as int })
}

/// The plaintext of segment `i`.
pub open spec fn plain_piece(plain: Seq<u8>, i: int) -> Seq<u8> {
    span(plain, i * 1_048_576, (i + 1) * 1_048_576)
}

/// The sealed bytes of segment `i`.
pub open spec fn sealed_piece(sealed: Seq<u8>, i: int) -> Seq<u8> {
    span(sealed, i * 1_048_592, (i + 1) * 1_048_592)
}

/// Whether `sealed` is a row of sealed segments, numbered from zero, that opens to `plain`.
/// All segments but the last are full.
pub open spec fn seals_stream(
    keys: CryptoKeys,
    context: Seq<u8>,
    plain: Seq<u8>,
    sealed: Seq<u8>,
) -> bool {
    let n = sealed_segments(sealed.len() as int);
    &&& sealed.len() == plain.len() + 16 * n
    &&& n > 0 ==> (n - 1) * 1_048_576 <= plain.len()
    &&& forall|i: int|
        0 <= i < n ==> seals_segment(
            keys,
            context,
            i as u64,
            #[trigger] plain_piece(plain, i),
            sealed_piece(sealed, i),
        )
}

/// Whether the first `n` sealed segments open to the matching pieces of `plain` and to
/// nothing else.
spec fn opens_first(
    keys: CryptoKeys,
    context: Seq<u8>,
    plain: Seq<u8>,
    sealed: Seq<u8>,
    n: int,
) -> bool {
    &&& forall|i: int|
        0 <= i < n ==> seals_segment(
            keys,
            context,
            i as u64,
            #[trigger] plain_piece(plain, i),
            sealed_piece(sealed, i),
        )
    &&& forall|i: int, other: Seq<u8>|
        0 <= i < n && #[trigger] seals_segment(
            keys,
            context,
            i as u64,
            other,
            sealed_piece(sealed, i),
        ) ==> other == plain_piece(plain, i)
}

/// Adding the next segment to both sides of a row of full ones.
proof fn opens_first_extended(
    keys: CryptoKeys,
    context: Seq<u8>,
    plain: Seq<u8>,
    sealed: Seq<u8>,
    next_plain: Seq<u8>,
    next_sealed: Seq<u8>,
    n: int,
)
    requires
        0 <= n < u64::MAX,
        opens_first(keys, context, plain, sealed, n),
        plain.len() == n * 1_048_576,
        sealed.len() == n * 1_048_592,
        next_plain.len() <= SEGMENT_SIZE,
        next_sealed.len() == next_plain.len() + TAG_SIZE,
        seals_segment(keys, context, n as u64, next_plain, next_sealed),
        forall|other: Seq<u8>| #[trigger]
            seals_segment(keys, context, n as u64, other, next_sealed) ==> other == next_plain,
    ensures
        opens_first(keys, context, plain + next_plain, sealed + next_sealed, n + 1),
{
    let p = plain + next_plain;
    let s = sealed + next_sealed;
    assert(plain_piece(p, n) =~= next_plain);
    assert(sealed_piece(s, n) =~= next_sealed);
    assert forall|i: int| 0 <= i < n implies #[trigger] plain_piece(p, i) == plain_piece(plain, i)
        && sealed_piece(s, i) == sealed_piece(sealed, i) by {
        assert(plain_piece(p, i) =~= plain_piece(plain, i));
        assert(sealed_piece(s, i) =~= sealed_piece(sealed, i));
    }
    assert forall|i: int| 0 <= i < n + 1 implies seals_segment(
        keys,
        context,
        i as u64,
        #[trigger] plain_piece(p, i),
        sealed_piece(s, i),
    ) by {
        if i < n {
            assert(plain_piece(p, i) == plain_piece(plain, i));
        }
    }
    assert forall|i: int, other: Seq<u8>|
        0 <= i < n + 1 && #[trigger] seals_segment(
            keys,
            context,
            i as u64,
            other,
            sealed_piece(s, i),
        ) implies other == plain_piece(p, i) by {
        if i < n {
            assert(plain_piece(p, i) == plain_piece(plain, i));
        }
    }
}

/// Two sequences of one length with the same pieces are the same.
proof fn equal_by_pieces(a: Seq<u8>, b: Seq<u8>, n: int)
    requires
        a.len() == b.len(),
        a.len() <= n * 1_048_576,
        forall|i: int| 0 <= i < n ==> #[trigger] plain_piece(a, i) == plain_piece(b, i),
    ensures
        a == b,
{
    assert forall|j: int| 0 <= j < a.len() implies a[j] == b[j] by {
        let i = j / 1_048_576;
        assert(plain_piece(a, i) == plain_piece(b, i));
        assert(plain_piece(a, i)[j - i * 1_048_576] == a[j]);
        assert(plain_piece(b, i)[j - i * 1_048_576] == b[j]);
    }
    assert(a =~= b);
}

/// A stream whose segments all open, each to one plaintext only, opens to their row only.
proof fn stream_opens_once(keys: CryptoKeys, context: Seq<u8>, plain: Seq<u8>, sealed: Seq<u8>)
    requires
        seals_stream(keys, context, plain, sealed),
        opens_first(
            keys,
            context,
            plain,
            sealed,
            sealed_segments(sealed.len() as int),
        ),
    ensures
        forall|other: Seq<u8>| #[trigger]
            seals_stream(keys, context, other, sealed) ==> other == plain,
{
    let n = sealed_segments(sealed.len() as int);
    assert forall|other: Seq<u8>| #[trigger]
        seals_stream(keys, context, other, sealed) implies other == plain by {
        assert forall|i: int| 0 <= i < n implies #[trigger] plain_piece(other, i)
            == plain_piece(plain, i) by {
            assert(seals_segment(
                keys,
                context,
                i as u64,
                plain_piece(other, i),
                sealed_piece(sealed, i),
            ));
        }
        equal_by_pieces(other, plain, n);
    }
}

/// The nonce that a digest gives: its first 24 bytes.
pub fn nonce_of(digest: &[u8; 32]) -> (r: [u8; 24])
    ensures
        r@ == digest@.subrange(0, 24),
{
    let mut nonce: [u8; 24] = [0u8; 24];
    let mut i: usize = 0;
    while i < 24
        invariant
            i <= 24,
            forall|j: int| 0 <= j < i ==> nonce@[j] == digest@[j],
        decreases 24 - i,
    {
        nonce[i] = digest[i];
        i += 1;
    }
    assert(nonce@ =~= digest@.subrange(0, 24));
    nonce
}

/// A sealed container: the magic, the 32 bytes of context, then the sealed segments.
pub open spec fn blob_of(context: Seq<u8>, body: Seq<u8>) -> Seq<u8> {
    SNAPSHOT_MAGIC@ + context + body
}

/// Whether bytes begin as a sealed container does.
pub open spec fn has_magic(raw: Seq<u8>) -> bool {
    SNAPSHOT_MAGIC@.is_prefix_of(raw)
}

/// Makes a container of a context and sealed segments.
pub fn frame_blob(context: &[u8; 32], body: &[u8]) -> (r: Vec<u8>)
    ensures
        r@ == blob_of(context@, body@),
        has_magic(r@),
        r@.len() == 40 + body@.len(),
        r@.subrange(8, 40) == context@,
        r@.subrange(40, r@.len() as int) == body@,
{
    let mut out: Vec<u8> = Vec::new();
    let magic: [u8; 8] = SNAPSHOT_MAGIC;
    append_bytes(&mut out, magic.as_slice());
    append_bytes(&mut out, context.as_slice());
    append_bytes(&mut out, body);
    proof {
        assert(out@ =~= blob_of(context@, body@));
        assert(out@.subrange(8, 40) =~= context@);
        assert(out@.subrange(40, out@.len() as int) =~= body@);
        assert(SNAPSHOT_MAGIC@ =~= out@.subrange(0, 8));
    }
    out
}

/// Takes a container apart into its context and its sealed segments.
pub fn split_blob(raw: &[u8]) -> (r: Result<(&[u8], &[u8]), CryptoError>)
    ensures
        match r {
            Ok((context, body)) => {
                &&& has_magic(raw@)
                &&& raw@.len() >= 40
                &&& context@ == raw@.subrange(8, 40)
                &&& body@ == raw@.subrange(40, raw@.len() as int)
            },
            Err(CryptoError::NotEncryptedBlob) => !has_magic(raw@),
            Err(CryptoError::TruncatedBlob) => has_magic(raw@) && raw@.len() < 40,
            Err(_) => false,
        },
{
    if !Crypto::is_sealed_blob(raw) {
        return Err(CryptoError::NotEncryptedBlob);
    }
    if raw.len() < 40 {
        return Err(CryptoError::TruncatedBlob);
    }
    Ok((slice_subrange(raw, 8, 40), slice_subrange(raw, 40, raw.len())))
}

/// Whether `raw` is a sealed container of `plain`.
pub open spec fn blob_opens_to(keys: CryptoKeys, plain: Seq<u8>, raw: Seq<u8>) -> bool {
    &&& has_magic(raw)
    &&& raw.len() >= 40
    &&& seals_stream(keys, raw.subrange(8, 40), plain, raw.subrange(40, raw.len() as int))
}

/// The sealed form, in segments, of the `plain_len` bytes at `base` of some data.
pub open spec fn sealed_range(
    keys: CryptoKeys,
    context: Seq<u8>,
    data: Seq<u8>,
    base: int,
    plain_len: int,
) -> Seq<u8> {
    Seq::new(
        sealed_len_of(plain_len) as nat,
        |j: int| sealed_segment_of(keys, context, data, base, plain_len, j / 1_048_592)[j
            % 1_048_592],
    )
}

/// The plaintext of segment `i` of a range.
pub open spec fn range_piece(data: Seq<u8>, base: int, plain_len: int, i: int) -> Seq<u8> {
    data.subrange(
        base + i * 1_048_576,
        base + if (i + 1) * 1_048_576 <= plain_len {
            (i + 1) * 1_048_576
        } else {
            plain_len
        },
    )
}

/// What segment `i` of a range is sealed to.
pub open spec fn sealed_segment_of(
    keys: CryptoKeys,
    context: Seq<u8>,
    data: Seq<u8>,
    base: int,
    plain_len: int,
    i: int,
) -> Seq<u8> {
    xchacha_sealed(
        keys.cipher,
        segment_nonce(keys, context, i as u64),
        range_piece(data, base, plain_len, i),
    )
}

/// Where the plaintext of the first `n` segments of a range ends.
pub open spec fn plain_end(plain_len: int, n: int) -> int {
    if n * 1_048_576 <= plain_len {
        n * 1_048_576
    } else {
        plain_len
    }
}

/// Whether segment `i` of a range is there, and grows by a tag when it is sealed.
pub open spec fn tagged(
    keys: CryptoKeys,
    context: Seq<u8>,
    data: Seq<u8>,
    base: int,
    plain_len: int,
    i: int,
) -> bool {
    &&& base + plain_end(plain_len, i + 1) <= data.len()
    &&& sealed_segment_of(keys, context, data, base, plain_len, i).len() == range_piece(
        data,
        base,
        plain_len,
        i,
    ).len() + 16
}

/// The sealed form of a range whose segments are all tagged is a sealed stream of it.
pub proof fn tagged_range_is_stream(
    keys: CryptoKeys,
    context: Seq<u8>,
    data: Seq<u8>,
    base: int,
    plain_len: int,
)
    requires
        0 <= base,
        0 <= plain_len <= u64::MAX,
        plain_len == 0 ==> base <= data.len(),
        forall|i: int|
            0 <= i < plain_segments(plain_len) ==> #[trigger] tagged(
                keys,
                context,
                data,
                base,
                plain_len,
                i,
            ),
    ensures
        base + plain_len <= data.len(),
        seals_stream(
            keys,
            context,
            data.subrange(base, base + plain_len),
            sealed_range(keys, context, data, base, plain_len),
        ),
{
    let n = plain_segments(plain_len);
    if plain_len > 0 {
        assert(tagged(keys, context, data, base, plain_len, n - 1));
    }
    let plain = data.subrange(base, base + plain_len);
    let sealed = sealed_range(keys, context, data, base, plain_len);
    assert(sealed_segments(sealed.len() as int) == n);
    assert forall|i: int| 0 <= i < n implies seals_segment(
        keys,
        context,
        i as u64,
        #[trigger] plain_piece(plain, i),
        sealed_piece(sealed, i),
    ) by {
        let one = sealed_segment_of(keys, context, data, base, plain_len, i);
        assert(tagged(keys, context, data, base, plain_len, i));
        assert(plain_piece(plain, i) =~= range_piece(data, base, plain_len, i));
        assert(sealed_piece(sealed, i) =~= one);
    }
}

/// A nonce is never used for two segments: what is hashed for it differs as soon as the context or
/// the number does, and the hash is keyed.
pub proof fn segments_have_their_own_nonce(
    keys: CryptoKeys,
    context: Seq<u8>,
    segment: u64,
    other_context: Seq<u8>,
    other: u64,
)
    ensures
        segment_nonce(keys, context, segment) == blake3_digest(
            Some(keys.nonce),
            nonce_input(context, segment),
        ).subrange(0, 24),
        nonce_input(context, segment) == nonce_input(other_context, other) <==> context
            == other_context && segment == other,
{
    lemma_auto_spec_u64_to_from_le_bytes();
    let a = nonce_input(context, segment);
    let b = nonce_input(other_context, other);
    let x = spec_u64_to_le_bytes(segment);
    let y = spec_u64_to_le_bytes(other);
    if a == b {
        assert(a.len() == context.len() + 8 && b.len() == other_context.len() + 8);
        assert(context =~= a.subrange(0, context.len() as int));
        assert(other_context =~= b.subrange(0, context.len() as int));
        assert(x =~= a.subrange(context.len() as int, a.len() as int));
        assert(y =~= b.subrange(context.len() as int, b.len() as int));
        assert(spec_u64_from_le_bytes(x) == spec_u64_from_le_bytes(y));
    }
}

/// The working keys are two derivations of the master key under two different names.
pub proof fn working_keys_are_derived(master: Seq<u8>)
    ensures
        derived_keys(master).cipher == blake3_derived("tgfs 2026 encryption key v1"@, master),
        derived_keys(master).nonce == blake3_derived("tgfs 2026 nonce key v1"@, master),
        "tgfs 2026 encryption key v1"@ != "tgfs 2026 nonce key v1"@,
{
    reveal_strlit("tgfs 2026 encryption key v1");
    reveal_strlit("tgfs 2026 nonce key v1");
    assert("tgfs 2026 encryption key v1"@.len() != "tgfs 2026 nonce key v1"@.len());
}

/// A sealed stream is cut into segments of a mebibyte, each sealed under its own number to sixteen
/// bytes more, and they follow one another.
pub proof fn stream_is_sealed_by_the_mebibyte(
    keys: CryptoKeys,
    context: Seq<u8>,
    plain: Seq<u8>,
    sealed: Seq<u8>,
    i: int,
)
    requires
        seals_stream(keys, context, plain, sealed),
        0 <= i,
        i * 1_048_592 < sealed.len(),
    ensures
        ({
            let end = if (i + 1) * 1_048_576 <= plain.len() {
                (i + 1) * 1_048_576
            } else {
                plain.len() as int
            };
            let sealed_end = if (i + 1) * 1_048_592 <= sealed.len() {
                (i + 1) * 1_048_592
            } else {
                sealed.len() as int
            };
            &&& i * 1_048_576 <= end
            &&& sealed_end - i * 1_048_592 == end - i * 1_048_576 + 16
            &&& sealed.subrange(i * 1_048_592, sealed_end) == xchacha_sealed(
                keys.cipher,
                segment_nonce(keys, context, i as u64),
                plain.subrange(i * 1_048_576, end),
            )
        }),
{
    assert(seals_segment(
        keys,
        context,
        i as u64,
        plain_piece(plain, i),
        sealed_piece(sealed, i),
    ));
}

/// Sealing adds sixteen bytes for each mebibyte that is begun.
pub proof fn sealing_adds_a_tag_per_segment(plain_len: int, n: int)
    requires
        0 <= n,
        0 <= plain_len <= n * 1_048_576,
        n > 0 ==> plain_len > (n - 1) * 1_048_576,
    ensures
        sealed_len_of(plain_len) == plain_len + 16 * n,
        plain_segments(plain_len) == n,
        sealed_segments(sealed_len_of(plain_len)) == n,
{
}

/// A container begins with eight bytes that no compressed snapshot begins with, has its context
/// next, and then what was sealed; it can be told and taken apart again.
pub proof fn containers_come_apart(context: Seq<u8>, body: Seq<u8>)
    requires
        context.len() == 32,
    ensures
        ({
            let raw = blob_of(context, body);
            &&& raw.len() == 40 + body.len()
            &&& raw.subrange(0, 8) == seq![116u8, 103, 102, 115, 101, 110, 99, 49]
            &&& has_magic(raw)
            &&& raw.subrange(8, 40) == context
            &&& raw.subrange(40, raw.len() as int) == body
        }),
{
    let raw = blob_of(context, body);
    assert(raw.subrange(0, 8) =~= SNAPSHOT_MAGIC@);
    assert(SNAPSHOT_MAGIC@ =~= seq![116u8, 103, 102, 115, 101, 110, 99, 49]);
    assert(raw.subrange(8, 40) =~= context);
    assert(raw.subrange(40, raw.len() as int) =~= body);
}

/// Bytes are taken for a container just if they begin with its eight bytes.
pub proof fn containers_are_told_by_their_magic(raw: Seq<u8>)
    ensures
        has_magic(raw) <==> raw.len() >= 8 && raw[0] == 116 && raw[1] == 103 && raw[2] == 102
            && raw[3] == 115 && raw[4] == 101 && raw[5] == 110 && raw[6] == 99 && raw[7] == 49,
{
    if raw.len() >= 8 {
        if has_magic(raw) {
            assert forall|i: int| 0 <= i < 8 implies raw[i] == SNAPSHOT_MAGIC@[i] by {
                assert(raw.subrange(0, 8)[i] == SNAPSHOT_MAGIC@[i]);
            }
        }
        if raw[0] == 116 && raw[1] == 103 && raw[2] == 102 && raw[3] == 115 && raw[4] == 101
            && raw[5] == 110 && raw[6] == 99 && raw[7] == 49 {
            assert(SNAPSHOT_MAGIC@ =~= raw.subrange(0, 8));
        }
    }
}

/// The encryption of one repository.
#[derive(Clone, Copy)]
pub struct Crypto {
    cipher_key: [u8; 32],
    nonce_key: [u8; 32],
}

impl View for Crypto {
    type V = CryptoKeys;

    closed spec fn view(&self) -> CryptoKeys {
        CryptoKeys { cipher: self.cipher_key@, nonce: self.nonce_key@ }
    }
}

impl Crypto {
    /// Builds the encryption of a repository from its 32-byte master key.
    pub fn new(master_key: &[u8; 32]) -> (r: Self)
        ensures
            r@ == derived_keys(master_key@),
    {
        let cipher_key = derive_key("tgfs 2026 encryption key v1", master_key.as_slice());
        let nonce_key = derive_key("tgfs 2026 nonce key v1", master_key.as_slice());
        Crypto { cipher_key, nonce_key }
    }

    /// Ciphertext length for a chunk of `plain_len` bytes.
    pub fn sealed_len(plain_len: u64) -> (r: u64)
        requires
            sealed_len_of(plain_len as int) <= u64::MAX,
        ensures
            r == sealed_len_of(plain_len as int),
    {
        let partial: u64 = if plain_len % SEGMENT_SIZE == 0 { 0 } else { 1 };
        plain_len + 16 * (plain_len / 1_048_576 + partial)
    }

    /// Sealed length of one segment of `plain_len` plaintext bytes.
    pub fn sealed_segment_len(plain_len: u64) -> (r: u64)
        requires
            plain_len + TAG_SIZE <= u64::MAX,
        ensures
            r == plain_len + TAG_SIZE,
    {
        plain_len + TAG_SIZE
    }

    fn nonce(&self, context: &[u8], segment: u64) -> (r: [u8; 24])
        requires
            context@.len() + 8 <= u64::MAX,
        ensures
            r@ == segment_nonce(self@, context@, segment),
    {
        let mut hasher = hasher_new_keyed(&self.nonce_key);
        hasher_update(&mut hasher, context);
        let number: Vec<u8> = u64_to_le_bytes(segment);
        hasher_update(&mut hasher, number.as_slice());
        let digest = hasher_finalize(&hasher);
        assert(Seq::<u8>::empty() + context@ + number@ =~= context@ + number@);
        nonce_of(&digest)
    }

    /// Seals one segment. `context` is the chunk's plaintext hash, or another string that is
    /// unique to the blob; `segment` is the segment's number within the blob.
    pub fn seal_segment(&self, context: &[u8], segment: u64, plaintext: &[u8]) -> (r: Result<
        Vec<u8>,
        CryptoError,
    >)
        requires
            context@.len() + 8 <= u64::MAX,
            !ends_in_last_block(plaintext@.len() as int),
        ensures
            r is Ok <==> fits_cipher(plaintext@.len() as int),
            r is Err ==> r->Err_0 == CryptoError::EncryptionFailed,
            r is Ok ==> seals_segment(self@, context@, segment, plaintext@, r->Ok_0@),
            r is Ok ==> r->Ok_0@.len() == plaintext@.len() + TAG_SIZE,
            r is Ok ==> forall|other: Seq<u8>| #[trigger]
                seals_segment(self@, context@, segment, other, r->Ok_0@) <==> other == plaintext@,
            r is Ok ==> opened_segment(self@, context@, segment, r->Ok_0@) == Some(plaintext@),
    {
        let nonce = self.nonce(context, segment);
        match xchacha_encrypt(&self.cipher_key, &nonce, plaintext) {
            Ok(sealed) => {
                assert(seals_segment(self@, context@, segment, plaintext@, sealed@));
                Ok(sealed)
            },
            Err(_) => Err(CryptoError::EncryptionFailed),
        }
    }

    /// Opens one sealed segment.
    pub fn open_segment(&self, context: &[u8], segment: u64, sealed: &[u8]) -> (r: Result<
        Vec<u8>,
        CryptoError,
    >)
        requires
            context@.len() + 8 <= u64::MAX,
            !ends_in_last_block(sealed@.len() - 16),
        ensures
            match opened_segment(self@, context@, segment, sealed@) {
                Some(plain) => r is Ok && r->Ok_0@ == plain,
                None => r == Err::<Vec<u8>, CryptoError>(CryptoError::DecryptionFailed),
            },
            r is Ok ==> seals_segment(self@, context@, segment, r->Ok_0@, sealed@),
            r is Ok ==> sealed@.len() == r->Ok_0@.len() + TAG_SIZE,
            forall|plain: Seq<u8>| #[trigger]
                seals_segment(self@, context@, segment, plain, sealed@) ==> r is Ok && r->Ok_0@
                    == plain,
    {
        let nonce = self.nonce(context, segment);
        match xchacha_decrypt(&self.cipher_key, &nonce, sealed) {
            Ok(plain) => {
                assert(seals_segment(self@, context@, segment, plain@, sealed@));
                Ok(plain)
            },
            Err(_) => Err(CryptoError::DecryptionFailed),
        }
    }

    /// Seals a row of segments. Returns the sealed stream of `plain`.
    fn seal_stream(&self, context: &[u8; 32], plain: &[u8]) -> (r: Result<Vec<u8>, CryptoError>)
        ensures
            r is Ok,
            seals_stream(self@, context@, plain@, r->Ok_0@),
            r->Ok_0@.len() == sealed_len_of(plain@.len() as int),
            forall|other: Seq<u8>| #[trigger]
                seals_stream(self@, context@, other, r->Ok_0@) ==> other == plain@,
    {
        let total: usize = plain.len();
        let mut out: Vec<u8> = Vec::new();
        let mut at: usize = 0;
        let mut segment: u64 = 0;
        assert(plain@.subrange(0, 0) =~= Seq::<u8>::empty());
        while at < total
            invariant
                total == plain@.len(),
                at <= total,
                segment as int == plain_segments(at as int),
                at < total ==> at == segment * 1_048_576,
                out@.len() == at + segment * 16,
                opens_first(self@, context@, plain@.subrange(0, at as int), out@, segment as int),
            decreases total - at,
        {
            let take: usize = if total - at < SEGMENT_SIZE as usize {
                total - at
            } else {
                SEGMENT_SIZE as usize
            };
            let part = slice_subrange(plain, at, at + take);
            match self.seal_segment(context.as_slice(), segment, part) {
                Ok(sealed) => {
                    proof {
                        opens_first_extended(
                            self@,
                            context@,
                            plain@.subrange(0, at as int),
                            out@,
                            part@,
                            sealed@,
                            segment as int,
                        );
                        assert(plain@.subrange(0, at as int) + part@ =~= plain@.subrange(
                            0,
                            at + take,
                        ));
                    }
                    append_bytes(&mut out, sealed.as_slice());
                },
                Err(error) => {
                    return Err(error);
                },
            }
            at += take;
            segment += 1;
        }
        proof {
            assert(plain@.subrange(0, at as int) =~= plain@);
            stream_opens_once(self@, context@, plain@, out@);
        }
        Ok(out)
    }

    /// Seals a whole in-memory blob into a self-describing container, as index snapshots are
    /// stored.
    pub fn seal_blob(&self, context: &[u8; 32], plain: &[u8]) -> (r: Result<Vec<u8>, CryptoError>)
        ensures
            r is Ok,
            exists|body: Seq<u8>|
                {
                    &&& r->Ok_0@ == blob_of(context@, body)
                    &&& #[trigger] seals_stream(self@, context@, plain@, body)
                    &&& body.len() == sealed_len_of(plain@.len() as int)
                },
            forall|other: Seq<u8>| #[trigger]
                blob_opens_to(self@, other, r->Ok_0@) <==> other == plain@,
    {
        let body = match self.seal_stream(context, plain) {
            Ok(body) => body,
            Err(error) => {
                return Err(error);
            },
        };
        Ok(frame_blob(context, body.as_slice()))
    }

    /// Whether a downloaded blob is a sealed container.
    pub fn is_sealed_blob(raw: &[u8]) -> (r: bool)
        ensures
            r == has_magic(raw@),
    {
        let magic: [u8; 8] = SNAPSHOT_MAGIC;
        if raw.len() < 8 {
            return false;
        }
        let mut i: usize = 0;
        while i < 8
            invariant
                i <= 8,
                raw@.len() >= 8,
                magic@ == SNAPSHOT_MAGIC@,
                forall|j: int| 0 <= j < i ==> raw@[j] == SNAPSHOT_MAGIC@[j],
            decreases 8 - i,
        {
            if raw[i] != magic[i] {
                assert(raw@.subrange(0, 8)[i as int] != SNAPSHOT_MAGIC@[i as int]);
                return false;
            }
            i += 1;
        }
        assert(SNAPSHOT_MAGIC@ =~= raw@.subrange(0, 8));
        true
    }

    /// Opens a container made by `seal_blob`.
    pub fn open_blob(&self, raw: &[u8]) -> (r: Result<Vec<u8>, CryptoError>)
        ensures
            r is Ok ==> blob_opens_to(self@, r->Ok_0@, raw@),
            forall|plain: Seq<u8>| #[trigger]
                blob_opens_to(self@, plain, raw@) ==> r is Ok && r->Ok_0@ == plain,
            !has_magic(raw@) <==> r == Err::<Vec<u8>, CryptoError>(CryptoError::NotEncryptedBlob),
            (has_magic(raw@) && raw@.len() < 40) <==> r == Err::<Vec<u8>, CryptoError>(
                CryptoError::TruncatedBlob,
            ),
            r != Err::<Vec<u8>, CryptoError>(CryptoError::EncryptionFailed),
    {
        let (context, sealed) = match split_blob(raw) {
            Ok(parts) => parts,
            Err(error) => {
                return Err(error);
            },
        };
        let total: usize = sealed.len();
        let mut out: Vec<u8> = Vec::new();
        let mut at: usize = 0;
        let mut segment: u64 = 0;
        assert(sealed@.subrange(0, 0) =~= Seq::<u8>::empty());
        while at < total
            invariant
                total == sealed@.len(),
                at <= total,
                context@ == raw@.subrange(8, 40),
                sealed@ == raw@.subrange(40, raw@.len() as int),
                has_magic(raw@),
                raw@.len() >= 40,
                segment as int == sealed_segments(at as int),
                at < total ==> at == segment * 1_048_592,
                at == out@.len() + segment * 16,
                segment > 0 ==> (segment - 1) * 1_048_576 <= out@.len(),
                out@.len() <= segment * 1_048_576,
                opens_first(self@, context@, out@, sealed@.subrange(0, at as int), segment as int),
            decreases total - at,
        {
            let take: usize = if total - at < SEALED_SEGMENT_SIZE as usize {
                total - at
            } else {
                SEALED_SEGMENT_SIZE as usize
            };
            let part = slice_subrange(sealed, at, at + take);
            assert(part@ =~= sealed_piece(sealed@, segment as int));
            match self.open_segment(context, segment, part) {
                Ok(plain) => {
                    proof {
                        opens_first_extended(
                            self@,
                            context@,
                            out@,
                            sealed@.subrange(0, at as int),
                            plain@,
                            part@,
                            segment as int,
                        );
                        assert(sealed@.subrange(0, at as int) + part@ =~= sealed@.subrange(
                            0,
                            at + take,
                        ));
                    }
                    append_bytes(&mut out, plain.as_slice());
                },
                Err(error) => {
                    proof {
                        assert forall|plain: Seq<u8>| #[trigger]
                            blob_opens_to(self@, plain, raw@) implies false by {
                            assert(seals_segment(
                                self@,
                                context@,
                                segment,
                                plain_piece(plain, segment as int),
                                part@,
                            ));
                        }
                    }
                    return Err(error);
                },
            }
            at += take;
            segment += 1;
        }
        proof {
            assert(sealed@.subrange(0, at as int) =~= sealed@);
            stream_opens_once(self@, context@, out@, sealed@);
        }
        Ok(out)
    }
}

/// What a decrypting writer remembers between writes.
pub ghost struct WriterState {
    pub keys: CryptoKeys,
    pub context: Seq<u8>,
    /// Ciphertext length that is expected in all.
    pub sealed_len: int,
    /// Ciphertext bytes taken so far.
    pub received: int,
    /// Segments opened so far.
    pub segment: int,
    /// Ciphertext of the segment that is not complete yet.
    pub pending: Seq<u8>,
}

/// What writing `data` does: the state after it, the plaintext that comes out, and whether
/// every completed segment could be opened. A segment is complete when it is full, or when
/// the expected ciphertext length is reached. Nothing is taken after a segment that cannot be
/// opened.
#[verifier::opaque]
pub open spec fn absorbed(state: WriterState, data: Seq<u8>) -> (WriterState, Seq<u8>, bool)
    decreases data.len(), state.pending.len(),
{
    if data.len() == 0 || state.pending.len() > 1_048_592 {
        (state, Seq::empty(), true)
    } else {
        let room = 1_048_592 - state.pending.len();
        let take = if data.len() <= room { data.len() as int } else { room };
        let filled = WriterState {
            pending: state.pending + data.subrange(0, take),
            received: state.received + take,
            ..state
        };
        let rest = data.subrange(take, data.len() as int);
        if filled.pending.len() == 1_048_592 || filled.received == state.sealed_len {
            match opened_segment(
                state.keys,
                state.context,
                state.segment as u64,
                filled.pending,
            ) {
                Some(plain) => {
                    let next = WriterState {
                        pending: Seq::empty(),
                        segment: state.segment + 1,
                        ..filled
                    };
                    let (last, more, ok) = absorbed(next, rest);
                    (last, plain + more, ok)
                },
                None => (filled, Seq::empty(), false),
            }
        } else {
            absorbed(filled, rest)
        }
    }
}

/// How many of the sealed segments are complete once `pos` of `total` bytes are there.
pub open spec fn segments_done(pos: int, total: int) -> int {
    if pos == total {
        sealed_segments(total)
    } else {
        pos / 1_048_592
    }
}

/// How much plaintext has come out once `pos` of the bytes that seal `plain` are there.
pub open spec fn opened_len(pos: int, total: int, plain_len: int) -> int {
    if pos == total {
        plain_len
    } else {
        (pos / 1_048_592) * 1_048_576
    }
}

/// Whether the writer has so far been given exactly the first bytes of `sealed`.
pub open spec fn in_step(state: WriterState, sealed: Seq<u8>) -> bool {
    &&& state.sealed_len == sealed.len()
    &&& 0 <= state.received <= sealed.len()
    &&& state.segment == segments_done(state.received, sealed.len() as int)
    &&& state.pending == if state.received == sealed.len() {
        Seq::<u8>::empty()
    } else {
        sealed.subrange(state.segment * 1_048_592, state.received)
    }
}

/// Whether `sealed` is the sealed stream of `plain`, the writer has taken its first bytes, and
/// `data` is the part that comes next.
#[verifier::opaque]
pub open spec fn feeds(state: WriterState, plain: Seq<u8>, sealed: Seq<u8>, data: Seq<u8>) -> bool {
    &&& seals_stream(state.keys, state.context, plain, sealed)
    &&& in_step(state, sealed)
    &&& state.received + data.len() <= sealed.len()
    &&& data == sealed.subrange(state.received, state.received + data.len())
}

/// Whether a writer that went from `start` to `now` along `sealed` is still in step and has
/// given out the part of `plain` that became readable on the way.
#[verifier::opaque]
pub open spec fn followed(
    start: WriterState,
    now: WriterState,
    plain: Seq<u8>,
    sealed: Seq<u8>,
    out: Seq<u8>,
) -> bool {
    &&& in_step(now, sealed)
    &&& out == plain.subrange(
        opened_len(start.received, sealed.len() as int, plain.len() as int),
        opened_len(now.received, sealed.len() as int, plain.len() as int),
    )
}

/// Writing keeps the keys, the context and the expected length, and takes all that is written
/// unless a segment cannot be opened.
pub proof fn writing_takes_all(state: WriterState, data: Seq<u8>)
    requires
        state.pending.len() <= 1_048_592,
    ensures
        ({
            let (after, plain, ok) = absorbed(state, data);
            &&& after.keys == state.keys
            &&& after.context == state.context
            &&& after.sealed_len == state.sealed_len
            &&& ok ==> after.received == state.received + data.len()
        }),
    decreases data.len(), state.pending.len(),
{
    reveal(absorbed);
    if data.len() > 0 {
        let room = 1_048_592 - state.pending.len();
        let take = if data.len() <= room { data.len() as int } else { room };
        let filled = WriterState {
            pending: state.pending + data.subrange(0, take),
            received: state.received + take,
            ..state
        };
        let rest = data.subrange(take, data.len() as int);
        if filled.pending.len() == 1_048_592 || filled.received == state.sealed_len {
            let next = WriterState {
                pending: Seq::empty(),
                segment: state.segment + 1,
                ..filled
            };
            writing_takes_all(next, rest);
        } else {
            writing_takes_all(filled, rest);
        }
    }
}

/// Writing nothing changes nothing.
proof fn absorbed_nothing(state: WriterState, data: Seq<u8>)
    requires
        data.len() == 0,
    ensures
        absorbed(state, data) == (state, Seq::<u8>::empty(), true),
{
    reveal(absorbed);
}

/// One step of a write.
proof fn absorbed_step(state: WriterState, data: Seq<u8>, filled: WriterState, take: int)
    requires
        data.len() > 0,
        state.pending.len() <= 1_048_592,
        take == if data.len() <= 1_048_592 - state.pending.len() {
            data.len() as int
        } else {
            1_048_592 - state.pending.len()
        },
        filled == (WriterState {
            pending: state.pending + data.subrange(0, take),
            received: state.received + take,
            ..state
        }),
    ensures
        ({
            let rest = data.subrange(take, data.len() as int);
            let next = WriterState { pending: Seq::empty(), segment: state.segment + 1, ..filled };
            let opened = opened_segment(
                state.keys,
                state.context,
                state.segment as u64,
                filled.pending,
            );
            absorbed(state, data) == if filled.pending.len() == 1_048_592 || filled.received
                == state.sealed_len {
                match opened {
                    Some(plain) => {
                        let (last, more, ok) = absorbed(next, rest);
                        (last, plain + more, ok)
                    },
                    None => (filled, Seq::<u8>::empty(), false),
                }
            } else {
                absorbed(filled, rest)
            }
        }),
{
    reveal(absorbed);
}

/// A byte string may be cut anywhere: as long as no more arrives than was announced, writing
/// two pieces one after the other does what writing both at once does.
pub proof fn writes_may_be_split(state: WriterState, first: Seq<u8>, second: Seq<u8>)
    requires
        state.pending.len() <= 1_048_592,
        state.received + first.len() + second.len() <= state.sealed_len,
    ensures
        ({
            let (middle, out, ok) = absorbed(state, first);
            let (last, more, ok_too) = absorbed(middle, second);
            absorbed(state, first + second) == if ok {
                (last, out + more, ok_too)
            } else {
                (middle, out, false)
            }
        }),
    decreases first.len(), state.pending.len(),
{
    reveal(absorbed);
    let both = first + second;
    if first.len() == 0 {
        assert(both =~= second);
        let (last, more, ok_too) = absorbed(state, second);
        assert(Seq::<u8>::empty() + more =~= more);
    } else if second.len() == 0 {
        assert(both =~= first);
        let (middle, out, ok) = absorbed(state, first);
        assert(out + Seq::<u8>::empty() =~= out);
    } else {
        let room = 1_048_592 - state.pending.len();
        let take = if first.len() <= room { first.len() as int } else { room };
        let filled = WriterState {
            pending: state.pending + first.subrange(0, take),
            received: state.received + take,
            ..state
        };
        let rest = first.subrange(take, first.len() as int);
        if filled.pending.len() == 1_048_592 {
            assert(both.subrange(0, take) =~= first.subrange(0, take));
            assert(both.subrange(take, both.len() as int) =~= rest + second);
            match opened_segment(state.keys, state.context, state.segment as u64, filled.pending) {
                Some(plain) => {
                    let next = WriterState {
                        pending: Seq::empty(),
                        segment: state.segment + 1,
                        ..filled
                    };
                    writes_may_be_split(next, rest, second);
                    let (middle, out, ok) = absorbed(next, rest);
                    let (last, more, ok_too) = absorbed(middle, second);
                    assert(plain + (out + more) =~= (plain + out) + more);
                },
                None => {},
            }
        } else {
            assert(rest =~= Seq::<u8>::empty());
            assert(absorbed(state, first) == (filled, Seq::<u8>::empty(), true)) by {
                assert(absorbed(filled, rest) == (filled, Seq::<u8>::empty(), true));
            }
            let room2 = 1_048_592 - filled.pending.len();
            let take2 = if second.len() <= room2 { second.len() as int } else { room2 };
            let total_take = if both.len() <= room { both.len() as int } else { room };
            assert(total_take == take + take2);
            assert(state.pending + both.subrange(0, total_take) =~= filled.pending
                + second.subrange(0, take2));
            assert(both.subrange(total_take, both.len() as int) =~= second.subrange(
                take2,
                second.len() as int,
            ));
            let (last, more, ok_too) = absorbed(filled, second);
            assert(Seq::<u8>::empty() + more =~= more);
        }
    }
}

/// Writes along a sealed stream compose: what two stretches give out, in a row, is what the
/// stretch from the start of the first to the end of the second gives out.
pub proof fn stretches_compose(
    a: WriterState,
    b: WriterState,
    c: WriterState,
    plain: Seq<u8>,
    sealed: Seq<u8>,
    first: Seq<u8>,
    second: Seq<u8>,
)
    requires
        seals_stream(a.keys, a.context, plain, sealed),
        in_step(a, sealed),
        a.received <= b.received <= c.received,
        followed(a, b, plain, sealed, first),
        followed(b, c, plain, sealed, second),
    ensures
        followed(a, c, plain, sealed, first + second),
{
    reveal(followed);
    let total = sealed.len() as int;
    let len = plain.len() as int;
    opened_len_bounds(a.keys, a.context, plain, sealed, a.received);
    opened_len_bounds(a.keys, a.context, plain, sealed, b.received);
    opened_len_bounds(a.keys, a.context, plain, sealed, c.received);
    joined_parts(
        plain,
        opened_len(a.received, total, len),
        opened_len(b.received, total, len),
        opened_len(c.received, total, len),
    );
}

/// A writer that has followed a sealed stream from its first byte to its last has given out the
/// plaintext, no more and no less.
pub proof fn whole_stream_reads_back(
    start: WriterState,
    end: WriterState,
    plain: Seq<u8>,
    sealed: Seq<u8>,
    out: Seq<u8>,
)
    requires
        seals_stream(start.keys, start.context, plain, sealed),
        start.received == 0,
        end.received == sealed.len(),
        followed(start, end, plain, sealed, out),
    ensures
        out == plain,
{
    reveal(followed);
    assert(plain.subrange(0, plain.len() as int) =~= plain);
}

/// However a sealed stream is cut into writes, what they give out in a row is the plaintext. The
/// states are those between the writes, from before the first to after the last.
pub proof fn any_writes_read_back(
    states: Seq<WriterState>,
    outs: Seq<Seq<u8>>,
    plain: Seq<u8>,
    sealed: Seq<u8>,
)
    requires
        states.len() == outs.len() + 1,
        seals_stream(states[0].keys, states[0].context, plain, sealed),
        in_step(states[0], sealed),
        states[0].received == 0,
        states.last().received == sealed.len(),
        forall|i: int|
            0 <= i < outs.len() ==> followed(
                states[i],
                states[i + 1],
                plain,
                sealed,
                #[trigger] outs[i],
            ) && states[i].received <= states[i + 1].received,
    ensures
        joined(outs) == plain,
{
    writes_so_far(states, outs, plain, sealed, outs.len() as int);
    assert(outs.subrange(0, outs.len() as int) =~= outs);
    whole_stream_reads_back(states[0], states.last(), plain, sealed, joined(outs));
}

/// The first writes along a sealed stream give out the front of the plaintext.
proof fn writes_so_far(
    states: Seq<WriterState>,
    outs: Seq<Seq<u8>>,
    plain: Seq<u8>,
    sealed: Seq<u8>,
    n: int,
)
    requires
        0 <= n <= outs.len(),
        states.len() == outs.len() + 1,
        seals_stream(states[0].keys, states[0].context, plain, sealed),
        in_step(states[0], sealed),
        forall|i: int|
            0 <= i < outs.len() ==> followed(
                states[i],
                states[i + 1],
                plain,
                sealed,
                #[trigger] outs[i],
            ) && states[i].received <= states[i + 1].received,
    ensures
        followed(states[0], states[n], plain, sealed, joined(outs.subrange(0, n))),
        states[0].received <= states[n].received,
    decreases n,
{
    let now = outs.subrange(0, n);
    if n == 0 {
        reveal(followed);
        opened_len_bounds(
            states[0].keys,
            states[0].context,
            plain,
            sealed,
            states[0].received,
        );
        let at = opened_len(states[0].received, sealed.len() as int, plain.len() as int);
        assert(plain.subrange(at, at) =~= joined(now));
    } else {
        writes_so_far(states, outs, plain, sealed, n - 1);
        assert(now.drop_last() =~= outs.subrange(0, n - 1));
        assert(now.last() == outs[n - 1]);
        stretches_compose(
            states[0],
            states[n - 1],
            states[n],
            plain,
            sealed,
            joined(outs.subrange(0, n - 1)),
            outs[n - 1],
        );
    }
}

/// Sealing is deterministic: one plaintext has one sealed stream of a given length.
pub proof fn sealing_is_deterministic(
    keys: CryptoKeys,
    context: Seq<u8>,
    plain: Seq<u8>,
    a: Seq<u8>,
    b: Seq<u8>,
)
    requires
        seals_stream(keys, context, plain, a),
        seals_stream(keys, context, plain, b),
        a.len() == b.len(),
    ensures
        a == b,
{
    let n = sealed_segments(a.len() as int);
    assert forall|j: int| 0 <= j < a.len() implies a[j] == b[j] by {
        let i = j / 1_048_592;
        let p = plain_piece(plain, i);
        assert(sealed_piece(a, i) == sealed_piece(b, i));
        assert(sealed_piece(a, i)[j - i * 1_048_592] == a[j]);
        assert(sealed_piece(b, i)[j - i * 1_048_592] == b[j]);
    }
    assert(a =~= b);
}

/// Opens a stream of sealed segments as it arrives, in writes of any size. Holds at most one
/// segment.
pub struct DecryptingWriter<'a> {
    crypto: &'a Crypto,
    context: Vec<u8>,
    sealed_len: u64,
    received: u64,
    segment: u64,
    buf: Vec<u8>,
}

impl<'a> View for DecryptingWriter<'a> {
    type V = WriterState;

    closed spec fn view(&self) -> WriterState {
        WriterState {
            keys: self.crypto@,
            context: self.context@,
            sealed_len: self.sealed_len as int,
            received: self.received as int,
            segment: self.segment as int,
            pending: self.buf@,
        }
    }
}

impl<'a> DecryptingWriter<'a> {
    /// The invariant of a writer between writes.
    pub open spec fn wf(&self) -> bool {
        &&& self@.context.len() + 8 <= u64::MAX
        &&& self@.pending.len() <= SEALED_SEGMENT_SIZE
        &&& self@.segment + self@.pending.len() <= self@.received
    }

    /// A writer for the sealed form of `plain_len` bytes.
    pub fn new(crypto: &'a Crypto, context: &[u8], plain_len: u64) -> (r: Self)
        requires
            context@.len() + 8 <= u64::MAX,
            sealed_len_of(plain_len as int) <= u64::MAX,
        ensures
            r.wf(),
            r@ == (WriterState {
                keys: crypto@,
                context: context@,
                sealed_len: sealed_len_of(plain_len as int),
                received: 0,
                segment: 0,
                pending: Seq::empty(),
            }),
            forall|sealed: Seq<u8>|
                sealed.len() == sealed_len_of(plain_len as int) ==> #[trigger] in_step(r@, sealed),
    {
        let r = DecryptingWriter {
            crypto,
            context: slice_to_vec(context),
            sealed_len: Crypto::sealed_len(plain_len),
            received: 0,
            segment: 0,
            buf: Vec::new(),
        };
        proof {
            assert(r.buf@ =~= Seq::<u8>::empty());
            assert forall|sealed: Seq<u8>|
                sealed.len() == sealed_len_of(plain_len as int) implies #[trigger] in_step(
                r@,
                sealed,
            ) by {
                assert(sealed.subrange(0, 0) =~= Seq::<u8>::empty());
            }
        }
        r
    }

    /// Opens the pending segment and appends its plaintext to `out`.
    fn flush_segment(&mut self, out: &mut Vec<u8>) -> (r: Result<(), CryptoError>)
        requires
            old(self).wf(),
            old(self)@.segment < u64::MAX,
        ensures
            match opened_segment(
                old(self)@.keys,
                old(self)@.context,
                old(self)@.segment as u64,
                old(self)@.pending,
            ) {
                Some(plain) => {
                    &&& r is Ok
                    &&& final(out)@ == old(out)@ + plain
                    &&& final(self)@ == (WriterState {
                        pending: Seq::empty(),
                        segment: old(self)@.segment + 1,
                        ..old(self)@
                    })
                },
                None => {
                    &&& r == Err::<(), CryptoError>(CryptoError::DecryptionFailed)
                    &&& final(out)@ == old(out)@
                    &&& final(self)@ == old(self)@
                },
            },
            forall|plain: Seq<u8>| #[trigger]
                seals_segment(
                    old(self)@.keys,
                    old(self)@.context,
                    old(self)@.segment as u64,
                    plain,
                    old(self)@.pending,
                ) ==> opened_segment(
                    old(self)@.keys,
                    old(self)@.context,
                    old(self)@.segment as u64,
                    old(self)@.pending,
                ) == Some(plain),
    {
        match self.crypto.open_segment(
            self.context.as_slice(),
            self.segment,
            self.buf.as_slice(),
        ) {
            Ok(plain) => {
                append_bytes(out, plain.as_slice());
                self.segment = self.segment + 1;
                self.buf.clear();
                assert(self.buf@ =~= Seq::<u8>::empty());
                Ok(())
            },
            Err(error) => Err(error),
        }
    }

    /// Takes the next ciphertext bytes and appends to `out` the plaintext of every segment that
    /// they complete.
    pub fn write(&mut self, data: &[u8], out: &mut Vec<u8>) -> (r: Result<usize, CryptoError>)
        requires
            old(self).wf(),
            old(self)@.received + data@.len() <= u64::MAX,
        ensures
            final(self).wf(),
            final(self)@ == absorbed(old(self)@, data@).0,
            final(out)@ == old(out)@ + absorbed(old(self)@, data@).1,
            r == if absorbed(old(self)@, data@).2 {
                Ok::<usize, CryptoError>(data@.len() as usize)
            } else {
                Err::<usize, CryptoError>(CryptoError::DecryptionFailed)
            },
            r is Ok ==> final(self)@.received == old(self)@.received + data@.len(),
            forall|plain: Seq<u8>, sealed: Seq<u8>| #[trigger]
                feeds(old(self)@, plain, sealed, data@) ==> {
                    &&& r is Ok
                    &&& followed(
                        old(self)@,
                        final(self)@,
                        plain,
                        sealed,
                        absorbed(old(self)@, data@).1,
                    )
                },
    {
        let sealed_seg: usize = SEALED_SEGMENT_SIZE as usize;
        let mut at: usize = 0;
        let ghost start = self@;
        let ghost before = out@;
        let ghost mut done = Seq::<u8>::empty();
        proof {
            assert(data@.subrange(0, data@.len() as int) =~= data@);
            let (v, o, ok) = absorbed(start, data@);
            assert(done + o =~= o);
            assert(out@ =~= before + done);
            assert forall|plain: Seq<u8>, sealed: Seq<u8>| #[trigger]
                feeds(start, plain, sealed, data@) implies followed(
                start,
                start,
                plain,
                sealed,
                done,
            ) by {
                followed_nothing(start, plain, sealed, data@);
            }
        }
        while at < data.len()
            invariant
                self.wf(),
                start == old(self)@,
                before == old(out)@,
                sealed_seg == SEALED_SEGMENT_SIZE,
                at <= data@.len(),
                start.received + data@.len() <= u64::MAX,
                self@.keys == start.keys,
                self@.context == start.context,
                self@.sealed_len == start.sealed_len,
                self@.received == start.received + at,
                out@ == before + done,
                ({
                    let (v, o, ok) = absorbed(self@, data@.subrange(at as int, data@.len() as int));
                    absorbed(start, data@) == (v, done + o, ok)
                }),
                forall|plain: Seq<u8>, sealed: Seq<u8>| #[trigger]
                    feeds(start, plain, sealed, data@) ==> followed(
                        start,
                        self@,
                        plain,
                        sealed,
                        done,
                    ),
            decreases data@.len() - at, self@.pending.len(),
        {
            let ghost here = self@;
            let ghost rest = data@.subrange(at as int, data@.len() as int);
            let ghost part = data@.subrange(at as int, at + take_of(here, rest));
            let want: usize = sealed_seg - self.buf.len();
            let take: usize = if data.len() - at < want { data.len() - at } else { want };
            append_bytes(&mut self.buf, slice_subrange(data, at, at + take));
            self.received = self.received + take as u64;
            let ghost filled = self@;
            proof {
                assert(rest.subrange(0, take as int) =~= part);
                assert(rest.subrange(take as int, rest.len() as int) =~= data@.subrange(
                    at + take,
                    data@.len() as int,
                ));
                assert(filled == WriterState {
                    pending: here.pending + part,
                    received: here.received + take,
                    ..here
                });
                absorbed_step(here, rest, filled, take as int);
            }
            at += take;
            // A segment is complete when full, or when it is the last one.
            if self.buf.len() == sealed_seg || self.received == self.sealed_len {
                let ghost opened = opened_segment(
                    start.keys,
                    start.context,
                    here.segment as u64,
                    filled.pending,
                );
                let flushed = self.flush_segment(out);
                proof {
                    assert forall|plain: Seq<u8>, sealed: Seq<u8>| #[trigger]
                        feeds(start, plain, sealed, data@) implies opened == Some(
                        plain_piece(plain, here.segment),
                    ) by {
                        followed_to_piece(start, here, filled, plain, sealed, data@, part, done);
                    }
                }
                if let Err(error) = flushed {
                    proof {
                        assert(done + Seq::<u8>::empty() =~= done);
                    }
                    return Err(error);
                }
                proof {
                    let earlier = done;
                    let plain = opened->0;
                    done = done + plain;
                    assert(out@ =~= before + done);
                    let (v, o, ok) = absorbed(self@, data@.subrange(at as int, data@.len() as int));
                    assert(earlier + (plain + o) =~= done + o);
                    assert forall|text: Seq<u8>, sealed: Seq<u8>| #[trigger]
                        feeds(start, text, sealed, data@) implies followed(
                        start,
                        self@,
                        text,
                        sealed,
                        done,
                    ) by {
                        followed_over_segment(
                            start,
                            here,
                            filled,
                            self@,
                            text,
                            sealed,
                            data@,
                            part,
                            earlier,
                        );
                    }
                }
            } else {
                proof {
                    assert forall|plain: Seq<u8>, sealed: Seq<u8>| #[trigger]
                        feeds(start, plain, sealed, data@) implies followed(
                        start,
                        self@,
                        plain,
                        sealed,
                        done,
                    ) by {
                        followed_within_segment(
                            start,
                            here,
                            filled,
                            plain,
                            sealed,
                            data@,
                            part,
                            done,
                        );
                    }
                }
            }
        }
        proof {
            absorbed_nothing(self@, data@.subrange(at as int, data@.len() as int));
            assert(done + Seq::<u8>::empty() =~= done);
        }
        Ok(data.len())
    }
}

/// How many bytes of `data` one step of a write takes.
spec fn take_of(state: WriterState, data: Seq<u8>) -> int {
    if data.len() <= 1_048_592 - state.pending.len() {
        data.len() as int
    } else {
        1_048_592 - state.pending.len()
    }
}

/// One step of a write from `here` to `filled` within `data`, which began at `start`.
spec fn steps(
    start: WriterState,
    here: WriterState,
    filled: WriterState,
    data: Seq<u8>,
    part: Seq<u8>,
) -> bool {
    let at = here.received - start.received;
    &&& here.keys == start.keys
    &&& here.context == start.context
    &&& here.sealed_len == start.sealed_len
    &&& 0 <= at < data.len()
    &&& at + part.len() <= data.len()
    &&& part == data.subrange(at, at + part.len())
    &&& here.pending.len() + part.len() <= 1_048_592
    &&& filled == WriterState {
        pending: here.pending + part,
        received: here.received + part.len(),
        ..here
    }
}

/// A writer that has taken nothing has given out nothing.
proof fn followed_nothing(start: WriterState, plain: Seq<u8>, sealed: Seq<u8>, data: Seq<u8>)
    requires
        feeds(start, plain, sealed, data),
    ensures
        followed(start, start, plain, sealed, Seq::empty()),
{
    reveal(feeds);
    reveal(followed);
    opened_len_bounds(start.keys, start.context, plain, sealed, start.received);
    let n = opened_len(start.received, sealed.len() as int, plain.len() as int);
    assert(plain.subrange(n, n) =~= Seq::<u8>::empty());
}

/// Along a sealed stream, a complete segment is the next piece of it.
proof fn followed_to_piece(
    start: WriterState,
    here: WriterState,
    filled: WriterState,
    plain: Seq<u8>,
    sealed: Seq<u8>,
    data: Seq<u8>,
    part: Seq<u8>,
    done: Seq<u8>,
)
    requires
        feeds(start, plain, sealed, data),
        followed(start, here, plain, sealed, done),
        steps(start, here, filled, data, part),
        filled.pending.len() == 1_048_592 || filled.received == filled.sealed_len,
    ensures
        seals_segment(
            start.keys,
            start.context,
            here.segment as u64,
            plain_piece(plain, here.segment),
            filled.pending,
        ),
{
    reveal(feeds);
    reveal(followed);
    assert(part =~= sealed.subrange(here.received, here.received + part.len()));
    filled_is_piece(here, filled, sealed, part);
}

/// Along a sealed stream, opening a complete segment gives the next part of the plaintext.
proof fn followed_over_segment(
    start: WriterState,
    here: WriterState,
    filled: WriterState,
    next: WriterState,
    plain: Seq<u8>,
    sealed: Seq<u8>,
    data: Seq<u8>,
    part: Seq<u8>,
    done: Seq<u8>,
)
    requires
        feeds(start, plain, sealed, data),
        followed(start, here, plain, sealed, done),
        steps(start, here, filled, data, part),
        filled.pending.len() == 1_048_592 || filled.received == filled.sealed_len,
        next == (WriterState { pending: Seq::empty(), segment: here.segment + 1, ..filled }),
    ensures
        followed(start, next, plain, sealed, done + plain_piece(plain, here.segment)),
{
    reveal(feeds);
    reveal(followed);
    assert(part =~= sealed.subrange(here.received, here.received + part.len()));
    segment_done(here, filled, next, plain, sealed, part);
    let total = sealed.len() as int;
    let len = plain.len() as int;
    opened_len_bounds(start.keys, start.context, plain, sealed, start.received);
    assert(opened_len(start.received, total, len) <= opened_len(here.received, total, len));
    joined_parts(
        plain,
        opened_len(start.received, total, len),
        opened_len(here.received, total, len),
        opened_len(next.received, total, len),
    );
}

/// Along a sealed stream, bytes that complete no segment give out nothing.
proof fn followed_within_segment(
    start: WriterState,
    here: WriterState,
    filled: WriterState,
    plain: Seq<u8>,
    sealed: Seq<u8>,
    data: Seq<u8>,
    part: Seq<u8>,
    done: Seq<u8>,
)
    requires
        feeds(start, plain, sealed, data),
        followed(start, here, plain, sealed, done),
        steps(start, here, filled, data, part),
        filled.pending.len() < 1_048_592,
        filled.received != filled.sealed_len,
    ensures
        followed(start, filled, plain, sealed, done),
{
    reveal(feeds);
    reveal(followed);
    assert(part =~= sealed.subrange(here.received, here.received + part.len()));
    segment_open(here, filled, sealed, part);
}

/// Two neighbouring parts of a sequence make one.
proof fn joined_parts(s: Seq<u8>, a: int, b: int, c: int)
    requires
        0 <= a <= b <= c <= s.len(),
    ensures
        s.subrange(a, b) + s.subrange(b, c) == s.subrange(a, c),
{
    assert(s.subrange(a, b) + s.subrange(b, c) =~= s.subrange(a, c));
}

/// What has come out is always a front part of the plaintext.
proof fn opened_len_bounds(
    keys: CryptoKeys,
    context: Seq<u8>,
    plain: Seq<u8>,
    sealed: Seq<u8>,
    pos: int,
)
    requires
        seals_stream(keys, context, plain, sealed),
        0 <= pos <= sealed.len(),
    ensures
        0 <= opened_len(pos, sealed.len() as int, plain.len() as int) <= plain.len(),
        plain.len() <= sealed_segments(sealed.len() as int) * 1_048_576,
{
}

/// A writer in step that takes the next part of the stream, up to the end of a segment.
spec fn takes(here: WriterState, filled: WriterState, sealed: Seq<u8>, part: Seq<u8>) -> bool {
    &&& in_step(here, sealed)
    &&& here.received < sealed.len()
    &&& here.received + part.len() <= sealed.len()
    &&& here.pending.len() + part.len() <= 1_048_592
    &&& part == sealed.subrange(here.received, here.received + part.len())
    &&& filled == WriterState {
        pending: here.pending + part,
        received: here.received + part.len(),
        ..here
    }
}

/// A complete segment is the piece of the stream with its number.
proof fn filled_is_piece(here: WriterState, filled: WriterState, sealed: Seq<u8>, part: Seq<u8>)
    requires
        takes(here, filled, sealed, part),
        filled.pending.len() == 1_048_592 || filled.received == sealed.len(),
    ensures
        filled.pending == sealed_piece(sealed, here.segment),
        0 <= here.segment < sealed_segments(sealed.len() as int),
{
    assert(filled.pending =~= sealed_piece(sealed, here.segment));
}

/// Opening a complete segment keeps the writer in step and gives the next part of the
/// plaintext.
proof fn segment_done(
    here: WriterState,
    filled: WriterState,
    next: WriterState,
    plain: Seq<u8>,
    sealed: Seq<u8>,
    part: Seq<u8>,
)
    requires
        seals_stream(here.keys, here.context, plain, sealed),
        takes(here, filled, sealed, part),
        filled.pending.len() == 1_048_592 || filled.received == sealed.len(),
        next == (WriterState { pending: Seq::empty(), segment: here.segment + 1, ..filled }),
    ensures
        in_step(next, sealed),
        plain_piece(plain, here.segment) == plain.subrange(
            opened_len(here.received, sealed.len() as int, plain.len() as int),
            opened_len(next.received, sealed.len() as int, plain.len() as int),
        ),
        opened_len(here.received, sealed.len() as int, plain.len() as int) <= opened_len(
            next.received,
            sealed.len() as int,
            plain.len() as int,
        ) <= plain.len(),
{
    let total = sealed.len() as int;
    opened_len_bounds(here.keys, here.context, plain, sealed, here.received);
    opened_len_bounds(here.keys, here.context, plain, sealed, next.received);
    if next.received < total {
        assert(sealed.subrange(next.segment * 1_048_592, next.received) =~= Seq::<u8>::empty());
    }
    assert(plain_piece(plain, here.segment) =~= plain.subrange(
        opened_len(here.received, total, plain.len() as int),
        opened_len(next.received, total, plain.len() as int),
    ));
}

/// Bytes that complete no segment keep the writer in step.
proof fn segment_open(here: WriterState, filled: WriterState, sealed: Seq<u8>, part: Seq<u8>)
    requires
        takes(here, filled, sealed, part),
        filled.pending.len() < 1_048_592,
        filled.received < sealed.len(),
    ensures
        in_step(filled, sealed),
        filled.received / 1_048_592 == here.received / 1_048_592,
{
    assert(filled.pending =~= sealed.subrange(filled.segment * 1_048_592, filled.received));
}

/// A sealed segment opens just if something seals to it, and then to something that does.
pub proof fn segments_open_to_what_seals_to_them(
    keys: CryptoKeys,
    context: Seq<u8>,
    segment: u64,
    plain: Seq<u8>,
    sealed: Seq<u8>,
)
    ensures
        ({
            let opened = opened_segment(keys, context, segment, sealed);
            &&& opened is Some ==> sealed == xchacha_sealed(
                keys.cipher,
                segment_nonce(keys, context, segment),
                opened->0,
            )
            &&& seals_segment(keys, context, segment, plain, sealed) ==> opened is Some
        }),
{
}

/// The segments of a range end one after the other, each as many bytes on as it has, and the last
/// at the end of the range.
pub proof fn segments_end_where_the_range_does(data: Seq<u8>, base: int, plain_len: int, i: int)
    requires
        0 <= base,
        0 <= plain_len,
        base + plain_len <= data.len(),
        0 <= i < plain_segments(plain_len),
    ensures
        plain_end(plain_len, 0) == 0,
        plain_end(plain_len, i + 1) == plain_end(plain_len, i) + range_piece(
            data,
            base,
            plain_len,
            i,
        ).len(),
        plain_end(plain_len, plain_segments(plain_len)) == plain_len,
        range_piece(data, base, plain_len, i) == data.subrange(
            base + plain_end(plain_len, i),
            base + plain_end(plain_len, i + 1),
        ),
{
}

} // verus!
