//! Encryption keys of a repository: their text form, key files, and the verifier by which a
//! wrong key is told apart.
use vstd::prelude::*;
use base64::Engine;
use crate::config::Repo;
use crate::hashing::{blake3_derived, derive_key};
use crate::text::{
    is_space, trim_text, trimmed, trimmed_before_space, trimmed_without_space,
    trimming_takes_the_ends,
};

verus! {

/// The opaque error of the base64 crate.
#[verifier::external_type_specification]
#[verifier::external_body]
pub struct ExDecodeError(base64::DecodeError);

/// The standard base64 text, with padding, of some bytes.
pub uninterp spec fn base64_text(bytes: Seq<u8>) -> Seq<char>;

/// The bytes that a standard base64 text with padding stands for, if it is one.
pub uninterp spec fn base64_bytes(text: Seq<char>) -> Option<Seq<u8>>;

/// `base64::engine::general_purpose::STANDARD.encode` writes bytes as base64 text, which holds
/// no white space and which `decode` of the same engine reads back.
#[verifier::external_body]
fn base64_encode(bytes: &[u8; 32]) -> (r: String)
    ensures
        r@ == base64_text(bytes@),
        base64_bytes(r@) == Some(bytes@),
        forall|i: int| 0 <= i < r@.len() ==> !is_space(#[trigger] r@[i]),
{
    base64::engine::general_purpose::STANDARD.encode(bytes)
}

/// `base64::engine::general_purpose::STANDARD.decode` reads base64 text, and fails where the
/// text is not the base64 form of anything.
#[verifier::external_body]
fn base64_decode(text: &str) -> (r: Result<Vec<u8>, base64::DecodeError>)
    ensures
        match base64_bytes(text@) {
            Some(bytes) => r is Ok && r->Ok_0@ == bytes,
            None => r is Err,
        },
{
    base64::engine::general_purpose::STANDARD.decode(text)
}

/// `rand::random` draws 32 bytes; nothing can be said of which. It panics where the system has no
/// randomness to give.
#[verifier::external_body]
fn random_key() -> (r: [u8; 32]) {
    rand::random()
}

/// What is wrong with a key or with where it came from.
#[derive(Debug, Clone, Copy, PartialEq, Eq, Structural)]
pub enum KeyError {
    NotBase64,
    WrongLength,
    /// The stored verifier is not a key in text form.
    BadVerifier,
    /// The repository is encrypted and no key was given.
    KeyRequired,
    /// The key is not the one of this repository.
    Mismatch,
    /// The key file is not a regular file.
    NotAFile,
    /// The key file is accessible by group or others.
    TooOpen,
}

impl KeyError {
    /// A sentence for the user.
    pub fn message(&self) -> (r: String)
        ensures
            r@ == (match *self {
                KeyError::NotBase64 => "encryption key is not valid base64"@,
                KeyError::WrongLength => "encryption key must be exactly 32 bytes"@,
                KeyError::BadVerifier => "invalid key_verifier in .tgfs/config.toml"@,
                KeyError::KeyRequired => "this repo is encrypted; supply --key or --keyfile"@,
                KeyError::Mismatch => "supplied encryption key does not match this repository"@,
                KeyError::NotAFile => "key file is not a regular file"@,
                KeyError::TooOpen =>
                    "key file is accessible by group or others; run `chmod 600` on it"@,
            }),
    {
        match self {
            KeyError::NotBase64 => "encryption key is not valid base64".to_owned(),
            KeyError::WrongLength => "encryption key must be exactly 32 bytes".to_owned(),
            KeyError::BadVerifier => "invalid key_verifier in .tgfs/config.toml".to_owned(),
            KeyError::KeyRequired =>
                "this repo is encrypted; supply --key or --keyfile".to_owned(),
            KeyError::Mismatch =>
                "supplied encryption key does not match this repository".to_owned(),
            KeyError::NotAFile => "key file is not a regular file".to_owned(),
            KeyError::TooOpen =>
                "key file is accessible by group or others; run `chmod 600` on it".to_owned(),
        }
    }
}

/// The key that decoded bytes are, if there are 32 of them.
pub open spec fn key_from_bytes(bytes: Option<Seq<u8>>) -> Result<Seq<u8>, KeyError> {
    match bytes {
        None => Err(KeyError::NotBase64),
        Some(raw) => if raw.len() == 32 {
            Ok(raw)
        } else {
            Err(KeyError::WrongLength)
        },
    }
}

/// The key that a text stands for, white space around it aside.
pub open spec fn decoded_key(text: Seq<char>) -> Result<Seq<u8>, KeyError> {
    key_from_bytes(base64_bytes(trimmed(text)))
}

/// The verifier of a key: a separate derivation, which is safe to keep.
pub open spec fn key_verifier(key: Seq<u8>) -> Seq<u8> {
    blake3_derived("tgfs 2026 key verifier v1"@, key)
}

/// Whether a result holds a key, seen as bytes, or an error.
pub open spec fn key_result(
    r: Result<[u8; 32], KeyError>,
    expected: Result<Seq<u8>, KeyError>,
) -> bool {
    match expected {
        Ok(key) => r is Ok && r->Ok_0@ == key,
        Err(error) => r == Err::<[u8; 32], KeyError>(error),
    }
}

/// Draws a new key.
pub fn generate() -> (r: [u8; 32]) {
    random_key()
}

/// The text form of a key. Decoding it gives the key back.
pub fn encode(key: &[u8; 32]) -> (r: String)
    ensures
        r@ == base64_text(key@),
        decoded_key(r@) == Ok::<Seq<u8>, KeyError>(key@),
{
    let r = base64_encode(key);
    proof {
        trimmed_without_space(r@);
    }
    r
}

/// The key that decoded bytes are, or `None` where the text was not base64.
pub fn key_of_bytes(raw: Option<Vec<u8>>) -> (r: Result<[u8; 32], KeyError>)
    ensures
        key_result(r, key_from_bytes(match raw {
            Some(bytes) => Some(bytes@),
            None => None,
        })),
{
    match raw {
        None => Err(KeyError::NotBase64),
        Some(bytes) => {
            if bytes.len() != 32 {
                return Err(KeyError::WrongLength);
            }
            let mut key: [u8; 32] = [0u8; 32];
            let mut i: usize = 0;
            while i < 32
                invariant
                    i <= 32,
                    bytes@.len() == 32,
                    forall|j: int| 0 <= j < i ==> key@[j] == bytes@[j],
                decreases 32 - i,
            {
                key[i] = bytes[i];
                i += 1;
            }
            assert(key@ =~= bytes@);
            Ok(key)
        },
    }
}

/// Reads a key from its text form.
pub fn decode(value: &str) -> (r: Result<[u8; 32], KeyError>)
    ensures
        key_result(r, decoded_key(value@)),
{
    let text = trim_text(value);
    match base64_decode(text.as_str()) {
        Ok(raw) => key_of_bytes(Some(raw)),
        Err(_) => key_of_bytes(None),
    }
}

/// The text form of a key's verifier, which accepts the key.
pub fn verifier_text(key: &[u8; 32]) -> (r: String)
    ensures
        r@ == base64_text(key_verifier(key@)),
        decoded_key(r@) == Ok::<Seq<u8>, KeyError>(key_verifier(key@)),
        verifier_check(key@, r@) == Ok::<bool, KeyError>(true),
{
    encode(&derive_key("tgfs 2026 key verifier v1", key.as_slice()))
}

/// Whether two keys are the same.
pub fn same_key(a: &[u8; 32], b: &[u8; 32]) -> (r: bool)
    ensures
        r == (a@ == b@),
{
    let mut i: usize = 0;
    while i < 32
        invariant
            i <= 32,
            forall|j: int| 0 <= j < i ==> a@[j] == b@[j],
        decreases 32 - i,
    {
        if a[i] != b[i] {
            assert(a@[i as int] != b@[i as int]);
            return false;
        }
        i += 1;
    }
    assert(a@ =~= b@);
    true
}

/// What checking a key against a stored verifier gives.
pub open spec fn verifier_check(key: Seq<u8>, expected: Seq<char>) -> Result<bool, KeyError> {
    match decoded_key(expected) {
        Ok(stored) => Ok(key_verifier(key) == stored),
        Err(_) => Err(KeyError::BadVerifier),
    }
}

/// Whether a key is the one that a stored verifier was made from.
pub fn matches_verifier(key: &[u8; 32], expected: &str) -> (r: Result<bool, KeyError>)
    ensures
        r == verifier_check(key@, expected@),
{
    match decode(expected) {
        Ok(stored) => {
            let actual = derive_key("tgfs 2026 key verifier v1", key.as_slice());
            Ok(same_key(&actual, &stored))
        },
        Err(_) => Err(KeyError::BadVerifier),
    }
}

/// Where a key comes from: given directly, or in a file.
#[derive(Debug, Clone)]
pub struct KeyArgs {
    /// The key in text form.
    pub key: Option<String>,
    /// Path of a file that holds the key in text form.
    pub keyfile: Option<String>,
}

impl KeyArgs {
    /// The key that was given, if one was. `contents` is what the key file holds, where a key
    /// file was named.
    pub fn load(&self, contents: Option<&str>) -> (r: Result<Option<[u8; 32]>, KeyError>)
        requires
            self.key is None || self.keyfile is None,
            contents is Some <==> self.keyfile is Some,
        ensures
            match (self.key, contents) {
                (None, None) => r == Ok::<Option<[u8; 32]>, KeyError>(None),
                (Some(text), _) => match decoded_key(text@) {
                    Ok(key) => r is Ok && r->Ok_0 is Some && r->Ok_0->0@ == key,
                    Err(error) => r == Err::<Option<[u8; 32]>, KeyError>(error),
                },
                (None, Some(text)) => match decoded_key(text@) {
                    Ok(key) => r is Ok && r->Ok_0 is Some && r->Ok_0->0@ == key,
                    Err(error) => r == Err::<Option<[u8; 32]>, KeyError>(error),
                },
            },
    {
        let decoded = match (&self.key, contents) {
            (Some(text), _) => decode(text.as_str()),
            (None, Some(text)) => decode(text),
            (None, None) => {
                return Ok(None);
            },
        };
        match decoded {
            Ok(key) => Ok(Some(key)),
            Err(error) => Err(error),
        }
    }
}

/// Checks that a key file is a regular file that only its owner can access. `mode` is the file's
/// permission bits.
pub fn check_keyfile(is_file: bool, mode: u32) -> (r: Result<(), KeyError>)
    ensures
        r == if !is_file {
            Err::<(), KeyError>(KeyError::NotAFile)
        } else if mode & 0o077 != 0 {
            Err::<(), KeyError>(KeyError::TooOpen)
        } else {
            Ok::<(), KeyError>(())
        },
{
    if !is_file {
        return Err(KeyError::NotAFile);
    }
    if mode & 0o077 != 0 {
        return Err(KeyError::TooOpen);
    }
    Ok(())
}

/// What a key file holds: the text form of the key, and a line feed. Loading it gives the key.
pub fn keyfile_contents(key: &[u8; 32]) -> (r: String)
    ensures
        r@ == base64_text(key@) + "\n"@,
        decoded_key(r@) == Ok::<Seq<u8>, KeyError>(key@),
{
    let mut r = base64_encode(key);
    let ghost text = r@;
    r.append("\n");
    proof {
        reveal_strlit("\n");
        trimmed_before_space(text, "\n"@);
    }
    r
}

/// Checks a supplied key against a repository, and turns its encryption on where a key is
/// supplied for the first time. Returns whether the settings changed.
pub fn configure_repo_encryption(repo: &mut Repo, key: Option<&[u8; 32]>) -> (r: Result<
    bool,
    KeyError,
>)
    ensures
        key is None ==> *final(repo) == *old(repo) && r == if old(repo).config.encrypted {
            Err::<bool, KeyError>(KeyError::KeyRequired)
        } else {
            Ok::<bool, KeyError>(false)
        },
        key is Some ==> final(repo).config.encrypted && final(repo).root == old(repo).root
            && final(repo).config.channel_id == old(repo).config.channel_id
            && final(repo).config.channel_access_hash == old(repo).config.channel_access_hash
            && final(repo).config.chunk_size == old(repo).config.chunk_size
            && final(repo).config.pack == old(repo).config.pack && final(repo).config.exclude
            == old(repo).config.exclude,
        key is Some ==> match old(repo).config.key_verifier {
            Some(stored) => final(repo).config.key_verifier == old(repo).config.key_verifier && r
                == match verifier_check(key->0@, stored@) {
                Ok(true) => Ok::<bool, KeyError>(!old(repo).config.encrypted),
                Ok(false) => Err::<bool, KeyError>(KeyError::Mismatch),
                Err(error) => Err::<bool, KeyError>(error),
            },
            None => r == Ok::<bool, KeyError>(true) && final(repo).config.key_verifier is Some
                && final(repo).config.key_verifier->0@ == base64_text(key_verifier(key->0@)),
        },
        r is Ok && key is Some ==> final(repo).config.key_verifier is Some && verifier_check(
            key->0@,
            final(repo).config.key_verifier->0@,
        ) == Ok::<bool, KeyError>(true),
{
    let key = match key {
        Some(key) => key,
        None => {
            if repo.config.encrypted {
                return Err(KeyError::KeyRequired);
            }
            return Ok(false);
        },
    };
    let mut changed: bool = false;
    if !repo.config.encrypted {
        repo.config.encrypted = true;
        changed = true;
    }
    let checked: Option<Result<bool, KeyError>> = match &repo.config.key_verifier {
        Some(stored) => Some(matches_verifier(key, stored.as_str())),
        None => None,
    };
    match checked {
        Some(Ok(true)) => {},
        Some(Ok(false)) => {
            return Err(KeyError::Mismatch);
        },
        Some(Err(error)) => {
            return Err(error);
        },
        None => {
            repo.config.key_verifier = Some(verifier_text(key));
            changed = true;
        },
    }
    Ok(changed)
}

/// A key is accepted just if it has 32 bytes; what is wrong with another is said.
pub proof fn keys_have_32_bytes(bytes: Option<Seq<u8>>)
    ensures
        key_from_bytes(bytes) is Ok <==> bytes is Some && bytes->0.len() == 32,
        key_from_bytes(bytes) is Ok ==> key_from_bytes(bytes)->Ok_0 == bytes->0,
        bytes is None <==> key_from_bytes(bytes) == Err::<Seq<u8>, KeyError>(KeyError::NotBase64),
        bytes is Some && bytes->0.len() != 32 <==> key_from_bytes(bytes) == Err::<
            Seq<u8>,
            KeyError,
        >(KeyError::WrongLength),
{
}

/// Space around the text of a key does not matter, and nothing else is left out of it.
pub proof fn space_around_a_key_does_not_matter(text: Seq<char>, i: int, j: int)
    requires
        0 <= i < j <= text.len(),
        forall|k: int| 0 <= k < i ==> is_space(#[trigger] text[k]),
        forall|k: int| j <= k < text.len() ==> is_space(#[trigger] text[k]),
        !is_space(text[i]),
        !is_space(text[j - 1]),
    ensures
        decoded_key(text) == key_from_bytes(base64_bytes(text.subrange(i, j))),
        decoded_key(text) == decoded_key(text.subrange(i, j)),
{
    let inner = text.subrange(i, j);
    trimming_takes_the_ends(text, i, j);
    trimming_takes_the_ends(inner, 0, inner.len() as int);
    assert(inner.subrange(0, inner.len() as int) =~= inner);
}

/// A verifier accepts a key just if it is what that key derives to: a key that it accepts and one
/// that it refuses derive to different verifiers. It is at fault just if it is no 32 bytes in
/// base64.
pub proof fn verifiers_tell_keys_apart(key: Seq<u8>, other: Seq<u8>, stored: Seq<char>)
    ensures
        verifier_check(key, stored) == Ok::<bool, KeyError>(true) <==> decoded_key(stored) == Ok::<
            Seq<u8>,
            KeyError,
        >(blake3_derived("tgfs 2026 key verifier v1"@, key)),
        decoded_key(stored) is Err <==> verifier_check(key, stored) == Err::<bool, KeyError>(
            KeyError::BadVerifier,
        ),
        verifier_check(key, stored) == Ok::<bool, KeyError>(true) && verifier_check(other, stored)
            == Ok::<bool, KeyError>(false) ==> blake3_derived("tgfs 2026 key verifier v1"@, key)
            != blake3_derived("tgfs 2026 key verifier v1"@, other),
        verifier_check(key, stored) == Ok::<bool, KeyError>(true) && verifier_check(other, stored)
            == Ok::<bool, KeyError>(true) ==> key_verifier(key) == key_verifier(other),
{
}

/// A result is what one thing was expected to be: a key of the same bytes, or the same error.
pub proof fn results_are_as_expected(
    r: Result<[u8; 32], KeyError>,
    expected: Result<Seq<u8>, KeyError>,
    other: Result<Seq<u8>, KeyError>,
)
    ensures
        key_result(r, expected) ==> (r is Ok <==> expected is Ok),
        key_result(r, expected) && r is Ok ==> r->Ok_0@ == expected->Ok_0,
        key_result(r, expected) && r is Err ==> r->Err_0 == expected->Err_0,
        key_result(r, expected) && key_result(r, other) ==> expected == other,
{
}

} // verus!
