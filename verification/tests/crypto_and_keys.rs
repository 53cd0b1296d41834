use chacha20poly1305::aead::Aead;
use chacha20poly1305::{KeyInit, XChaCha20Poly1305, XNonce};
use tgfs::config::{default_excludes, PackConfig, Repo, RepoConfig, DEFAULT_CHUNK_SIZE};
use tgfs::crypto::{
    frame_blob, nonce_of, split_blob, Crypto, CryptoError, DecryptingWriter, SEGMENT_SIZE, TAG_SIZE,
};
use tgfs::key::{
    check_keyfile, configure_repo_encryption, decode, encode, generate, key_of_bytes,
    keyfile_contents, matches_verifier, same_key, verifier_text, KeyArgs, KeyError,
};

fn crypto() -> Crypto {
    Crypto::new(&[7u8; 32])
}

fn pattern(len: usize) -> Vec<u8> {
    (0..len).map(|i| (i % 251) as u8).collect()
}

#[test]
fn segment_roundtrip_and_determinism() {
    let c = crypto();
    let sealed = c.seal_segment(b"ctx", 0, b"hello").unwrap();
    assert_eq!(sealed.len(), 5 + TAG_SIZE as usize);
    assert_eq!(c.open_segment(b"ctx", 0, &sealed).unwrap(), b"hello");
    assert_eq!(sealed, c.seal_segment(b"ctx", 0, b"hello").unwrap());
    assert_ne!(sealed, c.seal_segment(b"ctx", 1, b"hello").unwrap());
    assert_ne!(sealed, c.seal_segment(b"other", 0, b"hello").unwrap());
    let mut bad = sealed.clone();
    bad[0] ^= 1;
    assert!(c.open_segment(b"ctx", 0, &bad).is_err());
    assert!(Crypto::new(&[8u8; 32])
        .open_segment(b"ctx", 0, &sealed)
        .is_err());
}

#[test]
fn sealed_len_math() {
    assert_eq!(Crypto::sealed_len(0), 0);
    assert_eq!(Crypto::sealed_len(1), 1 + 16);
    assert_eq!(Crypto::sealed_len(SEGMENT_SIZE), SEGMENT_SIZE + 16);
    assert_eq!(Crypto::sealed_len(SEGMENT_SIZE + 1), SEGMENT_SIZE + 1 + 32);
    assert_eq!(Crypto::sealed_segment_len(SEGMENT_SIZE), 1_048_592);
}

#[test]
fn segment_matches_the_cipher_crate() {
    let master = [7u8; 32];
    let key = blake3::derive_key("tgfs 2026 encryption key v1", &master);
    let nonce_key = blake3::derive_key("tgfs 2026 nonce key v1", &master);
    let mut input = b"ctx".to_vec();
    input.extend_from_slice(&3u64.to_le_bytes());
    let digest = blake3::keyed_hash(&nonce_key, &input);
    let expected = XChaCha20Poly1305::new((&key).into())
        .encrypt(XNonce::from_slice(&digest.as_bytes()[..24]), b"hello".as_slice())
        .unwrap();
    assert_eq!(crypto().seal_segment(b"ctx", 3, b"hello").unwrap(), expected);
}

#[test]
fn blob_roundtrip() {
    let c = crypto();
    let plain = pattern((2 * SEGMENT_SIZE + 100) as usize);
    let sealed = c.seal_blob(&[3u8; 32], &plain).unwrap();
    assert!(Crypto::is_sealed_blob(&sealed));
    assert!(!Crypto::is_sealed_blob(&plain));
    assert_eq!(c.open_blob(&sealed).unwrap(), plain);
}

#[test]
fn containers_are_framed_and_split() {
    let framed = frame_blob(&[2u8; 32], b"body");
    assert_eq!(&framed[..8], b"tgfsenc1");
    assert_eq!(split_blob(&framed), Ok((&[2u8; 32][..], &b"body"[..])));
    assert_eq!(split_blob(&framed[..39]), Err(CryptoError::TruncatedBlob));
    assert_eq!(split_blob(&framed[1..]), Err(CryptoError::NotEncryptedBlob));
    let mut digest = [0u8; 32];
    for (i, byte) in digest.iter_mut().enumerate() {
        *byte = i as u8;
    }
    assert_eq!(nonce_of(&digest), digest[..24]);
    assert!(same_key(&digest, &digest));
    assert!(!same_key(&digest, &[0u8; 32]));
}

#[test]
fn blob_layout_and_errors() {
    let c = crypto();
    let sealed = c.seal_blob(&[3u8; 32], b"abc").unwrap();
    assert_eq!(&sealed[..8], b"tgfsenc1");
    assert_eq!(&sealed[8..40], &[3u8; 32]);
    assert_eq!(sealed.len(), 40 + 3 + 16);
    assert_eq!(&sealed[40..], &c.seal_segment(&[3u8; 32], 0, b"abc").unwrap()[..]);
    assert_eq!(c.seal_blob(&[3u8; 32], b"").unwrap().len(), 40);
    assert_eq!(c.open_blob(&sealed[..40]).unwrap(), b"");
    assert_eq!(c.open_blob(b"plain"), Err(CryptoError::NotEncryptedBlob));
    assert_eq!(c.open_blob(b"tgfsenc1abc"), Err(CryptoError::TruncatedBlob));
    assert_eq!(c.open_blob(&sealed[..50]), Err(CryptoError::DecryptionFailed));
    assert_eq!(
        Crypto::new(&[8u8; 32]).open_blob(&sealed),
        Err(CryptoError::DecryptionFailed)
    );
    assert_eq!(
        CryptoError::TruncatedBlob.message(),
        "encrypted blob is truncated"
    );
    assert_eq!(CryptoError::EncryptionFailed.message(), "encryption failed");
}

fn sealed_stream(c: &Crypto, plain: &[u8]) -> Vec<u8> {
    let mut sealed = Vec::new();
    for (i, seg) in plain.chunks(SEGMENT_SIZE as usize).enumerate() {
        sealed.extend_from_slice(&c.seal_segment(b"ctx", i as u64, seg).unwrap());
    }
    sealed
}

#[test]
fn decrypting_writer_reassembles_arbitrary_chunking() {
    let c = crypto();
    let plain = pattern((SEGMENT_SIZE + 12345) as usize);
    let sealed = sealed_stream(&c, &plain);
    let mut out = Vec::new();
    let mut w = DecryptingWriter::new(&c, b"ctx", plain.len() as u64);
    for piece in sealed.chunks(100_000) {
        assert_eq!(w.write(piece, &mut out), Ok(piece.len()));
    }
    assert_eq!(out, plain);
}

#[test]
fn decrypting_writer_gives_segments_as_they_complete() {
    let c = crypto();
    let plain = pattern((2 * SEGMENT_SIZE) as usize);
    let sealed = sealed_stream(&c, &plain);
    let mut out = Vec::new();
    let mut w = DecryptingWriter::new(&c, b"ctx", plain.len() as u64);
    w.write(&sealed[..1_048_591], &mut out).unwrap();
    assert!(out.is_empty());
    w.write(&sealed[1_048_591..1_048_592], &mut out).unwrap();
    assert_eq!(out.len(), SEGMENT_SIZE as usize);
    w.write(&[], &mut out).unwrap();
    w.write(&sealed[1_048_592..], &mut out).unwrap();
    assert_eq!(out, plain);
    let mut bad = DecryptingWriter::new(&c, b"ctx", 5);
    assert_eq!(
        bad.write(&[0u8; 21], &mut out),
        Err(CryptoError::DecryptionFailed)
    );
    assert_eq!(out, plain);
}

#[test]
fn string_roundtrip() {
    let key = generate();
    let encoded = encode(&key);
    assert_eq!(decode(&encoded).unwrap(), key);
    assert!(decode("not base64!!").is_err());
    assert!(decode("c2hvcnQ=").is_err());
}

#[test]
fn key_text_is_standard_base64() {
    assert_eq!(
        encode(&[0u8; 32]),
        "AAAAAAAAAAAAAAAAAAAAAAAAAAAAAAAAAAAAAAAAAAA="
    );
    assert_eq!(
        encode(&[255u8; 32]),
        "//////////////////////////////////////////8="
    );
    assert_eq!(decode(" \t//////////////////////////////////////////8=\u{2003}\n"), Ok([255u8; 32]));
    assert_eq!(decode("not base64!!"), Err(KeyError::NotBase64));
    assert_eq!(decode("c2hvcnQ="), Err(KeyError::WrongLength));
    assert_eq!(decode(""), Err(KeyError::WrongLength));
    assert_eq!(key_of_bytes(None), Err(KeyError::NotBase64));
    assert_eq!(key_of_bytes(Some(vec![1; 31])), Err(KeyError::WrongLength));
    assert_eq!(key_of_bytes(Some(vec![1; 32])), Ok([1u8; 32]));
    assert_ne!(generate(), generate());
}

#[test]
fn verifier_matches_only_its_key() {
    let key = [3u8; 32];
    let key_verifier = verifier_text(&key);
    assert!(matches_verifier(&key, &key_verifier).unwrap());
    assert!(!matches_verifier(&[4u8; 32], &key_verifier).unwrap());
    assert_ne!(key_verifier, encode(&key));
    assert_eq!(
        key_verifier,
        encode(&blake3::derive_key("tgfs 2026 key verifier v1", &key))
    );
    assert_eq!(matches_verifier(&key, "?"), Err(KeyError::BadVerifier));
}

#[test]
fn key_arguments_are_loaded() {
    let none = KeyArgs { key: None, keyfile: None };
    assert_eq!(none.load(None), Ok(None));
    let direct = KeyArgs { key: Some(encode(&[9u8; 32])), keyfile: None };
    assert_eq!(direct.load(None), Ok(Some([9u8; 32])));
    let file = KeyArgs { key: None, keyfile: Some("k".to_string()) };
    let contents = keyfile_contents(&[5u8; 32]);
    assert!(contents.ends_with("=\n"));
    assert_eq!(file.load(Some(&contents)), Ok(Some([5u8; 32])));
    assert_eq!(file.load(Some("x")), Err(KeyError::NotBase64));
    assert_eq!(check_keyfile(true, 0o100600), Ok(()));
    assert_eq!(check_keyfile(true, 0o100640), Err(KeyError::TooOpen));
    assert_eq!(check_keyfile(true, 0o100601), Err(KeyError::TooOpen));
    assert_eq!(check_keyfile(false, 0o600), Err(KeyError::NotAFile));
    assert!(KeyError::TooOpen.message().contains("chmod 600"));
}

fn repo() -> Repo {
    Repo {
        root: "/data".to_string(),
        config: RepoConfig {
            channel_id: 1,
            channel_access_hash: 2,
            chunk_size: DEFAULT_CHUNK_SIZE,
            pack: PackConfig::default(),
            encrypted: false,
            key_verifier: None,
            exclude: default_excludes(),
        },
    }
}

#[test]
fn encryption_is_turned_on_once_and_then_checked() {
    let mut r = repo();
    assert_eq!(configure_repo_encryption(&mut r, None), Ok(false));
    assert!(!r.config.encrypted);
    assert_eq!(configure_repo_encryption(&mut r, Some(&[1u8; 32])), Ok(true));
    assert!(r.config.encrypted);
    assert_eq!(r.config.key_verifier, Some(verifier_text(&[1u8; 32])));
    assert_eq!(configure_repo_encryption(&mut r, Some(&[1u8; 32])), Ok(false));
    assert_eq!(
        configure_repo_encryption(&mut r, Some(&[2u8; 32])),
        Err(KeyError::Mismatch)
    );
    assert_eq!(configure_repo_encryption(&mut r, None), Err(KeyError::KeyRequired));
    let mut odd = repo();
    odd.config.key_verifier = Some("?".to_string());
    assert_eq!(
        configure_repo_encryption(&mut odd, Some(&[2u8; 32])),
        Err(KeyError::BadVerifier)
    );
    assert!(odd.config.encrypted);
}
