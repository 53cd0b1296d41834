use tgfs::crypto::{Crypto, DecryptingWriter, SEGMENT_SIZE};
use tgfs::diff::LocalFile;
use tgfs::file::{
    compare_hash, hash_file, human_size, journal_upload, pack_done, pack_hash, plan_fetch, plan_pack, prepare,
    resume_upload, ChunkDownload, FileDownload, FileError, FileUpload,
};
use tgfs::index::{ChunkEntry, FileEntry, Index};
use tgfs::source::{EncryptedChunkSource, PackError, PackMember, PackSource, PlainChunkSource};
use tgfs::telegram_transfer::{total_parts, MemorySource, PartSource, TransferError, PART_SIZE};

fn memory(bytes: &[u8]) -> MemorySource {
    MemorySource { bytes: bytes.to_vec() }
}

fn name(bytes: &[u8]) -> String {
    blake3::hash(bytes).to_hex().to_string()
}

fn member(hash: &str, size: u64, offset: u64, encrypted: bool) -> PackMember {
    PackMember::new(hash.to_string(), "p".to_string(), size, offset, encrypted)
}

#[test]
fn hash_file_chunking() {
    let (file_hash, chunks) = hash_file(&memory(b"0123456789"), 4).unwrap();
    assert_eq!(chunks.len(), 3);
    assert_eq!(file_hash, name(b"0123456789"));
    assert_eq!(chunks[0], name(b"0123"));
    assert_eq!(chunks[2], name(b"89"));

    let (_, chunks) = hash_file(&memory(b"01234567"), 4).unwrap();
    assert_eq!(chunks.len(), 2);

    let (file_hash, chunks) = hash_file(&memory(b""), 4).unwrap();
    assert!(chunks.is_empty());
    assert_eq!(file_hash, name(b""));

    let (file_hash, chunks) = hash_file(&memory(b"abc"), 0).unwrap();
    assert!(chunks.is_empty());
    assert_eq!(file_hash, name(b"abc"));
}

#[test]
fn hashing_reads_across_buffers() {
    let bytes: Vec<u8> = (0..2_500_000usize).map(|i| (i % 241) as u8).collect();
    let (file_hash, chunks) = hash_file(&memory(&bytes), 2_000_000).unwrap();
    assert_eq!(file_hash, name(&bytes));
    assert_eq!(chunks, vec![name(&bytes[..2_000_000]), name(&bytes[2_000_000..])]);
}

#[test]
fn encrypted_source_roundtrips_through_decrypting_writer() {
    let base = 1000u64;
    let plain_len = 2 * SEGMENT_SIZE + 4321;
    let content: Vec<u8> = (0..(base + plain_len) as usize).map(|i| (i % 251) as u8).collect();
    let crypto = Crypto::new(&[9u8; 32]);
    let source = EncryptedChunkSource {
        file: memory(&content),
        base,
        plain_len,
        crypto,
        context: "deadbeef".to_string(),
    };
    assert_eq!(source.len(), Crypto::sealed_len(plain_len));

    let mut sealed = vec![0u8; source.len() as usize];
    let piece = 512 * 1024 + 7;
    let mut offsets: Vec<usize> = (0..sealed.len()).step_by(piece).collect();
    offsets.reverse();
    for off in offsets {
        let end = (off + piece).min(sealed.len());
        source.read_at(off as u64, &mut sealed[off..end]).unwrap();
    }

    let mut out = Vec::new();
    let mut w = DecryptingWriter::new(&crypto, b"deadbeef", plain_len);
    w.write(&sealed, &mut out).unwrap();
    assert_eq!(out, &content[base as usize..]);
    let mut beyond = [0u8; 2];
    assert_eq!(
        source.read_at(source.len() - 1, &mut beyond),
        Err(TransferError::BeyondEnd)
    );
    assert_eq!(beyond, [0, 0]);
    assert_eq!(source.read_at(source.len() + 1, &mut []), Ok(()));
}

#[test]
fn plain_chunks_are_ranges_of_their_file() {
    let source = PlainChunkSource { file: memory(b"abcdefgh"), base: 2, len: 4 };
    assert_eq!(source.len(), 4);
    let mut buf = [0u8; 2];
    source.read_at(1, &mut buf).unwrap();
    assert_eq!(&buf, b"de");
    source.read_at(3, &mut buf).unwrap();
    assert_eq!(&buf, b"fg");
    assert_eq!(source.read_at(5, &mut buf), Err(TransferError::BeyondEnd));
    assert_eq!(source.read_at(u64::MAX - 1, &mut buf), Err(TransferError::RangeOverflow));
    assert_eq!(&buf, b"fg");
    let short = PlainChunkSource { file: memory(b"abc"), base: 2, len: 4 };
    assert!(short.read_at(0, &mut buf).is_err());
}

#[test]
fn plain_pack_source_reads_across_member_boundaries() {
    let members = vec![member("aa", 3, 0, false), member("bb", 5, 3, false)];
    let files = vec![memory(b"abc"), memory(b"defgh")];
    let source = PackSource::new(members.clone(), files, None).ok().unwrap();
    assert_eq!(source.len(), 8);

    let mut all = vec![0; 8];
    source.read_at(0, &mut all).unwrap();
    assert_eq!(all, b"abcdefgh");
    let mut crossing = vec![0; 4];
    source.read_at(2, &mut crossing).unwrap();
    assert_eq!(crossing, b"cdef");
    let mut kept = [5u8, 6];
    assert!(source.read_at(7, &mut kept).is_err());
    assert_eq!(kept, [5, 6]);
    assert_ne!(
        pack_hash(&members),
        pack_hash(&vec![members[1].clone(), members[0].clone()])
    );
    assert_eq!(pack_hash(&members), name(b"aabb"));
}

#[test]
fn encrypted_pack_members_match_standalone_ciphertext() {
    let first_bytes = vec![7u8; SEGMENT_SIZE as usize + 13];
    let second_bytes = vec![9u8; 12345];
    let crypto = Crypto::new(&[4u8; 32]);
    let first_len = Crypto::sealed_len(first_bytes.len() as u64);
    let members = vec![
        member("aa11", first_bytes.len() as u64, 0, true),
        member("bb22", second_bytes.len() as u64, first_len, true),
    ];
    let files = vec![memory(&first_bytes), memory(&second_bytes)];
    let pack = PackSource::new(members.clone(), files, Some(crypto)).ok().unwrap();
    let mut packed = vec![0; pack.len() as usize];
    pack.read_at(0, &mut packed).unwrap();

    let mut expected = Vec::new();
    for (member, bytes) in members.iter().zip([&first_bytes, &second_bytes]) {
        let source = EncryptedChunkSource {
            file: memory(bytes),
            base: 0,
            plain_len: member.size,
            crypto,
            context: member.hash.clone(),
        };
        let start = expected.len();
        expected.resize(start + source.len() as usize, 0);
        source.read_at(0, &mut expected[start..]).unwrap();
    }
    assert_eq!(packed, expected);
}

#[test]
fn packs_must_be_contiguous() {
    let make = |members: Vec<PackMember>| {
        let files = members.iter().map(|_| memory(b"")).collect();
        PackSource::new(members, files, None).map(|p| p.len())
    };
    assert_eq!(make(vec![]), Ok(0));
    assert_eq!(make(vec![member("a", 1, 1, false)]), Err(PackError::FirstOffset));
    let gap = vec![member("a", 1, 0, false), member("b", 1, 2, false)];
    assert_eq!(make(gap), Err(PackError::NotContiguous));
    let large = vec![member("a", 1, 0, false), member("b", 2, u64::MAX, false)];
    assert_eq!(make(large), Err(PackError::LengthOverflow));
    let empty = vec![member("a", 0, 0, false), member("b", 3, 0, false)];
    assert_eq!(make(empty), Ok(3));
    let index = Index::new();
    assert_eq!(plan_pack(&index, &vec![]).unwrap_err(), PackError::Empty);
    assert_eq!(PackError::Empty.message(), "refusing to upload an empty pack");
}

#[test]
fn human_size_formats() {
    assert_eq!(human_size(0), "0 B");
    assert_eq!(human_size(512), "512 B");
    assert_eq!(human_size(1024), "1.0 KiB");
    assert_eq!(human_size(1536), "1.5 KiB");
    assert_eq!(human_size(1048576), "1.0 MiB");
    assert_eq!(human_size(1073741824), "1.0 GiB");
    assert_eq!(human_size(1099511627776), "1.0 TiB");
}

fn float_size(bytes: u64) -> String {
    const UNITS: [&str; 5] = ["B", "KiB", "MiB", "GiB", "TiB"];
    let mut value = bytes as f64;
    let mut unit = 0;
    while value >= 1024.0 && unit < UNITS.len() - 1 {
        value /= 1024.0;
        unit += 1;
    }
    if unit == 0 {
        format!("{bytes} B")
    } else {
        format!("{value:.1} {}", UNITS[unit])
    }
}

#[test]
fn human_size_agrees_with_floating_point() {
    let mut values = vec![1280, 1331, 1741, 1023, 1025, 1048575, 1048064, 1047552, u64::MAX, u64::MAX - 1024];
    for shift in 0..64 {
        for delta in [0u64, 1, 511, 512, 513, 1023] {
            values.push((1u64 << shift).wrapping_add(delta));
            values.push((1u64 << shift).wrapping_sub(delta));
            values.push((1u64 << shift).wrapping_mul(5).wrapping_add(delta));
        }
    }
    let mut x = 12345u64;
    for _ in 0..20_000 {
        x = x.wrapping_mul(6364136223846793005).wrapping_add(1442695040888963407);
        values.push(x >> (x % 60));
        values.push(((x >> 20) % 4096) * 128 * (1 << (10 * (x % 4))));
    }
    for value in values {
        assert_eq!(human_size(value), float_size(value), "{value}");
    }
}

fn local(path: &str, size: u64) -> LocalFile {
    LocalFile { rel_path: path.to_string(), abs_path: format!("/r/{path}"), size, mtime: 7 }
}

#[test]
fn files_are_uploaded_chunk_by_chunk() {
    let bytes = b"0123456789".to_vec();
    let entry = prepare(&local("a/b", 10), &memory(&bytes), 4).unwrap();
    assert_eq!(entry.path, "a/b");
    assert_eq!(entry.mtime, 7);
    assert_eq!(entry.hash, name(&bytes));
    let mut index = Index::new();
    index.insert_chunk(&ChunkEntry {
        hash: name(b"4567"),
        size: 4,
        msg_id: 1,
        offset: 9,
        encrypted: false,
    });
    journal_upload(&mut index, &name(b"89"), 1, 55, 0);
    let mut upload = FileUpload::new(entry, 4, false);
    let first = upload.next_chunk(&index).unwrap();
    assert_eq!(first.hash, name(b"0123"));
    assert_eq!((first.seq, first.offset, first.len), (0, 0, 4));
    assert_eq!(first.name, format!("{}.bin", &name(b"0123")[..16]));
    assert_eq!(first.caption, "a/b [1/3]");
    assert_eq!(first.resume, None);
    upload.chunk_done(&mut index, 31);
    let last = upload.next_chunk(&index).unwrap();
    assert_eq!(last.caption, "a/b [3/3]");
    assert_eq!((last.seq, last.offset, last.len), (2, 8, 2));
    assert_eq!(last.resume, Some((55, 0)));
    upload.chunk_done(&mut index, 32);
    assert_eq!(index.journal_get(&name(b"89")), None);
    assert!(upload.next_chunk(&index).is_none());
    let done = upload.finish();
    assert_eq!(done.uploaded_bytes, 6);
    assert_eq!(index.chunk(&name(b"89")).unwrap().msg_id, 32);
    assert_eq!(index.upsert_file(&done.entry), Ok(()));
}

#[test]
fn sealed_chunks_have_sealed_sizes() {
    let bytes = vec![3u8; 100];
    let entry = prepare(&local("f", 100), &memory(&bytes), 1000).unwrap();
    let mut upload = FileUpload::new(entry, 1000, true);
    let chunk = upload.next_chunk(&Index::new()).unwrap();
    assert_eq!((chunk.len, chunk.stored_len, chunk.total_parts), (100, 116, 1));
}

#[test]
fn uploads_resume_only_with_as_many_parts() {
    assert_eq!(resume_upload(Some((5, 21, 3)), 21), Some((5, 3)));
    assert_eq!(resume_upload(Some((5, 21, 3)), 22), None);
    assert_eq!(resume_upload(None, 22), None);
    let mut index = Index::new();
    journal_upload(&mut index, "h", 21, 5, 0);
    journal_upload(&mut index, "h", 21, 5, 4);
    assert_eq!(index.journal_get("h"), Some((5, 21, 4)));
    journal_upload(&mut index, "other", 21, 5, 4);
    assert_eq!(index.journal_get("other"), None);
}

#[test]
fn packs_are_planned_and_recorded() {
    let mut index = Index::new();
    let members = vec![member("aa", 3, 0, false), member("bb", 5, 3, false)];
    let plan = plan_pack(&index, &members).unwrap();
    assert_eq!(plan.hash, name(b"aabb"));
    assert_eq!(plan.name, format!("pack-{}.bin", &name(b"aabb")[..16]));
    assert_eq!(plan.caption, "pack files=2 bytes=8");
    assert_eq!(plan.total_parts, 1);
    journal_upload(&mut index, &plan.hash, 1, 4, 0);
    assert_eq!(plan_pack(&index, &members).unwrap().resume, Some((4, 0)));
    assert_eq!(pack_done(&mut index, &members, &plan.hash, true, 99), 8);
    assert_eq!(index.journal_get(&plan.hash), None);
    let chunk = index.chunk("bb").unwrap();
    assert_eq!((chunk.size, chunk.msg_id, chunk.offset, chunk.encrypted), (5, 99, 3, true));
}

fn file_entry(hash: &str, chunks: Vec<String>) -> FileEntry {
    FileEntry {
        path: "f".to_string(),
        size: 5,
        mtime: 0,
        hash: hash.to_string(),
        deleted: false,
        chunks,
    }
}

/// Restores a file from the documents of its chunks, and hands out the numbers of the messages
/// in the order in which they were asked for.
fn restore(
    file: FileEntry,
    index: &Index,
    crypto: Option<&Crypto>,
    documents: &[(i32, Vec<u8>)],
) -> (Result<Vec<u8>, FileError>, Vec<i32>) {
    let mut asked = Vec::new();
    let mut out = Vec::new();
    let mut download = FileDownload::new(file);
    loop {
        let start = match download.next_chunk(index, crypto) {
            Ok(Some(start)) => start,
            Ok(None) => break,
            Err(error) => return (Err(error), asked),
        };
        asked.push(start.msg_id);
        let document = &documents.iter().find(|d| d.0 == start.msg_id).unwrap().1;
        let from = start.part as usize * PART_SIZE as usize;
        for piece in document[from..].chunks(PART_SIZE as usize) {
            if !download.wants_more() {
                break;
            }
            if let Err(error) = download.feed(piece, &mut out) {
                return (Err(error), asked);
            }
        }
        if let Err(error) = download.chunk_done() {
            return (Err(error), asked);
        }
    }
    (download.finish().map(|_| out), asked)
}

#[test]
fn packed_sealed_chunks_are_restored() {
    let crypto = Crypto::new(&[4u8; 32]);
    let first = vec![1u8; 600_000];
    let second: Vec<u8> = (0..1_200_000usize).map(|i| (i % 239) as u8).collect();
    let hash = name(&second);
    let offset = Crypto::sealed_len(first.len() as u64);
    let members = vec![
        member(&name(&first), first.len() as u64, 0, true),
        member(&hash, second.len() as u64, offset, true),
    ];
    let pack = PackSource::new(members.clone(), vec![memory(&first), memory(&second)], Some(crypto))
        .ok()
        .unwrap();
    let mut document = vec![0u8; pack.len() as usize];
    pack.read_at(0, &mut document).unwrap();

    let mut index = Index::new();
    pack_done(&mut index, &members, "p", true, 8);
    assert!(matches!(plan_fetch(&index, &hash, false), Err(FileError::KeyRequired)));
    let fetch = plan_fetch(&index, &hash, true).unwrap();
    assert_eq!((fetch.msg_id, fetch.offset), (8, offset));
    let (mut download, part) = ChunkDownload::new(fetch, Some(&crypto)).ok().unwrap();
    let mut restored = Vec::new();
    for piece in document[(part as u64 * PART_SIZE) as usize..].chunks(PART_SIZE as usize) {
        if !download.wants_more() {
            break;
        }
        download.feed(piece, &mut restored).unwrap();
    }
    download.finish().unwrap();
    assert_eq!(restored, second);

    let both = [first.clone(), second.clone(), first.clone()].concat();
    let chunks = vec![name(&first), hash.clone(), name(&first)];
    let documents = [(8, document)];
    let file = file_entry(&name(&both), chunks.clone());
    let (restored, asked) = restore(file, &index, Some(&crypto), &documents);
    assert!(restored.unwrap() == both);
    assert_eq!(asked, [8, 8, 8]);
    let (refused, asked) = restore(file_entry("x", chunks), &index, None, &documents);
    assert!(matches!(refused, Err(FileError::KeyRequired)));
    assert!(asked.is_empty());
}

#[test]
fn files_are_restored_in_the_order_of_their_chunks() {
    let mut index = Index::new();
    let mut chunk = |hash: &str, size: u64, msg_id: i32, offset: u64| {
        index.insert_chunk(&ChunkEntry {
            hash: hash.to_string(),
            size,
            msg_id,
            offset,
            encrypted: false,
        });
    };
    chunk("one", 3, 11, 0);
    chunk("two", 2, 12, 4);
    chunk("long", 9, 12, 0);
    chunk("far", 1, 12, u64::MAX);
    let documents = [(11, b"abc".to_vec()), (12, b"....de..".to_vec())];
    let list = |names: &[&str]| names.iter().map(|n| n.to_string()).collect::<Vec<_>>();

    let file = file_entry(&name(b"deabcde"), list(&["two", "one", "two"]));
    let (restored, asked) = restore(file, &index, None, &documents);
    assert_eq!(restored.unwrap(), b"deabcde");
    assert_eq!(asked, [12, 11, 12]);

    let (restored, asked) = restore(file_entry(&name(b""), vec![]), &index, None, &documents);
    assert_eq!(restored.unwrap(), b"");
    assert!(asked.is_empty());

    let (refused, _) = restore(file_entry("x", list(&["one"])), &index, None, &documents);
    match refused.unwrap_err() {
        FileError::HashMismatch { path, expected, actual } => {
            assert_eq!((path.as_str(), expected.as_str(), actual), ("f", "x", name(b"abc")))
        }
        other => panic!("{other:?}"),
    }
    let (refused, asked) = restore(file_entry("x", list(&["one", "gone"])), &index, None, &documents);
    assert_eq!(refused.unwrap_err().message(), "chunk gone missing from index");
    assert_eq!(asked, [11]);
    let (refused, _) = restore(file_entry("x", list(&["far"])), &index, None, &documents);
    assert!(matches!(refused, Err(FileError::Range)));
    let (refused, _) = restore(file_entry("x", list(&["long"])), &index, None, &documents);
    assert_eq!(
        refused.unwrap_err().message(),
        "chunk long: downloaded 8 bytes, expected 9"
    );
    assert_eq!(FileError::TooLarge.message(), "restored file is too large");
    assert!(compare_hash(&file_entry("a", vec![]), "a".to_string()).is_ok());
    assert!(compare_hash(&file_entry("a", vec![]), "b".to_string()).is_err());
}

/// The parts of a source in a row, each read on its own.
fn uploaded<S: PartSource>(source: &S) -> Vec<u8> {
    let parts = total_parts(source.len());
    (0..parts).flat_map(|part| source.read_part(part).unwrap()).collect()
}

#[test]
fn what_is_uploaded_in_parts_is_restored() {
    let crypto = Crypto::new(&[8u8; 32]);
    let data: Vec<u8> = (0..3_500_000usize).map(|i| (i % 233) as u8).collect();
    let chunk_size = 2_000_000;
    let (hash, names) = hash_file(&memory(&data), chunk_size as u64).unwrap();
    let pieces: Vec<&[u8]> = data.chunks(chunk_size).collect();
    let chunk = |i: usize, msg_id, offset, encrypted| ChunkEntry {
        hash: names[i].clone(),
        size: pieces[i].len() as u64,
        msg_id,
        offset,
        encrypted,
    };
    let plain = PlainChunkSource { file: memory(&data), base: 2_000_000, len: 1_500_000 };
    let sealed = EncryptedChunkSource {
        file: memory(&data),
        base: 0,
        plain_len: 2_000_000,
        crypto,
        context: names[0].clone(),
    };
    let other = vec![7u8; 700_000];
    let offset = Crypto::sealed_len(700_000);
    let members = vec![
        member(&name(&other), 700_000, 0, true),
        member(&names[1], 1_500_000, offset, true),
    ];
    let pack = PackSource::new(members, vec![memory(&other), memory(pieces[1])], Some(crypto))
        .ok()
        .unwrap();
    let documents = [(1, uploaded(&sealed)), (2, uploaded(&plain)), (3, uploaded(&pack))];
    let file = |index: &Index| {
        restore(file_entry(&hash, names.clone()), index, Some(&crypto), &documents).0.unwrap()
    };
    let mut index = Index::new();
    index.insert_chunk(&chunk(0, 1, 0, true));
    index.insert_chunk(&chunk(1, 2, 0, false));
    assert!(file(&index) == data);
    index.insert_chunk(&chunk(1, 3, offset, true));
    assert!(file(&index) == data);
}

#[test]
fn segments_before_a_damaged_one_are_restored() {
    let crypto = Crypto::new(&[8u8; 32]);
    let data = vec![5u8; SEGMENT_SIZE as usize + 10];
    let mut sealed = uploaded(&EncryptedChunkSource {
        file: memory(&data),
        base: 0,
        plain_len: data.len() as u64,
        crypto,
        context: "c".to_string(),
    });
    *sealed.last_mut().unwrap() ^= 1;
    let mut index = Index::new();
    index.insert_chunk(&ChunkEntry {
        hash: "c".to_string(),
        size: data.len() as u64,
        msg_id: 1,
        offset: 0,
        encrypted: true,
    });
    let mut download = FileDownload::new(file_entry("x", vec!["c".to_string()]));
    download.next_chunk(&index, Some(&crypto)).unwrap();
    let mut out = vec![9];
    assert!(matches!(download.feed(&sealed, &mut out), Err(FileError::Decrypt)));
    assert_eq!(out.len(), 1 + SEGMENT_SIZE as usize);
    assert_eq!((out[0], out[1]), (9, 5));
}

#[test]
fn restoring_reports_what_is_wrong() {
    let mut index = Index::new();
    assert_eq!(
        plan_fetch(&index, "zz", true).unwrap_err().message(),
        "chunk zz missing from index"
    );
    let mut chunk = ChunkEntry {
        hash: "cc".to_string(),
        size: 5,
        msg_id: 1,
        offset: 2,
        encrypted: false,
    };
    index.insert_chunk(&chunk);
    let (mut download, _) = ChunkDownload::new(plan_fetch(&index, "cc", false).unwrap(), None)
        .ok()
        .unwrap();
    let mut out = Vec::new();
    download.feed(b"abcde", &mut out).unwrap();
    assert_eq!(out, b"cde");
    assert_eq!(
        download.finish().unwrap_err().message(),
        "chunk cc: downloaded 3 bytes, expected 5"
    );
    chunk.encrypted = true;
    index.insert_chunk(&chunk);
    let crypto = Crypto::new(&[4u8; 32]);
    let fetch = plan_fetch(&index, "cc", true).unwrap();
    let (mut download, _) = ChunkDownload::new(fetch, Some(&crypto)).ok().unwrap();
    assert!(matches!(download.feed(&[0u8; 40], &mut out), Err(FileError::Decrypt)));
    chunk.encrypted = false;
    chunk.offset = u64::MAX;
    index.insert_chunk(&chunk);
    let fetch = plan_fetch(&index, "cc", true).unwrap();
    assert!(matches!(ChunkDownload::new(fetch, None), Err(FileError::Range)));
}
