//! Files: content hashing, chunk uploads, and verified restoration.
use vstd::prelude::*;
use vstd::utf8::encode_utf8;
use crate::bytes::append_bytes;
use crate::crypto::{
    absorbed, any_writes_read_back, feeds, followed, in_step, sealed_len_of, seals_stream,
    writing_takes_all, Crypto, CryptoKeys, DecryptingWriter, WriterState,
};
use crate::hashing::{
    content_name, digest_hex, hasher_finalize, hasher_input, hasher_key, hasher_new,
    hasher_update, hex_is_hash, is_hash,
};
use crate::diff::LocalFile;
use crate::index::{
    all_stored, chunk_views, texts, with_chunks, ChunkEntry, ChunkView, FileEntry,
    FileView, Index, IndexView, JournalView,
};
use crate::source::{
    check_members, members_fault, pack_holds_member, pack_len, plain_source_is_range,
    sealed_source_is_stream, stored_len, stored_len_of, EncryptedChunkSource, PackError,
    PackMember, PackSource, PlainChunkSource,
};
use crate::telegram_transfer::{
    joined, joined_front, parts_of_len, range_fed, range_fed_all, range_is_exact, total_parts,
    wrapped_i32, PartSource, RangeReader, RangeState, TransferError, PART_SIZE,
};
use crate::text::{
    chars_of, decimal, leading_u64, push_decimal, string_of, text_eq, two_numbers_are_read,
};

verus! {

/// Bytes that are hashed at a time.
pub const HASH_BUF_SIZE: u64 = 1_048_576;

/// The content hashes of some data cut into chunks of `chunk_size` bytes, the last of which may
/// be shorter.
pub open spec fn chunk_names(data: Seq<u8>, chunk_size: int) -> Seq<Seq<char>>
    decreases data.len(),
{
    if data.len() == 0 || chunk_size <= 0 {
        Seq::empty()
    } else if data.len() <= chunk_size {
        seq![content_name(data)]
    } else {
        seq![content_name(data.subrange(0, chunk_size))] + chunk_names(
            data.subrange(chunk_size, data.len() as int),
            chunk_size,
        )
    }
}

/// The chunk with a number of some data.
pub open spec fn chunk_of(data: Seq<u8>, chunk_size: int, i: int) -> Seq<u8> {
    data.subrange(
        i * chunk_size,
        if (i + 1) * chunk_size <= data.len() {
            (i + 1) * chunk_size
        } else {
            data.len() as int
        },
    )
}

/// Chunk `i` is the content hash of the bytes from `i * chunk_size` on, and the chunks cover the
/// data: there is one for each place where a chunk begins.
pub proof fn chunk_name_at(data: Seq<u8>, chunk_size: int, i: int)
    requires
        chunk_size > 0,
        0 <= i < chunk_names(data, chunk_size).len(),
    ensures
        0 <= i * chunk_size < data.len(),
        chunk_names(data, chunk_size)[i] == content_name(chunk_of(data, chunk_size, i)),
        i + 1 == chunk_names(data, chunk_size).len() <==> (i + 1) * chunk_size >= data.len(),
    decreases i,
{
    let names = chunk_names(data, chunk_size);
    if data.len() <= chunk_size {
        assert(i == 0);
        assert(chunk_of(data, chunk_size, 0) =~= data) by {
            assert(0 * chunk_size == 0);
            assert(1 * chunk_size == chunk_size);
        }
    } else {
        let rest = data.subrange(chunk_size, data.len() as int);
        assert(names.len() == 1 + chunk_names(rest, chunk_size).len());
        if i == 0 {
            assert(0 * chunk_size == 0);
            assert(1 * chunk_size == chunk_size);
            assert(chunk_of(data, chunk_size, 0) =~= data.subrange(0, chunk_size));
            assert(chunk_names(rest, chunk_size).len() > 0);
        } else {
            chunk_name_at(rest, chunk_size, i - 1);
            assert((i - 1) * chunk_size + chunk_size == i * chunk_size) by (nonlinear_arith);
            assert(i * chunk_size + chunk_size == (i + 1) * chunk_size) by (nonlinear_arith);
            assert(chunk_of(rest, chunk_size, i - 1) =~= chunk_of(data, chunk_size, i));
            assert(names[i] == chunk_names(rest, chunk_size)[i - 1]);
        }
    }
}

/// The hash with number `i` is that of the bytes of the data from `i` times the chunk size on, as
/// many as the chunk size or as there are; there are as many hashes as chunks, and one chunk more
/// begins just while the data lasts.
pub proof fn hashes_are_of_the_bytes(data: Seq<u8>, chunk_size: int, i: int)
    requires
        chunk_size > 0,
    ensures
        0 <= i < chunk_names(data, chunk_size).len() ==> {
            let end = if i * chunk_size + chunk_size <= data.len() {
                i * chunk_size + chunk_size
            } else {
                data.len() as int
            };
            &&& 0 <= i * chunk_size < end
            &&& chunk_names(data, chunk_size)[i] == content_name(
                data.subrange(i * chunk_size, end),
            )
        },
        chunk_names(data, chunk_size).len() * chunk_size >= data.len(),
        data.len() == 0 <==> chunk_names(data, chunk_size).len() == 0,
        data.len() > 0 ==> (chunk_names(data, chunk_size).len() - 1) * chunk_size < data.len(),
{
    let n = chunk_names(data, chunk_size).len() as int;
    if 0 <= i < n {
        chunk_name_at(data, chunk_size, i);
        assert((i + 1) * chunk_size == i * chunk_size + chunk_size) by (nonlinear_arith);
    }
    if n > 0 {
        chunk_name_at(data, chunk_size, n - 1);
        assert(n * chunk_size == (n - 1 + 1) * chunk_size);
    } else {
        assert(0 * chunk_size == 0);
    }
}

/// The first chunks of some data in a row.
pub open spec fn first_chunks(data: Seq<u8>, chunk_size: int, n: int) -> Seq<u8>
    decreases n,
{
    if n <= 0 {
        Seq::empty()
    } else {
        first_chunks(data, chunk_size, n - 1) + chunk_of(data, chunk_size, n - 1)
    }
}

/// The first chunks of some data are its front.
proof fn first_chunks_are_front(data: Seq<u8>, chunk_size: int, n: int)
    requires
        chunk_size > 0,
        0 <= n <= chunk_names(data, chunk_size).len(),
    ensures
        0 <= n * chunk_size,
        first_chunks(data, chunk_size, n) == data.subrange(
            0,
            if n * chunk_size <= data.len() {
                n * chunk_size
            } else {
                data.len() as int
            },
        ),
    decreases n,
{
    if n == 0 {
        assert(0 * chunk_size == 0);
        assert(first_chunks(data, chunk_size, n) =~= data.subrange(0, 0));
    } else {
        first_chunks_are_front(data, chunk_size, n - 1);
        chunk_name_at(data, chunk_size, n - 1);
        assert((n - 1) * chunk_size + chunk_size == n * chunk_size) by (nonlinear_arith);
        let end = if n * chunk_size <= data.len() { n * chunk_size } else { data.len() as int };
        assert(data.subrange(0, (n - 1) * chunk_size) + chunk_of(data, chunk_size, n - 1)
            =~= data.subrange(0, end));
    }
}

/// The chunks of a file, in order, make up the file.
pub proof fn chunks_make_up_file(data: Seq<u8>, chunk_size: int)
    requires
        chunk_size > 0,
    ensures
        first_chunks(data, chunk_size, chunk_names(data, chunk_size).len() as int) == data,
{
    let n = chunk_names(data, chunk_size).len() as int;
    first_chunks_are_front(data, chunk_size, n);
    if n > 0 {
        chunk_name_at(data, chunk_size, n - 1);
    } else {
        assert(data.len() == 0);
        assert(0 * chunk_size == 0);
    }
    assert(data.subrange(0, data.len() as int) =~= data);
}

/// Hashes the bytes of one chunk, which begins at `start`, with both hashers.
fn hash_chunk<S: PartSource>(
    source: &S,
    start: u64,
    end: u64,
    file_hasher: &mut blake3::Hasher,
) -> (r: Result<String, TransferError>)
    requires
        source.valid(),
        start <= end <= source.content().len(),
        hasher_input(*old(file_hasher)) == source.content().subrange(0, start as int),
        hasher_key(*old(file_hasher)) is None,
        source.content().len() <= u64::MAX,
    ensures
        hasher_key(*final(file_hasher)) is None,
        r is Ok ==> {
            &&& hasher_input(*final(file_hasher)) == source.content().subrange(0, end as int)
            &&& r->Ok_0@ == content_name(source.content().subrange(start as int, end as int))
            &&& is_hash(r->Ok_0@)
        },
        source.dependable() ==> r is Ok,
{
    let ghost data = source.content();
    let mut chunk_hasher = hasher_new();
    let mut at: u64 = start;
    assert(data.subrange(start as int, start as int) =~= Seq::<u8>::empty());
    while at < end
        invariant
            source.valid(),
            data == source.content(),
            data.len() <= u64::MAX,
            start <= at <= end <= data.len(),
            hasher_input(chunk_hasher) == data.subrange(start as int, at as int),
            hasher_key(chunk_hasher) is None,
            hasher_input(*file_hasher) == data.subrange(0, at as int),
            hasher_key(*file_hasher) is None,
        decreases end - at,
    {
        let want: usize = if end - at < HASH_BUF_SIZE {
            (end - at) as usize
        } else {
            HASH_BUF_SIZE as usize
        };
        let mut buf: Vec<u8> = vec![0u8; want];
        match source.read_at(at, buf.as_mut_slice()) {
            Ok(()) => {},
            Err(error) => {
                return Err(error);
            },
        }
        hasher_update(&mut chunk_hasher, buf.as_slice());
        hasher_update(file_hasher, buf.as_slice());
        proof {
            assert(data.subrange(start as int, at as int) + buf@ =~= data.subrange(
                start as int,
                at + want,
            ));
            assert(data.subrange(0, at as int) + buf@ =~= data.subrange(0, at + want));
        }
        at += want as u64;
    }
    let digest = hasher_finalize(&chunk_hasher);
    proof {
        hex_is_hash(digest@);
    }
    Ok(digest_hex(&digest))
}

/// Hashes the bytes of a source. Returns the hash of all of them and the hash of each chunk. There
/// are no chunks of no bytes.
pub fn hash_file<S: PartSource>(source: &S, chunk_size: u64) -> (r: Result<
    (String, Vec<String>),
    TransferError,
>)
    requires
        source.valid(),
    ensures
        r is Ok ==> {
            let (hash, chunks) = r->Ok_0;
            &&& hash@ == content_name(source.content())
            &&& texts(chunks@) == chunk_names(source.content(), chunk_size as int)
            &&& is_hash(hash@)
            &&& forall|i: int| 0 <= i < chunks@.len() ==> is_hash((#[trigger] chunks@[i])@)
        },
        source.dependable() ==> r is Ok,
{
    let ghost data = source.content();
    let total: u64 = source.len();
    let mut file_hasher = hasher_new();
    let mut names: Vec<String> = Vec::new();
    let mut at: u64 = 0;
    proof {
        assert(data.subrange(0, 0) =~= Seq::<u8>::empty());
        assert(data.subrange(0, data.len() as int) =~= data);
        assert(texts(names@) + chunk_names(data, chunk_size as int) =~= chunk_names(
            data,
            chunk_size as int,
        ));
    }
    if chunk_size == 0 {
        match hash_chunk(source, 0, total, &mut file_hasher) {
            Ok(hash) => {
                assert(texts(names@) =~= chunk_names(data, 0));
                return Ok((hash, names));
            },
            Err(error) => {
                return Err(error);
            },
        }
    }
    while at < total
        invariant
            source.valid(),
            data == source.content(),
            total == data.len(),
            at <= total,
            chunk_size > 0,
            hasher_input(file_hasher) == data.subrange(0, at as int),
            hasher_key(file_hasher) is None,
            texts(names@) + chunk_names(
                data.subrange(at as int, total as int),
                chunk_size as int,
            ) == chunk_names(data, chunk_size as int),
            forall|i: int| 0 <= i < names@.len() ==> is_hash((#[trigger] names@[i])@),
        decreases total - at,
    {
        let end: u64 = if total - at <= chunk_size { total } else { at + chunk_size };
        let ghost rest = data.subrange(at as int, total as int);
        let ghost before = texts(names@);
        match hash_chunk(source, at, end, &mut file_hasher) {
            Ok(name) => {
                names.push(name);
            },
            Err(error) => {
                return Err(error);
            },
        }
        proof {
            assert(rest.subrange(0, end - at) =~= data.subrange(at as int, end as int));
            assert(rest.subrange(end - at, rest.len() as int) =~= data.subrange(
                end as int,
                total as int,
            ));
            assert(rest.subrange(0, rest.len() as int) =~= rest);
            assert(texts(names@) =~= before.push(names@.last()@));
            assert(texts(names@) + chunk_names(
                data.subrange(end as int, total as int),
                chunk_size as int,
            ) =~= before + chunk_names(rest, chunk_size as int));
        }
        at = end;
    }
    let digest = hasher_finalize(&file_hasher);
    proof {
        hex_is_hash(digest@);
        assert(data.subrange(0, at as int) =~= data);
        assert(texts(names@) =~= chunk_names(data, chunk_size as int));
    }
    Ok((digest_hex(&digest), names))
}

/// What the index records of a file, given its hashes.
pub open spec fn entry_of(file: LocalFile, hash: Seq<char>, chunks: Seq<Seq<char>>) -> FileView {
    FileView {
        path: file.rel_path@,
        size: file.size,
        mtime: file.mtime,
        hash,
        deleted: false,
        chunks,
    }
}

/// Hashes a file and builds the record that refers to its chunks.
pub fn prepare<S: PartSource>(file: &LocalFile, source: &S, chunk_size: u64) -> (r: Result<
    FileEntry,
    TransferError,
>)
    requires
        source.valid(),
    ensures
        r is Ok ==> {
            &&& r->Ok_0@ == entry_of(
                *file,
                content_name(source.content()),
                chunk_names(source.content(), chunk_size as int),
            )
            &&& forall|i: int|
                0 <= i < r->Ok_0.chunks@.len() ==> is_hash((#[trigger] r->Ok_0.chunks@[i])@)
        },
        source.dependable() ==> r is Ok,
{
    match hash_file(source, chunk_size) {
        Ok((hash, chunks)) => Ok(
            FileEntry {
                path: file.rel_path.clone(),
                size: file.size,
                mtime: file.mtime,
                hash,
                deleted: false,
                chunks,
            },
        ),
        Err(error) => Err(error),
    }
}

/// The part of a hash that goes into the name of a document.
pub open spec fn short_name(hash: Seq<char>) -> Seq<char> {
    hash.subrange(0, 16)
}

/// The first sixteen characters of a hash.
fn short(hash: &str) -> (r: String)
    requires
        is_hash(hash@),
    ensures
        r@ == short_name(hash@),
{
    let chars = chars_of(hash);
    string_of(&chars, 0, 16)
}

/// What is left of an interrupted upload: its number and the parts done, if it was an upload of
/// as many parts.
pub open spec fn resume_point(entry: Option<(i64, i32, i32)>, parts: i32) -> Option<(i64, i32)> {
    match entry {
        Some((file_id, total, done)) => if total == parts {
            Some((file_id, done))
        } else {
            None
        },
        None => None,
    }
}

/// An upload goes on just where the journal left it: it is picked up if and only if the journal has
/// the name with as many parts, under the number that the journal has, and at the first part that
/// is not journaled as done.
pub proof fn resumed_where_the_journal_is(
    journal: Map<Seq<char>, JournalView>,
    name: Seq<char>,
    parts: i32,
)
    ensures
        ({
            let resume = resume_point(journal_entry(journal, name), parts);
            &&& resume is Some <==> journal.dom().contains(name) && journal[name].total_parts
                == parts
            &&& resume is Some ==> (resume->0).0 == journal[name].file_id && (resume->0).1
                == journal[name].done_parts
        }),
{
}

/// What was journaled of an upload is where it goes on: for any number of done parts, the upload is
/// picked up under its number with exactly these done, and with no other number of parts at all.
/// The journal of other uploads is left alone.
pub proof fn journaled_upload_resumes(
    journal: Map<Seq<char>, JournalView>,
    name: Seq<char>,
    parts: i32,
    file_id: i64,
    done: i32,
)
    ensures
        ({
            let begun = journaled(journal, name, parts, file_id, 0);
            let noted = journaled(begun, name, parts, file_id, done);
            &&& resume_point(journal_entry(noted, name), parts) == Some((file_id, done))
            &&& forall|other: i32|
                other != parts ==> #[trigger] resume_point(journal_entry(noted, name), other)
                    is None
            &&& forall|other: Seq<char>|
                other != name ==> #[trigger] journal_entry(noted, other) == journal_entry(
                    journal,
                    other,
                )
            &&& noted[name].hash == name
        }),
{
}

/// Picks up an interrupted upload, unless its number of parts was another one.
pub fn resume_upload(entry: Option<(i64, i32, i32)>, parts: i32) -> (r: Option<(i64, i32)>)
    ensures
        r == resume_point(entry, parts),
        r is Some <==> entry is Some && (entry->0).1 == parts,
        r is Some ==> (r->0).0 == (entry->0).0 && (r->0).1 == (entry->0).2,
{
    match entry {
        Some((file_id, total, done)) => {
            if total == parts {
                Some((file_id, done))
            } else {
                None
            }
        },
        None => None,
    }
}

/// What the journal holds for a name.
pub open spec fn journal_entry(
    journal: Map<Seq<char>, JournalView>,
    name: Seq<char>,
) -> Option<(i64, i32, i32)> {
    if journal.dom().contains(name) {
        Some((journal[name].file_id, journal[name].total_parts, journal[name].done_parts))
    } else {
        None
    }
}

/// The journal once an upload begins, or has some of its parts done.
pub open spec fn journaled(
    journal: Map<Seq<char>, JournalView>,
    name: Seq<char>,
    parts: i32,
    file_id: i64,
    done: i32,
) -> Map<Seq<char>, JournalView> {
    if done == 0 {
        journal.insert(
            name,
            JournalView { hash: name, file_id, total_parts: parts, done_parts: 0 },
        )
    } else if journal.dom().contains(name) {
        journal.insert(name, JournalView { hash: name, done_parts: done, ..journal[name] })
    } else {
        journal
    }
}

/// Keeps the journal of an upload: its start, or how many parts are done.
pub fn journal_upload(index: &mut Index, name: &str, parts: i32, file_id: i64, done: i32)
    requires
        old(index).wf(),
    ensures
        final(index).wf(),
        final(index)@ == (IndexView {
            journal: journaled(old(index)@.journal, name@, parts, file_id, done),
            ..old(index)@
        }),
        done == 0 || old(index)@.journal.dom().contains(name@)
            ==> final(index)@.journal.dom().contains(name@)
            && final(index)@.journal[name@].done_parts == done,
        done == 0 ==> final(index)@.journal[name@].file_id == file_id
            && final(index)@.journal[name@].total_parts == parts,
{
    if done == 0 {
        index.journal_start(name, file_id, parts);
    } else {
        index.journal_progress(name, done);
    }
}

/// A chunk that is to be uploaded as a document of its own.
#[derive(Debug)]
pub struct ChunkUpload {
    /// Number of the chunk within its file.
    pub seq: usize,
    pub hash: String,
    /// Where the chunk begins within its file.
    pub offset: u64,
    /// Plaintext length.
    pub len: u64,
    /// Length of the document.
    pub stored_len: u64,
    pub total_parts: i32,
    /// Where an interrupted upload goes on.
    pub resume: Option<(i64, i32)>,
    pub name: String,
    pub caption: String,
}

/// A file whose missing chunks have been uploaded.
#[derive(Debug)]
pub struct UploadedFile {
    pub entry: FileEntry,
    pub uploaded_bytes: u64,
}

/// How far the upload of a file is.
pub ghost struct FileUploadView {
    pub entry: FileView,
    pub chunk_size: int,
    pub encrypted: bool,
    /// Chunks up to this one are stored.
    pub next: int,
    pub uploaded_bytes: int,
}

/// Where the chunk with a number begins.
pub open spec fn chunk_offset(chunk_size: int, seq: int) -> int {
    seq * chunk_size
}

/// Length of the chunk with a number.
pub open spec fn chunk_len(size: int, chunk_size: int, seq: int) -> int {
    if size - seq * chunk_size < chunk_size {
        size - seq * chunk_size
    } else {
        chunk_size
    }
}

impl FileUploadView {
    /// What always holds: the chunks fit the size of the file.
    pub open spec fn wf(self) -> bool {
        let n = self.entry.chunks.len() as int;
        &&& 0 <= self.next <= n
        &&& 0 <= self.chunk_size
        &&& n > 0 ==> (n - 1) * self.chunk_size < self.entry.size
        &&& n > 1 ==> (n - 1) * self.chunk_size <= u64::MAX
        &&& stored_len_of(self.entry.size as int, self.encrypted) <= u64::MAX
        &&& 0 <= self.uploaded_bytes <= self.entry.size
        &&& self.uploaded_bytes <= self.next * self.chunk_size
        &&& forall|i: int| 0 <= i < n ==> is_hash(#[trigger] self.entry.chunks[i])
    }

    /// Whether the chunks before the next one are stored.
    pub open spec fn stored_so_far(self, index: IndexView) -> bool {
        forall|i: int|
            0 <= i < self.next ==> index.chunks.dom().contains(#[trigger] self.entry.chunks[i])
    }

    /// What the index records of the next chunk, uploaded with a message as a document of its own.
    pub open spec fn next_record(self, msg_id: i32) -> ChunkView {
        ChunkView {
            hash: self.entry.chunks[self.next],
            size: self.next_len() as u64,
            msg_id,
            offset: 0,
            encrypted: self.encrypted,
        }
    }

    /// Length of the next chunk.
    pub open spec fn next_len(self) -> int {
        chunk_len(self.entry.size as int, self.chunk_size, self.next)
    }

    /// How far the upload is once the next chunk is stored.
    pub open spec fn after_chunk(self) -> FileUploadView {
        FileUploadView {
            next: self.next + 1,
            uploaded_bytes: self.uploaded_bytes + self.next_len(),
            ..self
        }
    }
}

/// A chunk is cut out of its file where its hash was taken: for any data, the bytes from the
/// chunk's offset on, as many as its length, lie in the data and have the hash with the chunk's
/// number.
pub proof fn chunk_is_cut_where_it_was_hashed(data: Seq<u8>, chunk_size: int, seq: int)
    requires
        chunk_size > 0,
        0 <= seq < chunk_names(data, chunk_size).len(),
    ensures
        ({
            let offset = chunk_offset(chunk_size, seq);
            let len = chunk_len(data.len() as int, chunk_size, seq);
            &&& 0 <= offset
            &&& 0 < len <= chunk_size
            &&& offset + len <= data.len()
            &&& content_name(data.subrange(offset, offset + len)) == chunk_names(
                data,
                chunk_size,
            )[seq]
        }),
{
    chunk_name_at(data, chunk_size, seq);
    assert((seq + 1) * chunk_size == seq * chunk_size + chunk_size) by (nonlinear_arith);
    let offset = chunk_offset(chunk_size, seq);
    let len = chunk_len(data.len() as int, chunk_size, seq);
    assert(data.subrange(offset, offset + len) =~= chunk_of(data, chunk_size, seq));
}

/// The chunks of a file lie one behind the other: the first begins the file, each begins where the
/// one before it ends, and the last ends with the file.
pub proof fn chunks_tile_the_file(data: Seq<u8>, chunk_size: int, seq: int)
    requires
        chunk_size > 0,
        0 <= seq < chunk_names(data, chunk_size).len(),
    ensures
        seq == 0 ==> chunk_offset(chunk_size, seq) == 0,
        seq > 0 ==> chunk_offset(chunk_size, seq) == chunk_offset(chunk_size, seq - 1) + chunk_len(
            data.len() as int,
            chunk_size,
            seq - 1,
        ),
        seq == chunk_names(data, chunk_size).len() - 1 ==> chunk_offset(chunk_size, seq)
            + chunk_len(data.len() as int, chunk_size, seq) == data.len(),
{
    chunk_name_at(data, chunk_size, seq);
    assert((seq + 1) * chunk_size == seq * chunk_size + chunk_size) by (nonlinear_arith);
    assert((seq - 1) * chunk_size + chunk_size == seq * chunk_size) by (nonlinear_arith);
    assert(0 * chunk_size == 0);
}

/// The chunk that is uploaded next is the first that is not stored: all before it are.
pub proof fn first_missing_is_first(
    chunks: Seq<Seq<char>>,
    stored: Map<Seq<char>, ChunkView>,
    from: int,
)
    requires
        0 <= from <= chunks.len(),
    ensures
        from <= first_missing(chunks, stored, from) <= chunks.len(),
        forall|i: int|
            from <= i < first_missing(chunks, stored, from) ==> stored.dom().contains(
                #[trigger] chunks[i],
            ),
        first_missing(chunks, stored, from) < chunks.len() ==> !stored.dom().contains(
            chunks[first_missing(chunks, stored, from)],
        ),
    decreases chunks.len() - from,
{
    if from < chunks.len() && stored.dom().contains(chunks[from]) {
        first_missing_is_first(chunks, stored, from + 1);
    }
}

/// Whether the record of a file is that of some data, hashed in chunks of the same size.
pub open spec fn is_hashed(upload: FileUploadView, data: Seq<u8>) -> bool {
    &&& upload.chunk_size > 0
    &&& upload.entry.size == data.len()
    &&& upload.entry.chunks == chunk_names(data, upload.chunk_size)
}

/// What the index records of an uploaded chunk leads to its bytes: where the document is what a
/// source over the file gives for the chunk, sealed or plain, the document stores the bytes that
/// the chunk's hash was taken of, under that hash and message.
pub proof fn uploaded_chunk_is_stored(
    upload: FileUploadView,
    data: Seq<u8>,
    keys: Option<CryptoKeys>,
    document: Seq<u8>,
    msg_id: i32,
)
    requires
        upload.wf(),
        is_hashed(upload, data),
        upload.next < upload.entry.chunks.len(),
        ({
            let offset = chunk_offset(upload.chunk_size, upload.next);
            let bytes = data.subrange(offset, offset + upload.next_len());
            if upload.encrypted {
                keys is Some && document.len() == sealed_len_of(bytes.len() as int) && seals_stream(
                    keys->0,
                    encode_utf8(upload.entry.chunks[upload.next]),
                    bytes,
                    document,
                )
            } else {
                document == bytes
            }
        }),
    ensures
        ({
            let record = upload.next_record(msg_id);
            let bytes = chunk_of(data, upload.chunk_size, upload.next);
            &&& is_stored(record, keys, document, bytes)
            &&& content_name(bytes) == record.hash
            &&& record.hash == upload.entry.chunks[upload.next]
            &&& record.msg_id == msg_id
            &&& record.encrypted == upload.encrypted
        }),
{
    let offset = chunk_offset(upload.chunk_size, upload.next);
    let bytes = data.subrange(offset, offset + upload.next_len());
    chunk_is_cut_where_it_was_hashed(data, upload.chunk_size, upload.next);
    chunk_name_at(data, upload.chunk_size, upload.next);
    assert((upload.next + 1) * upload.chunk_size == upload.next * upload.chunk_size
        + upload.chunk_size) by (nonlinear_arith);
    assert(bytes =~= chunk_of(data, upload.chunk_size, upload.next));
    assert(document.subrange(0, document.len() as int) =~= document);
}

/// The first chunk from `from` on that is not stored.
pub open spec fn first_missing(
    chunks: Seq<Seq<char>>,
    stored: Map<Seq<char>, ChunkView>,
    from: int,
) -> int
    decreases chunks.len() - from,
{
    if from < chunks.len() && stored.dom().contains(chunks[from]) {
        first_missing(chunks, stored, from + 1)
    } else {
        from
    }
}

/// The upload of a file, chunk by chunk.
pub struct FileUpload {
    entry: FileEntry,
    chunk_size: u64,
    encrypted: bool,
    next: usize,
    uploaded_bytes: u64,
}

impl View for FileUpload {
    type V = FileUploadView;

    closed spec fn view(&self) -> FileUploadView {
        FileUploadView {
            entry: self.entry@,
            chunk_size: self.chunk_size as int,
            encrypted: self.encrypted,
            next: self.next as int,
            uploaded_bytes: self.uploaded_bytes as int,
        }
    }
}

/// Whether a number of chunks of a size fits a file's size.
pub open spec fn chunks_fit(size: int, chunk_size: int, chunks: int) -> bool {
    chunks > 0 ==> (chunks - 1) * chunk_size < size
}

/// A file that was hashed whole has as many chunks as fit its size.
pub proof fn hashed_chunks_fit(data: Seq<u8>, chunk_size: int)
    requires
        chunk_size >= 0,
    ensures
        chunks_fit(data.len() as int, chunk_size, chunk_names(data, chunk_size).len() as int),
{
    let n = chunk_names(data, chunk_size).len() as int;
    if n > 0 {
        chunk_name_at(data, chunk_size, n - 1);
    }
}

/// Multiplying by a number that is not negative keeps the order.
proof fn product_ascends(a: int, b: int, c: int)
    requires
        a <= b,
        0 <= c,
    ensures
        a * c <= b * c,
{
    assert(a * c <= b * c) by (nonlinear_arith)
        requires
            a <= b,
            0 <= c,
    ;
}

/// The sealed form of fewer bytes is not longer.
proof fn stored_len_ascends(a: int, b: int, encrypted: bool)
    requires
        0 <= a <= b,
    ensures
        stored_len_of(a, encrypted) <= stored_len_of(b, encrypted),
{
}

impl FileUpload {
    /// Begins the upload of a file whose record names its chunks.
    pub fn new(entry: FileEntry, chunk_size: u64, encrypted: bool) -> (r: Self)
        requires
            chunks_fit(entry.size as int, chunk_size as int, entry.chunks@.len() as int),
            stored_len_of(entry.size as int, encrypted) <= u64::MAX,
            forall|i: int| 0 <= i < entry.chunks@.len() ==> is_hash((#[trigger] entry.chunks@[i])@),
        ensures
            r@ == (FileUploadView {
                entry: entry@,
                chunk_size: chunk_size as int,
                encrypted,
                next: 0,
                uploaded_bytes: 0,
            }),
            r@.wf(),
    {
        let r = FileUpload { entry, chunk_size, encrypted, next: 0, uploaded_bytes: 0 };
        assert forall|i: int| 0 <= i < r@.entry.chunks.len() implies is_hash(
            #[trigger] r@.entry.chunks[i],
        ) by {
            assert(r@.entry.chunks[i] == entry.chunks@[i]@);
        }
        r
    }

    /// The next chunk to upload: the first one that is not stored. An interrupted upload of it
    /// goes on where it stopped. `None` once every chunk is stored.
    pub fn next_chunk(&mut self, index: &Index) -> (r: Option<ChunkUpload>)
        requires
            old(self)@.wf(),
            old(self)@.stored_so_far(index@),
            index.wf(),
        ensures
            final(self)@.wf(),
            final(self)@ == (FileUploadView {
                next: first_missing(old(self)@.entry.chunks, index@.chunks, old(self)@.next),
                ..old(self)@
            }),
            final(self)@.stored_so_far(index@),
            r is None <==> final(self)@.next == final(self)@.entry.chunks.len(),
            r is None <==> all_stored(index@.chunks, final(self)@.entry.chunks),
            r is Some ==> {
                let u = r->0;
                let now = final(self)@;
                let parts = wrapped_i32(
                    parts_of_len(stored_len_of(now.next_len(), now.encrypted)),
                ) as i32;
                &&& u.seq == now.next
                &&& u.hash@ == now.entry.chunks[now.next]
                &&& u.offset == chunk_offset(now.chunk_size, now.next)
                &&& u.len == now.next_len()
                &&& u.stored_len == stored_len_of(now.next_len(), now.encrypted)
                &&& u.total_parts == parts
                &&& u.resume == resume_point(journal_entry(index@.journal, u.hash@), parts)
                &&& u.name@ == short_name(u.hash@) + ".bin"@
                &&& u.caption@ == now.entry.path + " ["@ + decimal((now.next + 1) as nat) + "/"@
                    + decimal(now.entry.chunks.len()) + "]"@
            },
            r is Some ==> !index@.chunks.dom().contains(r->0.hash@),
            r is Some ==> forall|data: Seq<u8>| #[trigger]
                is_hashed(old(self)@, data) ==> {
                    let u = r->0;
                    &&& u.offset + u.len <= data.len()
                    &&& u.len > 0
                    &&& content_name(data.subrange(u.offset as int, u.offset + u.len)) == u.hash@
                },
    {
        let ghost chunks = self@.entry.chunks;
        let total: usize = self.entry.chunks.len();
        while self.next < total && index.chunk(self.entry.chunks[self.next].as_str()).is_some()
            invariant
                self@.wf(),
                index.wf(),
                total == chunks.len(),
                chunks == self@.entry.chunks,
                self@.entry == old(self)@.entry,
                self@.chunk_size == old(self)@.chunk_size,
                self@.encrypted == old(self)@.encrypted,
                self@.uploaded_bytes == old(self)@.uploaded_bytes,
                self@.stored_so_far(index@),
                first_missing(chunks, index@.chunks, self@.next) == first_missing(
                    chunks,
                    index@.chunks,
                    old(self)@.next,
                ),
            decreases total - self.next,
        {
            assert(chunks[self.next as int] == self.entry.chunks@[self.next as int]@);
            proof {
                product_ascends(self.next as int, self.next + 1, self.chunk_size as int);
            }
            self.next = self.next + 1;
        }
        if self.next >= total {
            return None;
        }
        let seq: usize = self.next;
        assert(chunks[seq as int] == self.entry.chunks@[seq as int]@);
        proof {
            product_ascends(seq as int, total - 1, self.chunk_size as int);
        }
        let hash = self.entry.chunks[seq].clone();
        let offset: u64 = seq as u64 * self.chunk_size;
        let left: u64 = self.entry.size - offset;
        let len: u64 = if left < self.chunk_size { left } else { self.chunk_size };
        proof {
            stored_len_ascends(len as int, self.entry.size as int, self.encrypted);
        }
        let stored: u64 = stored_len(len, self.encrypted);
        proof {
            assert forall|data: Seq<u8>| #[trigger] is_hashed(old(self)@, data) implies ({
                &&& offset + len <= data.len()
                &&& len > 0
                &&& content_name(data.subrange(offset as int, offset + len)) == hash@
            }) by {
                chunk_is_cut_where_it_was_hashed(data, self.chunk_size as int, seq as int);
            }
        }
        let parts: i32 = total_parts(stored);
        let resume = resume_upload(index.journal_get(hash.as_str()), parts);
        let mut name = short(hash.as_str());
        name.append(".bin");
        let mut caption = self.entry.path.clone();
        caption.append(" [");
        push_decimal(&mut caption, seq as u64 + 1);
        caption.append("/");
        push_decimal(&mut caption, total as u64);
        caption.append("]");
        Some(
            ChunkUpload {
                seq,
                hash,
                offset,
                len,
                stored_len: stored,
                total_parts: parts,
                resume,
                name,
                caption,
            },
        )
    }

    /// Records that the next chunk was uploaded with a message.
    pub fn chunk_done(&mut self, index: &mut Index, msg_id: i32)
        requires
            old(self)@.wf(),
            old(self)@.next < old(self)@.entry.chunks.len(),
            old(self)@.stored_so_far(old(index)@),
            old(index).wf(),
        ensures
            final(self)@.wf(),
            final(index).wf(),
            final(self)@ == old(self)@.after_chunk(),
            ({
                let hash = old(self)@.entry.chunks[old(self)@.next];
                final(index)@ == (IndexView {
                    chunks: old(index)@.chunks.insert(hash, old(self)@.next_record(msg_id)),
                    journal: settled(old(index)@.journal, hash),
                    ..old(index)@
                })
            }),
            final(self)@.stored_so_far(final(index)@),
    {
        let seq: usize = self.next;
        let total: usize = self.entry.chunks.len();
        assert(self@.entry.chunks[seq as int] == self.entry.chunks@[seq as int]@);
        proof {
            product_ascends(seq as int, total - 1, self.chunk_size as int);
            assert((seq + 1) * self.chunk_size == seq * self.chunk_size + self.chunk_size)
                by (nonlinear_arith);
        }
        let hash = self.entry.chunks[seq].clone();
        let offset: u64 = seq as u64 * self.chunk_size;
        let left: u64 = self.entry.size - offset;
        let len: u64 = if left < self.chunk_size { left } else { self.chunk_size };
        index.journal_clear(hash.as_str());
        index.insert_chunk(
            &ChunkEntry { hash, size: len, msg_id, offset: 0, encrypted: self.encrypted },
        );
        self.uploaded_bytes = self.uploaded_bytes + len;
        self.next = self.next + 1;
    }

    /// The file, once every chunk is stored.
    pub fn finish(self) -> (r: UploadedFile)
        ensures
            r.entry@ == self@.entry,
            r.uploaded_bytes == self@.uploaded_bytes,
    {
        UploadedFile { entry: self.entry, uploaded_bytes: self.uploaded_bytes }
    }
}

/// The hashes of members in a row, as bytes.
pub open spec fn member_hashes(members: Seq<PackMember>) -> Seq<u8>
    decreases members.len(),
{
    if members.len() == 0 {
        Seq::empty()
    } else {
        member_hashes(members.drop_last()) + encode_utf8(members.last().hash@)
    }
}

/// The name of a pack: the content hash of its members' hashes in order.
pub fn pack_hash(members: &Vec<PackMember>) -> (r: String)
    requires
        member_hashes(members@).len() <= u64::MAX,
    ensures
        r@ == content_name(member_hashes(members@)),
        is_hash(r@),
{
    let mut hasher = hasher_new();
    let mut i: usize = 0;
    assert(members@.subrange(0, 0) =~= Seq::<PackMember>::empty());
    while i < members.len()
        invariant
            i <= members@.len(),
            member_hashes(members@).len() <= u64::MAX,
            hasher_key(hasher) is None,
            hasher_input(hasher) == member_hashes(members@.subrange(0, i as int)),
        decreases members@.len() - i,
    {
        proof {
            let next = members@.subrange(0, i + 1);
            assert(next.drop_last() =~= members@.subrange(0, i as int));
            member_hashes_of_front(members@, i + 1);
        }
        hasher_update(&mut hasher, members[i].hash.as_str().as_bytes());
        i += 1;
    }
    assert(members@.subrange(0, i as int) =~= members@);
    let digest = hasher_finalize(&hasher);
    proof {
        hex_is_hash(digest@);
    }
    digest_hex(&digest)
}

/// The hashes of the first members are not longer than those of all.
proof fn member_hashes_of_front(members: Seq<PackMember>, n: int)
    requires
        0 <= n <= members.len(),
    ensures
        member_hashes(members.subrange(0, n)).len() <= member_hashes(members).len(),
    decreases members.len(),
{
    if n == members.len() {
        assert(members.subrange(0, n) =~= members);
    } else {
        member_hashes_of_front(members.drop_last(), n);
        assert(members.drop_last().subrange(0, n) =~= members.subrange(0, n));
    }
}

/// A pack that is to be uploaded.
#[derive(Debug)]
pub struct PackUpload {
    /// The name of the pack.
    pub hash: String,
    pub stored_len: u64,
    pub total_parts: i32,
    /// Where an interrupted upload goes on.
    pub resume: Option<(i64, i32)>,
    pub name: String,
    pub caption: String,
}

/// The first thing that keeps members from being uploaded as a pack, if anything does.
pub open spec fn pack_fault(members: Seq<PackMember>) -> Option<PackError> {
    if members.len() == 0 {
        Some(PackError::Empty)
    } else {
        members_fault(members)
    }
}

/// Whether a plan is that of the upload of some members as a pack.
pub open spec fn is_pack_plan(
    plan: PackUpload,
    members: Seq<PackMember>,
    index: IndexView,
) -> bool {
    let parts = wrapped_i32(parts_of_len(pack_len(members))) as i32;
    &&& plan.hash@ == content_name(member_hashes(members))
    &&& plan.stored_len == pack_len(members)
    &&& plan.total_parts == parts
    &&& plan.resume == resume_point(journal_entry(index.journal, plan.hash@), parts)
    &&& plan.name@ == "pack-"@ + short_name(plan.hash@) + ".bin"@
    &&& plan.caption@ == "pack files="@ + decimal(members.len()) + " bytes="@ + decimal(
        plan.stored_len as nat,
    )
}

/// Plans the upload of a pack. An interrupted upload of the same pack goes on where it stopped.
pub fn plan_pack(index: &Index, members: &Vec<PackMember>) -> (r: Result<PackUpload, PackError>)
    requires
        index.wf(),
        member_hashes(members@).len() <= u64::MAX,
    ensures
        match pack_fault(members@) {
            Some(fault) => r is Err && r->Err_0 == fault,
            None => r is Ok && is_pack_plan(r->Ok_0, members@, index@),
        },
{
    if members.len() == 0 {
        return Err(PackError::Empty);
    }
    let hash = pack_hash(members);
    let stored: u64 = match check_members(members) {
        Ok(len) => len,
        Err(error) => {
            return Err(error);
        },
    };
    let parts: i32 = total_parts(stored);
    let resume = resume_upload(index.journal_get(hash.as_str()), parts);
    let mut name = "pack-".to_owned();
    name.append(short(hash.as_str()).as_str());
    name.append(".bin");
    let mut caption = "pack files=".to_owned();
    push_decimal(&mut caption, members.len() as u64);
    caption.append(" bytes=");
    push_decimal(&mut caption, stored);
    Ok(PackUpload { hash, stored_len: stored, total_parts: parts, resume, name, caption })
}

/// What the index records of a member of a stored pack.
pub open spec fn member_chunk(member: PackMember, msg_id: i32, encrypted: bool) -> ChunkView {
    ChunkView {
        hash: member.hash@,
        size: member.size,
        msg_id,
        offset: member.offset,
        encrypted,
    }
}

/// What the index records of the members of a stored pack.
pub open spec fn member_chunks(
    members: Seq<PackMember>,
    msg_id: i32,
    encrypted: bool,
) -> Seq<ChunkView> {
    members.map_values(|m: PackMember| member_chunk(m, msg_id, encrypted))
}

/// Recording chunks one after the other: a hash that no chunk of the list has keeps what was there,
/// and one that just one chunk of the list has gets that chunk.
proof fn recorded_chunks(chunks: Map<Seq<char>, ChunkView>, list: Seq<ChunkView>, hash: Seq<char>)
    ensures
        (forall|i: int| 0 <= i < list.len() ==> (#[trigger] list[i]).hash != hash) ==> {
            &&& with_chunks(chunks, list).dom().contains(hash) == chunks.dom().contains(hash)
            &&& chunks.dom().contains(hash) ==> with_chunks(chunks, list)[hash] == chunks[hash]
        },
        forall|i: int|
            0 <= i < list.len() && (#[trigger] list[i]).hash == hash && (forall|j: int|
                i < j < list.len() ==> (#[trigger] list[j]).hash != hash) ==> {
                &&& with_chunks(chunks, list).dom().contains(hash)
                &&& with_chunks(chunks, list)[hash] == list[i]
            },
    decreases list.len(),
{
    if list.len() > 0 {
        let front = list.drop_last();
        let last = list[list.len() - 1];
        recorded_chunks(chunks, front, hash);
        if last.hash != hash {
            assert forall|i: int|
                0 <= i < list.len() && (#[trigger] list[i]).hash == hash && (forall|j: int|
                    i < j < list.len() ==> (#[trigger] list[j]).hash != hash) implies ({
                &&& with_chunks(chunks, list).dom().contains(hash)
                &&& with_chunks(chunks, list)[hash] == list[i]
            }) by {
                assert(front[i] == list[i]);
                assert forall|j: int| i < j < front.len() implies (#[trigger] front[j]).hash
                    != hash by {
                    assert(front[j] == list[j]);
                }
            }
            if forall|i: int| 0 <= i < list.len() ==> (#[trigger] list[i]).hash != hash {
                assert forall|i: int| 0 <= i < front.len() implies (#[trigger] front[i]).hash
                    != hash by {
                    assert(front[i] == list[i]);
                }
            }
        } else {
            assert forall|i: int|
                0 <= i < list.len() && (#[trigger] list[i]).hash == hash && (forall|j: int|
                    i < j < list.len() ==> (#[trigger] list[j]).hash != hash) implies ({
                &&& with_chunks(chunks, list).dom().contains(hash)
                &&& with_chunks(chunks, list)[hash] == list[i]
            }) by {
                if i < list.len() - 1 {
                    assert(list[list.len() - 1].hash != hash);
                }
            }
        }
    }
}

/// Every chunk of a recorded list is there.
proof fn recorded_chunk_is_there(chunks: Map<Seq<char>, ChunkView>, list: Seq<ChunkView>, i: int)
    requires
        0 <= i < list.len(),
    ensures
        with_chunks(chunks, list).dom().contains(list[i].hash),
    decreases list.len(),
{
    if i < list.len() - 1 {
        recorded_chunk_is_there(chunks, list.drop_last(), i);
    }
}

/// Once a pack is recorded, the index leads to each of its members: the document of the pack, of
/// which every byte was read, holds the stored form of the member's file at the offset that the
/// index has for the member's hash, under the message of the pack. What the index has for other
/// hashes stays.
pub proof fn recorded_pack_is_stored<S: PartSource>(
    pack: &PackSource<S>,
    chunks: Map<Seq<char>, ChunkView>,
    msg_id: i32,
)
    requires
        pack.valid(),
        forall|pos: int| 0 <= pos < pack.content().len() ==> #[trigger] pack.shown(pos),
        forall|i: int, j: int|
            #![trigger pack.members()[i], pack.members()[j]]
            0 <= i < j < pack.members().len() ==> pack.members()[i].hash@
                != pack.members()[j].hash@,
    ensures
        ({
            let after = with_chunks(
                chunks,
                member_chunks(pack.members(), msg_id, pack.keys() is Some),
            );
            &&& forall|i: int|
                0 <= i < pack.members().len() ==> {
                    let member = #[trigger] pack.members()[i];
                    &&& after.dom().contains(member.hash@)
                    &&& is_stored(
                        after[member.hash@],
                        pack.keys(),
                        pack.content(),
                        pack.data()(i).subrange(0, member.size as int),
                    )
                    &&& after[member.hash@].hash == member.hash@
                    &&& after[member.hash@].msg_id == msg_id
                    &&& after[member.hash@].encrypted == (pack.keys() is Some)
                }
            &&& forall|hash: Seq<char>|
                (forall|i: int|
                    0 <= i < pack.members().len() ==> (#[trigger] pack.members()[i]).hash@
                        != hash) ==> (#[trigger] after.dom().contains(hash)
                    == chunks.dom().contains(hash)) && (chunks.dom().contains(hash) ==> after[hash]
                    == chunks[hash])
        }),
{
    let members = pack.members();
    let list = member_chunks(members, msg_id, pack.keys() is Some);
    let after = with_chunks(chunks, list);
    assert forall|i: int| 0 <= i < members.len() implies ({
        let member = #[trigger] pack.members()[i];
        &&& after.dom().contains(member.hash@)
        &&& is_stored(
            after[member.hash@],
            pack.keys(),
            pack.content(),
            pack.data()(i).subrange(0, member.size as int),
        )
        &&& after[member.hash@].hash == member.hash@
        &&& after[member.hash@].msg_id == msg_id
        &&& after[member.hash@].encrypted == (pack.keys() is Some)
    }) by {
        let member = members[i];
        recorded_chunks(chunks, list, member.hash@);
        assert(list[i].hash == member.hash@);
        assert forall|j: int| i < j < list.len() implies (#[trigger] list[j]).hash
            != member.hash@ by {
            assert(pack.members()[i].hash@ != pack.members()[j].hash@);
        }
        packed_chunk_is_stored(pack, i, list[i]);
    }
    assert forall|hash: Seq<char>|
        (forall|i: int|
            0 <= i < pack.members().len() ==> (#[trigger] pack.members()[i]).hash@
                != hash) implies (#[trigger] after.dom().contains(hash) == chunks.dom().contains(
        hash,
    )) && (chunks.dom().contains(hash) ==> after[hash] == chunks[hash]) by {
        recorded_chunks(chunks, list, hash);
        assert forall|i: int| 0 <= i < list.len() implies (#[trigger] list[i]).hash != hash by {
            assert(pack.members()[i].hash@ != hash);
        }
    }
}

/// The plaintext bytes of members add up.
pub proof fn member_sizes_add_up(a: Seq<PackMember>, b: Seq<PackMember>, one: PackMember)
    ensures
        member_sizes(a + b) == member_sizes(a) + member_sizes(b),
        member_sizes(seq![one]) == one.size,
    decreases b.len(),
{
    assert(seq![one].drop_last() =~= Seq::<PackMember>::empty());
    assert(member_sizes(seq![one]) == member_sizes(seq![one].drop_last()) + seq![one].last().size);
    if b.len() == 0 {
        assert(a + b =~= a);
    } else {
        member_sizes_add_up(a, b.drop_last(), one);
        assert((a + b).drop_last() =~= a + b.drop_last());
    }
}

/// The plaintext bytes of members together.
pub open spec fn member_sizes(members: Seq<PackMember>) -> int
    decreases members.len(),
{
    if members.len() == 0 {
        0
    } else {
        member_sizes(members.drop_last()) + members.last().size
    }
}

/// The sizes of the first members are not more than those of all.
proof fn member_sizes_of_front(members: Seq<PackMember>, n: int)
    requires
        0 <= n <= members.len(),
    ensures
        0 <= member_sizes(members.subrange(0, n)) <= member_sizes(members),
    decreases members.len(),
{
    if n == members.len() {
        assert(members.subrange(0, n) =~= members);
        if n > 0 {
            member_sizes_of_front(members.drop_last(), n - 1);
        }
    } else {
        member_sizes_of_front(members.drop_last(), n);
        assert(members.drop_last().subrange(0, n) =~= members.subrange(0, n));
    }
}

/// Records that a pack was uploaded with a message: where each of its members is stored. Returns
/// the plaintext bytes that are newly stored.
pub fn pack_done(
    index: &mut Index,
    members: &Vec<PackMember>,
    hash: &str,
    encrypted: bool,
    msg_id: i32,
) -> (r: u64)
    requires
        old(index).wf(),
        member_sizes(members@) <= u64::MAX,
    ensures
        final(index).wf(),
        final(index)@ == (IndexView {
            chunks: with_chunks(
                old(index)@.chunks,
                member_chunks(members@, msg_id, encrypted),
            ),
            journal: settled(old(index)@.journal, hash@),
            ..old(index)@
        }),
        r == member_sizes(members@),
        forall|i: int|
            0 <= i < members@.len() ==> final(index)@.chunks.dom().contains(
                (#[trigger] members@[i]).hash@,
            ),
        forall|i: int|
            0 <= i < members@.len() && (forall|j: int|
                i < j < members@.len() ==> (#[trigger] members@[j]).hash@
                    != members@[i].hash@) ==> {
                let chunk = final(index)@.chunks[(#[trigger] members@[i]).hash@];
                &&& chunk.offset == members@[i].offset
                &&& chunk.size == members@[i].size
                &&& chunk.msg_id == msg_id
                &&& chunk.encrypted == encrypted
            },
{
    let mut chunks: Vec<ChunkEntry> = Vec::new();
    let mut total: u64 = 0;
    let mut i: usize = 0;
    let ghost views = member_chunks(members@, msg_id, encrypted);
    assert(members@.subrange(0, 0) =~= Seq::<PackMember>::empty());
    while i < members.len()
        invariant
            i <= members@.len(),
            member_sizes(members@) <= u64::MAX,
            total == member_sizes(members@.subrange(0, i as int)),
            chunks@.len() == i,
            views == member_chunks(members@, msg_id, encrypted),
            forall|j: int| 0 <= j < i ==> (#[trigger] chunks@[j])@ == views[j],
        decreases members@.len() - i,
    {
        let member = &members[i];
        proof {
            let next = members@.subrange(0, i + 1);
            assert(next.drop_last() =~= members@.subrange(0, i as int));
            member_sizes_of_front(members@, i + 1);
        }
        chunks.push(
            ChunkEntry {
                hash: member.hash.clone(),
                size: member.size,
                msg_id,
                offset: member.offset,
                encrypted,
            },
        );
        total = total + member.size;
        i += 1;
    }
    assert(members@.subrange(0, i as int) =~= members@);
    assert(chunk_views(chunks@) =~= views);
    proof {
        let before = index@.chunks;
        assert forall|i: int| 0 <= i < members@.len() implies with_chunks(
            before,
            views,
        ).dom().contains((#[trigger] members@[i]).hash@) by {
            recorded_chunk_is_there(before, views, i);
        }
        assert forall|i: int|
            0 <= i < members@.len() && (forall|j: int|
                i < j < members@.len() ==> (#[trigger] members@[j]).hash@
                    != members@[i].hash@) implies with_chunks(
            before,
            views,
        )[(#[trigger] members@[i]).hash@] == views[i] by {
            recorded_chunks(before, views, members@[i].hash@);
            assert(views[i].hash == members@[i].hash@);
            assert forall|j: int| i < j < views.len() implies (#[trigger] views[j]).hash
                != members@[i].hash@ by {
                assert(members@[j].hash@ != members@[i].hash@);
            }
        }
    }
    index.insert_chunks(&chunks);
    index.journal_clear(hash);
    total
}

/// What can go wrong when a file is restored.
#[derive(Debug)]
pub enum FileError {
    /// A chunk is not in the index.
    ChunkMissing { hash: String },
    /// A chunk is sealed and no key was given.
    KeyRequired,
    /// A chunk could not be opened.
    Decrypt,
    /// A chunk lies beyond what can be addressed.
    Range,
    /// Fewer bytes of a chunk came than there should be.
    Short { hash: String, downloaded: u64, expected: u64 },
    /// The restored file has more bytes than can be counted.
    TooLarge,
    /// The restored file is not the one that was stored.
    HashMismatch { path: String, expected: String, actual: String },
}

impl FileError {
    /// A sentence for the user.
    pub open spec fn text(self) -> Seq<char> {
        match self {
            FileError::ChunkMissing { hash } => "chunk "@ + hash@ + " missing from index"@,
            FileError::KeyRequired => "chunk is encrypted; supply --key or --keyfile"@,
            FileError::Decrypt =>
                "decryption failed (wrong key, or the data was corrupted/tampered with)"@,
            FileError::Range => "ranged download offset exceeds Telegram's limits"@,
            FileError::Short { hash, downloaded, expected } => "chunk "@ + hash@
                + ": downloaded "@ + decimal(downloaded as nat) + " bytes, expected "@ + decimal(
                expected as nat,
            ),
            FileError::TooLarge => "restored file is too large"@,
            FileError::HashMismatch { path, expected, actual } => "hash mismatch for "@ + path@
                + ": expected "@ + expected@ + ", got "@ + actual@,
        }
    }

    /// A sentence for the user.
    pub fn message(&self) -> (r: String)
        ensures
            r@ == self.text(),
    {
        let mut s = String::new();
        match self {
            FileError::ChunkMissing { hash } => {
                s.append("chunk ");
                s.append(hash.as_str());
                s.append(" missing from index");
            },
            FileError::KeyRequired => {
                s.append("chunk is encrypted; supply --key or --keyfile");
            },
            FileError::Decrypt => {
                s.append("decryption failed (wrong key, or the data was corrupted/tampered with)");
            },
            FileError::Range => {
                s.append("ranged download offset exceeds Telegram's limits");
            },
            FileError::Short { hash, downloaded, expected } => {
                s.append("chunk ");
                s.append(hash.as_str());
                s.append(": downloaded ");
                push_decimal(&mut s, *downloaded);
                s.append(" bytes, expected ");
                push_decimal(&mut s, *expected);
            },
            FileError::TooLarge => {
                s.append("restored file is too large");
            },
            FileError::HashMismatch { path, expected, actual } => {
                s.append("hash mismatch for ");
                s.append(path.as_str());
                s.append(": expected ");
                s.append(expected.as_str());
                s.append(", got ");
                s.append(actual.as_str());
            },
        }
        assert(s@ =~= self.text());
        s
    }
}

/// Where the stored bytes of a chunk are.
#[derive(Debug)]
pub struct ChunkFetch {
    pub hash: String,
    pub msg_id: i32,
    pub offset: u64,
    /// How many stored bytes there are.
    pub expected: u64,
    /// How many plaintext bytes there are.
    pub size: u64,
    pub encrypted: bool,
}

/// Finds out where a chunk is stored.
pub fn plan_fetch(index: &Index, hash: &str, has_key: bool) -> (r: Result<ChunkFetch, FileError>)
    requires
        index.wf(),
        index@.chunks.dom().contains(hash@) ==> stored_len_of(
            index@.chunks[hash@].size as int,
            index@.chunks[hash@].encrypted,
        ) <= u64::MAX,
    ensures
        if !index@.chunks.dom().contains(hash@) {
            r is Err && r->Err_0 is ChunkMissing && r->Err_0->ChunkMissing_hash@ == hash@
        } else {
            let chunk = index@.chunks[hash@];
            if chunk.encrypted && !has_key {
                r is Err && r->Err_0 is KeyRequired
            } else {
                &&& r is Ok
                &&& r->Ok_0.hash@ == hash@
                &&& r->Ok_0.msg_id == chunk.msg_id
                &&& r->Ok_0.offset == chunk.offset
                &&& r->Ok_0.expected == stored_len_of(chunk.size as int, chunk.encrypted)
                &&& r->Ok_0.size == chunk.size
                &&& r->Ok_0.encrypted == chunk.encrypted
            }
        },
{
    match index.chunk(hash) {
        Some(chunk) => {
            if chunk.encrypted && !has_key {
                return Err(FileError::KeyRequired);
            }
            Ok(
                ChunkFetch {
                    hash: hash.to_owned(),
                    msg_id: chunk.msg_id,
                    offset: chunk.offset,
                    expected: stored_len(chunk.size, chunk.encrypted),
                    size: chunk.size,
                    encrypted: chunk.encrypted,
                },
            )
        },
        None => Err(FileError::ChunkMissing { hash: hash.to_owned() }),
    }
}

/// How far the download of a chunk is.
pub ghost struct ChunkDownloadView {
    pub range: RangeState,
    /// What the decryption remembers, if the chunk is sealed.
    pub writer: Option<WriterState>,
    pub hash: Seq<char>,
    pub expected: int,
}

/// The download of a chunk out of the document that holds it.
pub struct ChunkDownload<'a> {
    fetch: ChunkFetch,
    range: RangeReader,
    decryptor: Option<DecryptingWriter<'a>>,
}

impl<'a> View for ChunkDownload<'a> {
    type V = ChunkDownloadView;

    closed spec fn view(&self) -> ChunkDownloadView {
        ChunkDownloadView {
            range: self.range@,
            writer: match self.decryptor {
                Some(writer) => Some(writer@),
                None => None,
            },
            hash: self.fetch.hash@,
            expected: self.fetch.expected as int,
        }
    }
}

impl<'a> ChunkDownload<'a> {
    /// The invariant of a download.
    pub closed spec fn wf(&self) -> bool {
        &&& self.range.wf()
        &&& self.decryptor is Some ==> self.decryptor->0.wf() && self.decryptor->0@.received
            == self.range@.written
    }

    /// Begins the download of a chunk. Returns it with the number of the part of the document to
    /// begin with.
    pub fn new(fetch: ChunkFetch, crypto: Option<&'a Crypto>) -> (r: Result<
        (ChunkDownload<'a>, i32),
        FileError,
    >)
        requires
            fetch.encrypted ==> crypto is Some && sealed_len_of(fetch.size as int) <= u64::MAX
                && encode_utf8(fetch.hash@).len() + 8 <= u64::MAX,
        ensures
            r is Ok <==> fetch.offset + fetch.expected <= u64::MAX && fetch.offset / 524_288
                <= i32::MAX,
            r is Err ==> r->Err_0 is Range,
            r is Ok ==> {
                let (download, part) = r->Ok_0;
                &&& download.wf()
                &&& part == fetch.offset / 524_288
                &&& download@ == (ChunkDownloadView {
                    range: RangeState {
                        leading: (fetch.offset % 524_288) as int,
                        remaining: fetch.expected as int,
                        written: 0,
                    },
                    writer: if fetch.encrypted {
                        Some(
                            WriterState {
                                keys: crypto->0@,
                                context: encode_utf8(fetch.hash@),
                                sealed_len: sealed_len_of(fetch.size as int),
                                received: 0,
                                segment: 0,
                                pending: Seq::empty(),
                            },
                        )
                    } else {
                        None
                    },
                    hash: fetch.hash@,
                    expected: fetch.expected as int,
                })
            },
    {
        let (range, part) = match RangeReader::new(fetch.offset, fetch.expected) {
            Ok(made) => made,
            Err(_) => {
                return Err(FileError::Range);
            },
        };
        let decryptor: Option<DecryptingWriter<'a>> = match crypto {
            Some(crypto) => if fetch.encrypted {
                Some(
                    DecryptingWriter::new(crypto, fetch.hash.as_str().as_bytes(), fetch.size),
                )
            } else {
                None
            },
            None => None,
        };
        Ok((ChunkDownload { fetch, range, decryptor }, part))
    }

    /// Whether more of the document is needed.
    pub fn wants_more(&self) -> (r: bool)
        ensures
            r == (self@.range.remaining > 0),
    {
        self.range.wants_more()
    }

    /// Takes the next piece of the document and appends to `out` the plaintext that it completes.
    pub fn feed(&mut self, piece: &[u8], out: &mut Vec<u8>) -> (r: Result<(), FileError>)
        requires
            old(self).wf(),
        ensures
            ({
                let (range, raw) = range_fed(old(self)@.range, piece@);
                match old(self)@.writer {
                    None => {
                        &&& r is Ok
                        &&& final(self).wf()
                        &&& final(out)@ == old(out)@ + raw
                        &&& final(self)@ == (ChunkDownloadView { range, ..old(self)@ })
                    },
                    Some(writer) => {
                        let (after, plain, ok) = absorbed(writer, raw);
                        &&& r is Ok <==> ok
                        &&& r is Err ==> r->Err_0 is Decrypt
                        &&& r is Ok ==> final(self).wf()
                        &&& final(out)@ == old(out)@ + plain
                        &&& final(self)@ == (ChunkDownloadView {
                            range,
                            writer: Some(after),
                            ..old(self)@
                        })
                    },
                }
            }),
            opens_streams(old(self)@, piece@),
    {
        let mut raw: Vec<u8> = Vec::new();
        self.range.feed(piece, &mut raw);
        proof {
            let fed = range_fed(old(self)@.range, piece@).1;
            assert(Seq::<u8>::empty() + fed =~= fed);
        }
        match &mut self.decryptor {
            Some(writer) => match writer.write(raw.as_slice(), out) {
                Ok(_) => Ok(()),
                Err(_) => Err(FileError::Decrypt),
            },
            None => {
                append_bytes(out, raw.as_slice());
                Ok(())
            },
        }
    }

    /// Ends the download: all stored bytes must have come.
    pub fn finish(&self) -> (r: Result<(), FileError>)
        ensures
            r is Ok <==> self@.range.written == self@.expected,
            r is Err ==> r->Err_0 is Short && r->Err_0->Short_hash@ == self@.hash
                && r->Err_0->Short_downloaded == self@.range.written && r->Err_0->Short_expected
                == self@.expected,
    {
        if self.range.written() != self.fetch.expected {
            return Err(
                FileError::Short {
                    hash: self.fetch.hash.clone(),
                    downloaded: self.range.written(),
                    expected: self.fetch.expected,
                },
            );
        }
        Ok(())
    }
}

/// Compares the hash of a restored file with the one that it should have.
pub fn compare_hash(file: &FileEntry, actual: String) -> (r: Result<(), FileError>)
    ensures
        r is Ok <==> actual@ == file.hash@,
        r is Err ==> r->Err_0 is HashMismatch && r->Err_0->HashMismatch_path@ == file.path@
            && r->Err_0->HashMismatch_expected@ == file.hash@ && r->Err_0->HashMismatch_actual@
            == actual@,
{
    if !text_eq(actual.as_str(), file.hash.as_str()) {
        return Err(
            FileError::HashMismatch {
                path: file.path.clone(),
                expected: file.hash.clone(),
                actual,
            },
        );
    }
    Ok(())
}

/// Whether a piece of the document opens what it completes of any sealed stream that the download
/// is along.
pub open spec fn opens_streams(state: ChunkDownloadView, piece: Seq<u8>) -> bool {
    let (after, plain, ok) = chunk_fed(state, piece);
    state.writer is Some ==> forall|text: Seq<u8>, sealed: Seq<u8>| #[trigger]
        feeds(state.writer->0, text, sealed, range_fed(state.range, piece).1) ==> ok && followed(
            state.writer->0,
            after.writer->0,
            text,
            sealed,
            plain,
        )
}

/// How the download of a chunk begins, given where the chunk is stored.
pub open spec fn download_start(chunk: ChunkView, keys: Option<CryptoKeys>) -> ChunkDownloadView {
    let stored = stored_len_of(chunk.size as int, chunk.encrypted);
    ChunkDownloadView {
        range: RangeState {
            leading: (chunk.offset % 524_288) as int,
            remaining: stored,
            written: 0,
        },
        writer: if chunk.encrypted {
            Some(
                WriterState {
                    keys: keys->0,
                    context: encode_utf8(chunk.hash),
                    sealed_len: sealed_len_of(chunk.size as int),
                    received: 0,
                    segment: 0,
                    pending: Seq::empty(),
                },
            )
        } else {
            None
        },
        hash: chunk.hash,
        expected: stored,
    }
}

/// What a piece of the document does to the download of a chunk: how far it is then, the plaintext
/// that comes out, and whether every completed segment could be opened.
pub open spec fn chunk_fed(state: ChunkDownloadView, piece: Seq<u8>) -> (
    ChunkDownloadView,
    Seq<u8>,
    bool,
) {
    let (range, raw) = range_fed(state.range, piece);
    match state.writer {
        None => (ChunkDownloadView { range, ..state }, raw, true),
        Some(writer) => {
            let (after, plain, ok) = absorbed(writer, raw);
            (ChunkDownloadView { range, writer: Some(after), ..state }, plain, ok)
        },
    }
}

/// How far the restoration of a file is.
pub ghost struct FileDownloadView {
    pub file: FileView,
    /// The plaintexts of the chunks that are restored, in the order of the file's chunk list.
    pub done: Seq<Seq<u8>>,
    /// The chunk that is being downloaded.
    pub current: Option<ChunkDownloadView>,
    /// What of its plaintext is restored.
    pub part: Seq<u8>,
}

impl FileDownloadView {
    /// Everything that is restored so far, in order.
    pub open spec fn restored(self) -> Seq<u8> {
        joined(self.done) + self.part
    }

    /// The hash of the chunk that comes next.
    pub open spec fn next_hash(self) -> Seq<char> {
        self.file.chunks[self.done.len() as int]
    }
}

/// Where the download of a chunk begins.
#[derive(Debug, Clone, Copy, PartialEq, Eq, Structural)]
pub struct ChunkStart {
    /// Message that holds the document with the chunk.
    pub msg_id: i32,
    /// Number of the part of the document to begin with.
    pub part: i32,
}

/// Where the download of a chunk begins, by its record.
pub open spec fn start_of(chunk: ChunkView) -> ChunkStart {
    ChunkStart { msg_id: chunk.msg_id, part: (chunk.offset / 524_288) as i32 }
}

/// The download of a chunk begins with the document of its message, at the part that holds its
/// first stored byte.
pub proof fn downloads_begin_where_the_chunk_is(chunk: ChunkView)
    requires
        chunk.offset / 524_288 <= i32::MAX,
    ensures
        start_of(chunk).msg_id == chunk.msg_id,
        start_of(chunk).part * 524_288 <= chunk.offset < start_of(chunk).part * 524_288 + 524_288,
{
}

/// The restoration of a file: its chunks in the order of its chunk list, and the check of the
/// whole against its hash.
pub struct FileDownload<'a> {
    file: FileEntry,
    next: usize,
    current: Option<ChunkDownload<'a>>,
    hasher: blake3::Hasher,
    total: u64,
    done: Ghost<Seq<Seq<u8>>>,
    part: Ghost<Seq<u8>>,
}

impl<'a> View for FileDownload<'a> {
    type V = FileDownloadView;

    closed spec fn view(&self) -> FileDownloadView {
        FileDownloadView {
            file: self.file@,
            done: self.done@,
            current: match self.current {
                Some(download) => Some(download@),
                None => None,
            },
            part: self.part@,
        }
    }
}

impl<'a> FileDownload<'a> {
    /// The invariant of a restoration.
    pub closed spec fn wf(&self) -> bool {
        &&& hasher_key(self.hasher) is None
        &&& hasher_input(self.hasher) == self@.restored()
        &&& self.total == self@.restored().len()
        &&& self.next == self.done@.len()
        &&& self.next <= self.file.chunks@.len()
        &&& match self.current {
            Some(download) => {
                &&& download.wf()
                &&& self.next < self.file.chunks@.len()
                &&& download@.hash == self@.next_hash()
            },
            None => self.part@.len() == 0,
        }
    }

    /// Begins with nothing restored.
    pub fn new(file: FileEntry) -> (r: Self)
        ensures
            r.wf(),
            r@ == (FileDownloadView {
                file: file@,
                done: Seq::empty(),
                current: None,
                part: Seq::empty(),
            }),
    {
        let r = FileDownload {
            file,
            next: 0,
            current: None,
            hasher: hasher_new(),
            total: 0,
            done: Ghost(Seq::empty()),
            part: Ghost(Seq::empty()),
        };
        assert(r@.restored() =~= Seq::<u8>::empty());
        r
    }

    /// Begins the next chunk of the file's chunk list. `None` once all are restored.
    pub fn next_chunk(&mut self, index: &Index, crypto: Option<&'a Crypto>) -> (r: Result<
        Option<ChunkStart>,
        FileError,
    >)
        requires
            old(self).wf(),
            old(self)@.current is None,
            index.wf(),
            old(self)@.done.len() < old(self)@.file.chunks.len() && index@.chunks.dom().contains(
                old(self)@.next_hash(),
            ) ==> {
                let chunk = index@.chunks[old(self)@.next_hash()];
                &&& stored_len_of(chunk.size as int, chunk.encrypted) <= u64::MAX
                &&& chunk.encrypted ==> encode_utf8(old(self)@.next_hash()).len() + 8 <= u64::MAX
            },
        ensures
            final(self).wf(),
            if old(self)@.done.len() == old(self)@.file.chunks.len() {
                r == Ok::<Option<ChunkStart>, FileError>(None) && final(self)@ == old(self)@
            } else {
                let hash = old(self)@.next_hash();
                let chunk = index@.chunks[hash];
                if !index@.chunks.dom().contains(hash) {
                    &&& r is Err
                    &&& r->Err_0 is ChunkMissing
                    &&& r->Err_0->ChunkMissing_hash@ == hash
                    &&& final(self)@ == old(self)@
                } else if chunk.encrypted && crypto is None {
                    r is Err && r->Err_0 is KeyRequired && final(self)@ == old(self)@
                } else if chunk.offset + stored_len_of(chunk.size as int, chunk.encrypted)
                    > u64::MAX || chunk.offset / 524_288 > i32::MAX {
                    r is Err && r->Err_0 is Range && final(self)@ == old(self)@
                } else {
                    &&& r == Ok::<Option<ChunkStart>, FileError>(
                        Some(start_of(chunk)),
                    )
                    &&& final(self)@ == (FileDownloadView {
                        current: Some(
                            download_start(
                                chunk,
                                match crypto {
                                    Some(c) => Some(c@),
                                    None => None,
                                },
                            ),
                        ),
                        ..old(self)@
                    })
                }
            },
    {
        if self.next >= self.file.chunks.len() {
            return Ok(None);
        }
        assert(self@.next_hash() == self.file.chunks@[self.next as int]@);
        proof {
            index.is_sound();
        }
        let fetch = match plan_fetch(
            index,
            self.file.chunks[self.next].as_str(),
            crypto.is_some(),
        ) {
            Ok(fetch) => fetch,
            Err(error) => {
                return Err(error);
            },
        };
        let msg_id: i32 = fetch.msg_id;
        match ChunkDownload::new(fetch, crypto) {
            Ok((download, part)) => {
                self.current = Some(download);
                Ok(Some(ChunkStart { msg_id, part }))
            },
            Err(error) => Err(error),
        }
    }

    /// Whether more of the document with the current chunk is needed.
    pub fn wants_more(&self) -> (r: bool)
        ensures
            r == (self@.current is Some && self@.current->0.range.remaining > 0),
    {
        match &self.current {
            Some(download) => download.wants_more(),
            None => false,
        }
    }

    /// Takes the next piece of the document with the current chunk and appends to `out` the
    /// plaintext that it completes. Fails if a segment cannot be opened, in which case the
    /// segments before it are appended, or if the file would have more bytes than can be counted.
    pub fn feed(&mut self, piece: &[u8], out: &mut Vec<u8>) -> (r: Result<(), FileError>)
        requires
            old(self).wf(),
            old(self)@.current is Some,
        ensures
            ({
                let (after, plain, ok) = chunk_fed(old(self)@.current->0, piece@);
                let fits = old(self)@.restored().len() + plain.len() <= u64::MAX;
                &&& !ok ==> r is Err && r->Err_0 is Decrypt
                &&& ok && !fits ==> r is Err && r->Err_0 is TooLarge
                &&& ok && fits ==> r is Ok && final(self).wf()
                &&& !fits ==> final(out)@ == old(out)@
                &&& fits ==> {
                    &&& final(out)@ == old(out)@ + plain
                    &&& final(self)@ == (FileDownloadView {
                        current: Some(after),
                        part: old(self)@.part + plain,
                        ..old(self)@
                    })
                    &&& final(self)@.restored() == old(self)@.restored() + plain
                }
            }),
            opens_streams(old(self)@.current->0, piece@),
    {
        let mut plain: Vec<u8> = Vec::new();
        let fed = match &mut self.current {
            Some(download) => download.feed(piece, &mut plain),
            None => Ok(()),
        };
        proof {
            let given = chunk_fed(old(self)@.current->0, piece@).1;
            assert(Seq::<u8>::empty() + given =~= given);
        }
        let fits: bool = plain.len() as u64 <= u64::MAX - self.total;
        if fits {
            hasher_update(&mut self.hasher, plain.as_slice());
            self.total = self.total + plain.len() as u64;
            append_bytes(out, plain.as_slice());
            proof {
                self.part = Ghost(self.part@ + plain@);
                assert(self@.restored() =~= old(self)@.restored() + plain@);
            }
        }
        match fed {
            Err(error) => Err(error),
            Ok(()) => if fits {
                Ok(())
            } else {
                Err(FileError::TooLarge)
            },
        }
    }

    /// Ends the current chunk: all of its stored bytes must have come.
    pub fn chunk_done(&mut self) -> (r: Result<(), FileError>)
        requires
            old(self).wf(),
            old(self)@.current is Some,
        ensures
            final(self).wf(),
            ({
                let current = old(self)@.current->0;
                if current.range.written == current.expected {
                    &&& r is Ok
                    &&& final(self)@ == (FileDownloadView {
                        done: old(self)@.done.push(old(self)@.part),
                        current: None,
                        part: Seq::empty(),
                        ..old(self)@
                    })
                    &&& final(self)@.restored() == old(self)@.restored()
                } else {
                    &&& r is Err
                    &&& r->Err_0 is Short
                    &&& r->Err_0->Short_hash@ == current.hash
                    &&& r->Err_0->Short_downloaded == current.range.written
                    &&& r->Err_0->Short_expected == current.expected
                    &&& final(self)@ == old(self)@
                }
            }),
    {
        let ended = match &self.current {
            Some(download) => download.finish(),
            None => Ok(()),
        };
        if let Err(error) = ended {
            return Err(error);
        }
        let count: usize = self.file.chunks.len();
        assert(self.next < count);
        self.current = None;
        self.next = self.next + 1;
        proof {
            let before = old(self)@.done;
            let now = before.push(old(self)@.part);
            self.done = Ghost(now);
            self.part = Ghost(Seq::empty());
            assert(now.drop_last() =~= before);
            assert(self@.restored() =~= old(self)@.restored());
        }
        Ok(())
    }

    /// Ends the restoration, once every chunk is restored: the whole must have the hash of the
    /// file.
    pub fn finish(&self) -> (r: Result<(), FileError>)
        requires
            self.wf(),
            self@.current is None,
            self@.done.len() == self@.file.chunks.len(),
        ensures
            r is Ok <==> content_name(joined(self@.done)) == self@.file.hash,
            r is Err ==> r->Err_0 is HashMismatch && r->Err_0->HashMismatch_path@
                == self@.file.path && r->Err_0->HashMismatch_expected@ == self@.file.hash
                && r->Err_0->HashMismatch_actual@ == content_name(joined(self@.done)),
    {
        assert(self@.restored() =~= joined(self@.done));
        compare_hash(&self.file, digest_hex(&hasher_finalize(&self.hasher)))
    }
}

/// A file whose chunks are restored in order, each with its own plaintext, is restored as it was.
pub proof fn chunks_restore_file(data: Seq<u8>, chunk_size: int, done: Seq<Seq<u8>>)
    requires
        chunk_size > 0,
        done.len() == chunk_names(data, chunk_size).len(),
        forall|i: int|
            0 <= i < done.len() ==> #[trigger] done[i] == chunk_of(data, chunk_size, i),
    ensures
        joined(done) == data,
{
    joined_chunks(data, chunk_size, done, done.len() as int);
    assert(done.subrange(0, done.len() as int) =~= done);
    chunks_make_up_file(data, chunk_size);
}

/// The first restored chunks are the first chunks of the data.
proof fn joined_chunks(data: Seq<u8>, chunk_size: int, done: Seq<Seq<u8>>, n: int)
    requires
        0 <= n <= done.len(),
        forall|i: int|
            0 <= i < done.len() ==> #[trigger] done[i] == chunk_of(data, chunk_size, i),
    ensures
        joined(done.subrange(0, n)) == first_chunks(data, chunk_size, n),
    decreases n,
{
    let now = done.subrange(0, n);
    if n > 0 {
        joined_chunks(data, chunk_size, done, n - 1);
        assert(now.drop_last() =~= done.subrange(0, n - 1));
        assert(now.last() == done[n - 1]);
    }
}

/// Whether a document holds the stored form of a plaintext where the record of the chunk says: the
/// plaintext itself, or a sealed stream of it.
pub open spec fn is_stored(
    chunk: ChunkView,
    keys: Option<CryptoKeys>,
    document: Seq<u8>,
    plain: Seq<u8>,
) -> bool {
    let end = chunk.offset + stored_len_of(chunk.size as int, chunk.encrypted);
    let stored = document.subrange(chunk.offset as int, end);
    &&& chunk.size == plain.len()
    &&& end <= document.len()
    &&& if chunk.encrypted {
        keys is Some && seals_stream(keys->0, encode_utf8(chunk.hash), plain, stored)
    } else {
        stored == plain
    }
}

/// A sealed source, uploaded as a document of its own, stores its range of the file.
pub proof fn sealed_chunk_is_stored<S: PartSource>(
    source: &EncryptedChunkSource<S>,
    chunk: ChunkView,
)
    requires
        source.valid(),
        source.plain_len == 0 ==> source.base <= source.file.reach().len(),
        forall|pos: int| 0 <= pos < source.content().len() ==> #[trigger] source.shown(pos),
        chunk.hash == source.context@,
        chunk.size == source.plain_len,
        chunk.offset == 0,
        chunk.encrypted,
    ensures
        is_stored(
            chunk,
            Some(source.crypto@),
            source.content(),
            source.file.reach().subrange(source.base as int, source.base + source.plain_len),
        ),
{
    sealed_source_is_stream(source);
    let all = source.content();
    assert(all.subrange(0, all.len() as int) =~= all);
}

/// A plain source, uploaded as a document of its own, stores its range of the file.
pub proof fn plain_chunk_is_stored<S: PartSource>(
    source: &PlainChunkSource<S>,
    chunk: ChunkView,
    keys: Option<CryptoKeys>,
)
    requires
        source.len == 0 ==> source.base <= source.file.reach().len(),
        forall|pos: int| 0 <= pos < source.content().len() ==> #[trigger] source.shown(pos),
        chunk.size == source.len,
        chunk.offset == 0,
        !chunk.encrypted,
    ensures
        is_stored(
            chunk,
            keys,
            source.content(),
            source.file.reach().subrange(source.base as int, source.base + source.len),
        ),
{
    plain_source_is_range(source);
    let all = source.content();
    assert(all.subrange(0, all.len() as int) =~= all);
}

/// A pack, uploaded as a document, stores the file of each of its members.
pub proof fn packed_chunk_is_stored<S: PartSource>(pack: &PackSource<S>, i: int, chunk: ChunkView)
    requires
        pack.valid(),
        0 <= i < pack.members().len(),
        forall|pos: int| 0 <= pos < pack.content().len() ==> #[trigger] pack.shown(pos),
        chunk.hash == pack.members()[i].hash@,
        chunk.size == pack.members()[i].size,
        chunk.offset == pack.members()[i].offset,
        chunk.encrypted == (pack.keys() is Some),
    ensures
        is_stored(
            chunk,
            pack.keys(),
            pack.content(),
            pack.data()(i).subrange(0, pack.members()[i].size as int),
        ),
{
    pack_holds_member(pack, i);
}

/// The download of one chunk: the states between the pieces, from before the first to after the
/// last, the pieces, and the plaintexts that they gave.
pub ghost struct ChunkRun {
    pub states: Seq<ChunkDownloadView>,
    pub pieces: Seq<Seq<u8>>,
    pub plains: Seq<Seq<u8>>,
}

impl ChunkRun {
    /// Whether this is a download of a chunk out of a document: its pieces begin with the part
    /// where the download of the chunk begins, and do not end before the last stored byte.
    pub open spec fn downloads(
        self,
        chunk: ChunkView,
        keys: Option<CryptoKeys>,
        document: Seq<u8>,
    ) -> bool {
        let first = start_of(chunk).part * PART_SIZE;
        let end = first + joined(self.pieces).len();
        &&& chunk.offset / 524_288 <= i32::MAX
        &&& self.states.len() == self.pieces.len() + 1
        &&& self.plains.len() == self.pieces.len()
        &&& self.states[0] == download_start(chunk, keys)
        &&& forall|i: int|
            0 <= i < self.pieces.len() ==> {
                let fed = chunk_fed(self.states[i], #[trigger] self.pieces[i]);
                &&& self.states[i + 1] == fed.0
                &&& self.plains[i] == fed.1
                &&& opens_streams(self.states[i], self.pieces[i])
            }
        &&& chunk.offset + stored_len_of(chunk.size as int, chunk.encrypted) <= end
            <= document.len()
        &&& joined(self.pieces) == document.subrange(first, end)
    }

    /// Whether every completed segment could be opened.
    pub open spec fn all_open(self) -> bool {
        forall|i: int|
            0 <= i < self.pieces.len() ==> chunk_fed(
                self.states[i],
                #[trigger] self.pieces[i],
            ).2
    }
}

/// How far the ranged part of a download is after its first pieces: it has taken the front of the
/// stored bytes, and takes those that follow from the next piece.
proof fn run_takes_range(
    run: ChunkRun,
    chunk: ChunkView,
    keys: Option<CryptoKeys>,
    document: Seq<u8>,
    n: int,
)
    requires
        run.downloads(chunk, keys, document),
        0 <= n <= run.pieces.len(),
    ensures
        ({
            let len = stored_len_of(chunk.size as int, chunk.encrypted);
            let stored = document.subrange(chunk.offset as int, chunk.offset + len);
            let (range, out) = range_fed_all(run.states[0].range, run.pieces.subrange(0, n));
            &&& run.states[n].range == range
            &&& 0 <= range.written <= len
            &&& out == stored.subrange(0, range.written)
            &&& n == run.pieces.len() ==> range.written == len
        }),
    decreases n,
{
    let len = stored_len_of(chunk.size as int, chunk.encrypted);
    let front = run.pieces.subrange(0, n);
    let leading = chunk.offset as int % 524_288;
    let first = (chunk.offset as int / 524_288) * 524_288;
    let stored = document.subrange(chunk.offset as int, chunk.offset + len);
    joined_front(run.pieces, n);
    range_is_exact(leading, len, front);
    let data = joined(front);
    let (range, out) = range_fed_all(run.states[0].range, front);
    let from = if leading <= data.len() { leading } else { data.len() as int };
    assert(out =~= stored.subrange(0, range.written)) by {
        assert forall|j: int| 0 <= j < range.written implies #[trigger] out[j] == stored[j] by {
            assert(out[j] == data[from + j]);
            assert(data[from + j] == joined(run.pieces)[from + j]);
        }
    }
    if n > 0 {
        run_takes_range(run, chunk, keys, document, n - 1);
        assert(front.drop_last() =~= run.pieces.subrange(0, n - 1));
        assert(front.last() == run.pieces[n - 1]);
    }
    if n == run.pieces.len() {
        assert(front =~= run.pieces);
    }
}

/// The bytes of the stored form that a piece gives are those that come next.
#[verifier::spinoff_prover]
proof fn run_takes_next(
    run: ChunkRun,
    chunk: ChunkView,
    keys: Option<CryptoKeys>,
    document: Seq<u8>,
    n: int,
)
    requires
        run.downloads(chunk, keys, document),
        0 <= n < run.pieces.len(),
    ensures
        ({
            let len = stored_len_of(chunk.size as int, chunk.encrypted);
            let stored = document.subrange(chunk.offset as int, chunk.offset + len);
            let here = run.states[n].range.written;
            let next = run.states[n + 1].range.written;
            &&& 0 <= here <= next <= len
            &&& range_fed(run.states[n].range, run.pieces[n]).1 == stored.subrange(here, next)
        }),
{
    let len = stored_len_of(chunk.size as int, chunk.encrypted);
    let stored = document.subrange(chunk.offset as int, chunk.offset + len);
    let front = run.pieces.subrange(0, n + 1);
    run_takes_range(run, chunk, keys, document, n);
    run_takes_range(run, chunk, keys, document, n + 1);
    assert(front.drop_last() =~= run.pieces.subrange(0, n));
    assert(front.last() == run.pieces[n]);
    let (range, out) = range_fed_all(run.states[0].range, run.pieces.subrange(0, n));
    let raw = range_fed(range, run.pieces[n]).1;
    let here = range.written;
    let next = run.states[n + 1].range.written;
    let whole = out + raw;
    assert(whole == stored.subrange(0, next));
    assert(out.len() == here);
    assert(whole.len() == next);
    assert(raw.len() == next - here);
    assert forall|j: int| 0 <= j < raw.len() implies #[trigger] raw[j] == stored[here + j] by {
        assert(whole[here + j] == raw[j]);
    }
    assert(raw =~= stored.subrange(here, next));
}

/// The decryption of a sealed chunk is in step with the stored bytes after any of the pieces, and
/// has opened what they complete.
proof fn run_is_in_step(
    run: ChunkRun,
    chunk: ChunkView,
    keys: Option<CryptoKeys>,
    document: Seq<u8>,
    plain: Seq<u8>,
    n: int,
)
    requires
        run.downloads(chunk, keys, document),
        is_stored(chunk, keys, document, plain),
        chunk.encrypted,
        0 <= n <= run.pieces.len(),
    ensures
        ({
            let len = stored_len_of(chunk.size as int, chunk.encrypted);
            let stored = document.subrange(chunk.offset as int, chunk.offset + len);
            let writer = run.states[n].writer;
            &&& writer is Some
            &&& writer->0.keys == keys->0
            &&& writer->0.context == encode_utf8(chunk.hash)
            &&& writer->0.received == run.states[n].range.written
            &&& in_step(writer->0, stored)
            &&& n > 0 ==> chunk_fed(run.states[n - 1], run.pieces[n - 1]).2 && followed(
                run.states[n - 1].writer->0,
                writer->0,
                plain,
                stored,
                run.plains[n - 1],
            )
        }),
    decreases n,
{
    let len = stored_len_of(chunk.size as int, chunk.encrypted);
    let stored = document.subrange(chunk.offset as int, chunk.offset + len);
    if n == 0 {
        if len > 0 {
            assert(stored.subrange(0, 0) =~= Seq::<u8>::empty());
        }
    } else {
        run_is_in_step(run, chunk, keys, document, plain, n - 1);
        run_takes_next(run, chunk, keys, document, n - 1);
        let before = run.states[n - 1];
        let piece = run.pieces[n - 1];
        let raw = range_fed(before.range, piece).1;
        let writer = before.writer->0;
        assert(feeds(writer, plain, stored, raw)) by {
            reveal(feeds);
        }
        assert(opens_streams(before, piece));
        writing_takes_all(writer, raw);
        reveal(followed);
    }
}

/// A chunk that is stored in a document is restored from it as it was, however the document is cut
/// into pieces: every segment opens, all stored bytes come, and the plaintexts in a row are the
/// chunk.
pub proof fn stored_chunk_restores(
    run: ChunkRun,
    chunk: ChunkView,
    keys: Option<CryptoKeys>,
    document: Seq<u8>,
    plain: Seq<u8>,
)
    requires
        run.downloads(chunk, keys, document),
        is_stored(chunk, keys, document, plain),
    ensures
        run.all_open(),
        run.states.last().range.written == run.states.last().expected,
        joined(run.plains) == plain,
{
    let len = stored_len_of(chunk.size as int, chunk.encrypted);
    let stored = document.subrange(chunk.offset as int, chunk.offset + len);
    let n = run.pieces.len() as int;
    run_takes_range(run, chunk, keys, document, n);
    run_keeps_expected(run, chunk, keys, document, n);
    if chunk.encrypted {
        let writers = Seq::new(run.states.len(), |i: int| run.states[i].writer->0);
        run_is_in_step(run, chunk, keys, document, plain, 0);
        run_is_in_step(run, chunk, keys, document, plain, n);
        assert forall|i: int| 0 <= i < n implies chunk_fed(
            run.states[i],
            #[trigger] run.pieces[i],
        ).2 by {
            run_is_in_step(run, chunk, keys, document, plain, i + 1);
        }
        assert forall|i: int| 0 <= i < run.plains.len() implies followed(
            writers[i],
            writers[i + 1],
            plain,
            stored,
            #[trigger] run.plains[i],
        ) && writers[i].received <= writers[i + 1].received by {
            run_is_in_step(run, chunk, keys, document, plain, i);
            run_is_in_step(run, chunk, keys, document, plain, i + 1);
            run_takes_next(run, chunk, keys, document, i);
        }
        any_writes_read_back(writers, run.plains, plain, stored);
    } else {
        assert forall|i: int| 0 <= i < n implies chunk_fed(
            run.states[i],
            #[trigger] run.pieces[i],
        ).2 by {
            run_keeps_expected(run, chunk, keys, document, i);
        }
        run_hands_out_range(run, chunk, keys, document, n);
        assert(run.plains.subrange(0, n) =~= run.plains);
        assert(stored.subrange(0, len) =~= stored);
    }
}

/// Pieces change neither how many bytes are expected nor whether they are opened.
proof fn run_keeps_expected(
    run: ChunkRun,
    chunk: ChunkView,
    keys: Option<CryptoKeys>,
    document: Seq<u8>,
    n: int,
)
    requires
        run.downloads(chunk, keys, document),
        0 <= n <= run.pieces.len(),
    ensures
        run.states[n].expected == stored_len_of(chunk.size as int, chunk.encrypted),
        run.states[n].writer is Some <==> chunk.encrypted,
    decreases n,
{
    if n > 0 {
        run_keeps_expected(run, chunk, keys, document, n - 1);
        assert(run.states[n] == chunk_fed(run.states[n - 1], run.pieces[n - 1]).0);
    }
}

/// The pieces of a plain chunk give out its stored bytes.
proof fn run_hands_out_range(
    run: ChunkRun,
    chunk: ChunkView,
    keys: Option<CryptoKeys>,
    document: Seq<u8>,
    n: int,
)
    requires
        run.downloads(chunk, keys, document),
        !chunk.encrypted,
        0 <= n <= run.pieces.len(),
    ensures
        joined(run.plains.subrange(0, n)) == range_fed_all(
            run.states[0].range,
            run.pieces.subrange(0, n),
        ).1,
    decreases n,
{
    if n > 0 {
        run_hands_out_range(run, chunk, keys, document, n - 1);
        run_keeps_expected(run, chunk, keys, document, n - 1);
        run_takes_range(run, chunk, keys, document, n - 1);
        let plains = run.plains.subrange(0, n);
        let pieces = run.pieces.subrange(0, n);
        assert(plains.drop_last() =~= run.plains.subrange(0, n - 1));
        assert(pieces.drop_last() =~= run.pieces.subrange(0, n - 1));
        assert(plains.last() == run.plains[n - 1]);
        assert(pieces.last() == run.pieces[n - 1]);
    }
}

/// A file whose chunks are stored, sealed or plain, alone or in packs, is restored as it was.
pub proof fn stored_file_restores(
    data: Seq<u8>,
    chunk_size: int,
    keys: Option<CryptoKeys>,
    chunks: Seq<ChunkView>,
    documents: Seq<Seq<u8>>,
    runs: Seq<ChunkRun>,
    done: Seq<Seq<u8>>,
)
    requires
        chunk_size > 0,
        done.len() == chunk_names(data, chunk_size).len(),
        forall|i: int|
            0 <= i < done.len() ==> {
                &&& is_stored(chunks[i], keys, documents[i], chunk_of(data, chunk_size, i))
                &&& runs[i].downloads(chunks[i], keys, documents[i])
                &&& #[trigger] done[i] == joined(runs[i].plains)
            },
    ensures
        joined(done) == data,
{
    assert forall|i: int| 0 <= i < done.len() implies #[trigger] done[i] == chunk_of(
        data,
        chunk_size,
        i,
    ) by {
        assert(done[i] == joined(runs[i].plains));
        stored_chunk_restores(
            runs[i],
            chunks[i],
            keys,
            documents[i],
            chunk_of(data, chunk_size, i),
        );
    }
    chunks_restore_file(data, chunk_size, done);
}

/// A quotient rounded to the nearest integer, and to the even one of two that are as near.
pub open spec fn half_even(n: int, d: int) -> int {
    let q = n / d;
    let r = n % d;
    if 2 * r > d || (2 * r == d && q % 2 == 1) {
        q + 1
    } else {
        q
    }
}

/// The distance between neighbouring numbers of 53 significant bits near `n`.
pub open spec fn precision_at(n: int) -> int
    decreases n,
{
    if n < 0x20_0000_0000_0000 {
        1
    } else {
        2 * precision_at(n / 2)
    }
}

/// `n` rounded to 53 significant bits.
pub open spec fn rounded(n: int) -> int {
    half_even(n, precision_at(n)) * precision_at(n)
}

/// The unit in which a size is shown: bytes, then powers of 1024.
pub open spec fn unit_of(size: int) -> int {
    if size < 1024 {
        0
    } else if size < 0x10_0000 {
        1
    } else if size < 0x4000_0000 {
        2
    } else if size < 0x100_0000_0000 {
        3
    } else {
        4
    }
}

/// How many bytes a unit stands for.
pub open spec fn unit_size(unit: int) -> int {
    if unit == 0 {
        1
    } else if unit == 1 {
        1024
    } else if unit == 2 {
        0x10_0000
    } else if unit == 3 {
        0x4000_0000
    } else {
        0x100_0000_0000
    }
}

/// The name of a unit.
pub open spec fn unit_name(unit: int) -> Seq<char> {
    if unit == 0 {
        "B"@
    } else if unit == 1 {
        "KiB"@
    } else if unit == 2 {
        "MiB"@
    } else if unit == 3 {
        "GiB"@
    } else {
        "TiB"@
    }
}

/// A size as it is shown: bytes exactly, larger units with one decimal.
pub open spec fn shown_size(bytes: int) -> Seq<char> {
    let value = rounded(bytes);
    let unit = unit_of(value);
    let tenths = half_even(10 * value, unit_size(unit));
    if unit == 0 {
        decimal(bytes as nat) + " B"@
    } else {
        decimal((tenths / 10) as nat) + "."@ + decimal((tenths % 10) as nat) + " "@ + unit_name(
            unit,
        )
    }
}

/// The distance between neighbouring numbers of 53 significant bits near `n`.
fn precision(n: u64) -> (r: u64)
    ensures
        r == precision_at(n as int),
        1 <= r <= 2048,
        n < 0x20_0000_0000_0000 ==> r == 1,
{
    reveal_with_fuel(precision_at, 13);
    if n < 0x20_0000_0000_0000 {
        return 1;
    }
    if n < 0x40_0000_0000_0000 {
        2
    } else if n < 0x80_0000_0000_0000 {
        4
    } else if n < 0x100_0000_0000_0000 {
        8
    } else if n < 0x200_0000_0000_0000 {
        16
    } else if n < 0x400_0000_0000_0000 {
        32
    } else if n < 0x800_0000_0000_0000 {
        64
    } else if n < 0x1000_0000_0000_0000 {
        128
    } else if n < 0x2000_0000_0000_0000 {
        256
    } else if n < 0x4000_0000_0000_0000 {
        512
    } else if n < 0x8000_0000_0000_0000 {
        1024
    } else {
        2048
    }
}

/// A quotient rounded to the nearest integer, and to the even one of two that are as near.
fn round_half_even(n: u128, d: u128) -> (r: u128)
    requires
        0 < d <= 0x100_0000_0000,
        n <= 0x1_0000_0000_0000_0000_0000,
    ensures
        r == half_even(n as int, d as int),
{
    let q: u128 = n / d;
    let rest: u128 = n % d;
    if 2 * rest > d || (2 * rest == d && q % 2 == 1) {
        q + 1
    } else {
        q
    }
}

/// A size in words: bytes exactly, larger units with one decimal.
pub fn human_size(bytes: u64) -> (r: String)
    ensures
        r@ == shown_size(bytes as int),
{
    let step: u64 = precision(bytes);
    let units: u128 = round_half_even(bytes as u128, step as u128);
    proof {
        assert(units * step <= 0x1_0000_0000_0000_0800) by (nonlinear_arith)
            requires
                units <= bytes as int / (step as int) + 1,
                bytes <= 0xffff_ffff_ffff_ffff,
                1 <= step <= 2048,
        ;
    }
    let value: u128 = units * step as u128;
    assert(value == rounded(bytes as int));
    let mut s = String::new();
    if value < 1024 {
        push_decimal(&mut s, bytes);
        s.append(" B");
        return s;
    }
    let (size, name): (u128, &str) = if value < 0x10_0000 {
        (1024, "KiB")
    } else if value < 0x4000_0000 {
        (0x10_0000, "MiB")
    } else if value < 0x100_0000_0000 {
        (0x4000_0000, "GiB")
    } else {
        (0x100_0000_0000, "TiB")
    };
    let tenths: u128 = round_half_even(10 * value, size);
    push_decimal(&mut s, (tenths / 10) as u64);
    s.append(".");
    push_decimal(&mut s, (tenths % 10) as u64);
    s.append(" ");
    s.append(name);
    s
}

/// Rounding gives a nearest integer, and of two that are as near the even one.
pub proof fn rounding_is_to_the_nearest(n: int, d: int)
    requires
        0 <= n,
        0 < d,
    ensures
        2 * n - d <= 2 * (half_even(n, d) * d) <= 2 * n + d,
        2 * (half_even(n, d) * d) == 2 * n - d || 2 * (half_even(n, d) * d) == 2 * n + d
            ==> half_even(n, d) % 2 == 0,
{
    let q = n / d;
    let r = n % d;
    assert(n == q * d + r && 0 <= r < d) by (nonlinear_arith)
        requires
            q == n / d,
            r == n % d,
            0 < d,
    ;
    assert((q + 1) * d == q * d + d) by (nonlinear_arith);
}

/// Sizes are shown in the largest unit that they fill: bytes below 1024, then each unit 1024 times
/// the one before, up to the fourth.
pub proof fn units_grow_by_1024(size: int)
    requires
        0 <= size,
    ensures
        0 <= unit_of(size) <= 4,
        unit_of(size) > 0 ==> unit_size(unit_of(size)) <= size,
        unit_of(size) < 4 ==> size < 1024 * unit_size(unit_of(size)),
        unit_size(0) == 1,
        forall|unit: int|
            0 < unit <= 4 ==> #[trigger] unit_size(unit) == 1024 * unit_size(unit - 1),
{
}

/// The name of a document has the first sixteen characters of the hash.
pub proof fn documents_are_named_by_their_hash(hash: Seq<char>, i: int)
    requires
        is_hash(hash),
        0 <= i < 16,
    ensures
        short_name(hash).len() == 16,
        short_name(hash)[i] == hash[i],
{
}

/// The name of a pack is taken of its members' hashes one after the other: no hash is left out, and
/// their order counts.
pub proof fn packs_are_named_by_their_members(
    a: Seq<PackMember>,
    b: Seq<PackMember>,
    one: PackMember,
)
    ensures
        member_hashes(a + b) == member_hashes(a) + member_hashes(b),
        member_hashes(seq![one]) == encode_utf8(one.hash@),
    decreases b.len(),
{
    let single = seq![one];
    assert(single.drop_last() =~= Seq::<PackMember>::empty());
    assert(member_hashes(single) == member_hashes(single.drop_last()) + encode_utf8(
        single.last().hash@,
    ));
    assert(member_hashes(single) =~= encode_utf8(one.hash@));
    if b.len() == 0 {
        assert(a + b =~= a);
        assert(member_hashes(a) + member_hashes(b) =~= member_hashes(a));
    } else {
        packs_are_named_by_their_members(a, b.drop_last(), one);
        assert((a + b).drop_last() =~= a + b.drop_last());
        assert(member_hashes(a + b) =~= member_hashes(a) + member_hashes(b));
    }
}

/// A pack is uploaded just if it has members and they can be told apart by their places; an empty
/// one is refused as such.
pub proof fn empty_packs_are_refused(members: Seq<PackMember>)
    ensures
        members.len() == 0 <==> pack_fault(members) == Some(PackError::Empty),
        members.len() > 0 ==> pack_fault(members) == members_fault(members),
{
}

/// The record of a file has its path, size and time as they were walked, and its hash and chunks as
/// they were read; it is not marked as deleted.
pub proof fn records_are_of_the_walked_file(
    file: LocalFile,
    hash: Seq<char>,
    chunks: Seq<Seq<char>>,
)
    ensures
        ({
            let entry = entry_of(file, hash, chunks);
            &&& entry.path == file.rel_path@
            &&& entry.size == file.size
            &&& entry.mtime == file.mtime
            &&& entry.hash == hash
            &&& entry.chunks == chunks
            &&& !entry.deleted
        }),
{
}

/// The journal of uploads once a document is stored.
pub open spec fn settled(journal: Map<Seq<char>, JournalView>, name: Seq<char>) -> Map<
    Seq<char>,
    JournalView,
> {
    journal.remove(name)
}

/// A stored document is resumed by no later push, and every other upload is resumed as before.
pub proof fn stored_documents_are_not_resumed(
    journal: Map<Seq<char>, JournalView>,
    name: Seq<char>,
    other: Seq<char>,
    parts: i32,
)
    ensures
        resume_point(journal_entry(settled(journal, name), name), parts) is None,
        other != name ==> journal_entry(settled(journal, name), other) == journal_entry(
            journal,
            other,
        ),
        other != name ==> settled(journal, name).dom().contains(other) == journal.dom().contains(
            other,
        ),
{
}

/// A stored chunk is counted with as many bytes as the file has in it, and the upload goes on with
/// the chunk after it. One that stored every chunk before the last has counted the whole file with
/// the last.
pub proof fn uploaded_chunks_are_counted(upload: FileUploadView, data: Seq<u8>)
    requires
        upload.wf(),
        is_hashed(upload, data),
        upload.next < upload.entry.chunks.len(),
    ensures
        ({
            let after = upload.after_chunk();
            &&& after.uploaded_bytes == upload.uploaded_bytes + chunk_of(
                data,
                upload.chunk_size,
                upload.next,
            ).len()
            &&& after.next == upload.next + 1
            &&& after.entry == upload.entry
            &&& after.chunk_size == upload.chunk_size
            &&& after.encrypted == upload.encrypted
            &&& after.next < after.entry.chunks.len() && upload.uploaded_bytes == upload.next
                * upload.chunk_size ==> after.uploaded_bytes == after.next * after.chunk_size
            &&& after.next == after.entry.chunks.len() && upload.uploaded_bytes == upload.next
                * upload.chunk_size ==> after.uploaded_bytes == data.len()
        }),
{
    let size = upload.chunk_size;
    let next = upload.next;
    chunk_name_at(data, size, next);
    chunk_is_cut_where_it_was_hashed(data, size, next);
    assert((next + 1) * size == next * size + size) by (nonlinear_arith);
}

/// Sizes up to a kibibyte are shown in bytes. Larger ones are shown in the largest unit that they
/// reach, to the nearest tenth of it.
pub proof fn sizes_are_shown_to_a_tenth(bytes: int, unit: int, name: Seq<char>)
    requires
        0 <= bytes < 0x20_0000_0000_0000,
        ({
            ||| unit == 1024 && name == "KiB"@
            ||| unit == 0x10_0000 && name == "MiB"@
            ||| unit == 0x4000_0000 && name == "GiB"@
            ||| unit == 0x100_0000_0000 && name == "TiB"@
        }),
    ensures
        bytes < 1024 ==> shown_size(bytes) == decimal(bytes as nat) + " B"@,
        unit <= bytes && (bytes < 1024 * unit || unit == 0x100_0000_0000) ==> {
            let tenths = half_even(10 * bytes, unit);
            &&& 20 * bytes - unit <= 2 * (tenths * unit) <= 20 * bytes + unit
            &&& shown_size(bytes) == decimal((tenths / 10) as nat) + "."@ + decimal(
                (tenths % 10) as nat,
            ) + " "@ + name
        },
{
    assert(precision_at(bytes) == 1);
    assert(rounded(bytes) == bytes) by {
        assert(bytes / 1 == bytes && bytes % 1 == 0);
    }
    rounding_is_to_the_nearest(10 * bytes, unit);
}

/// The plan of a pack is of its members: named by their hashes, as long as all of them, in as many
/// parts as that takes, and resumed just where the journal has an upload of that many parts under
/// its hash.
pub proof fn packs_are_planned_by_their_members(
    plan: PackUpload,
    members: Seq<PackMember>,
    index: IndexView,
)
    requires
        is_pack_plan(plan, members, index),
        is_hash(plan.hash@),
        plan.stored_len <= 0x2_0000_0000_0000,
    ensures
        plan.hash@ == content_name(member_hashes(members)),
        members.len() > 0 ==> plan.stored_len == members.last().offset + members.last().stored_len,
        (plan.total_parts - 1) * 524_288 < plan.stored_len <= plan.total_parts * 524_288
            || plan.stored_len == 0 && plan.total_parts == 0,
        plan.resume is Some <==> index.journal.dom().contains(plan.hash@)
            && index.journal[plan.hash@].total_parts == plan.total_parts,
        plan.resume is Some ==> plan.resume->0 == (
            index.journal[plan.hash@].file_id,
            index.journal[plan.hash@].done_parts,
        ),
        plan.name@ == "pack-"@ + plan.hash@.subrange(0, 16) + ".bin"@,
        ("pack files="@ + decimal(members.len()) + " bytes="@).is_prefix_of(plan.caption@),
{
}

/// A chunk that came short is told of with how many bytes came and how many were to come.
pub proof fn short_chunks_are_told_of(hash: String, downloaded: u64, expected: u64)
    ensures
        ({
            let text = FileError::Short { hash, downloaded, expected }.text();
            let start = "chunk "@ + hash@ + ": downloaded "@;
            let middle = start + decimal(downloaded as nat) + " bytes, expected "@;
            &&& middle.is_prefix_of(text)
            &&& leading_u64(text.subrange(start.len() as int, text.len() as int)) == Some(
                downloaded,
            )
            &&& leading_u64(text.subrange(middle.len() as int, text.len() as int)) == Some(expected)
        }),
{
    let text = FileError::Short { hash, downloaded, expected }.text();
    let start = "chunk "@ + hash@ + ": downloaded "@;
    let between = " bytes, expected "@;
    let end = Seq::<char>::empty();
    reveal_strlit(" bytes, expected ");
    assert(text =~= start + decimal(downloaded as nat) + between + decimal(expected as nat) + end);
    two_numbers_are_read(start, downloaded, between, expected, end, text);
}

} // verus!
