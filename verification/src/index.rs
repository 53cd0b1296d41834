//! The metadata index of a repository: which files exist, which chunks make them up, and where
//! those chunks are stored in the channel.
use vstd::prelude::*;
use crate::table::{Row, Table};
use crate::text::{lex_less, lex_less_irreflexive, text_eq, text_starts_with};

verus! {

/// The texts of a list of strings.
pub open spec fn texts(list: Seq<String>) -> Seq<Seq<char>> {
    list.map_values(|s: String| s@)
}

/// Copies a list of strings.
pub(crate) fn copy_texts(list: &Vec<String>) -> (r: Vec<String>)
    ensures
        texts(r@) == texts(list@),
{
    let mut r: Vec<String> = Vec::new();
    let mut i: usize = 0;
    while i < list.len()
        invariant
            i <= list@.len(),
            r@.len() == i,
            forall|j: int| 0 <= j < i ==> (#[trigger] r@[j])@ == list@[j]@,
        decreases list@.len() - i,
    {
        r.push(list[i].clone());
        i += 1;
    }
    assert(texts(r@) =~= texts(list@));
    r
}

/// A file of the repository.
#[derive(Debug)]
pub struct FileEntry {
    pub path: String,
    pub size: u64,
    pub mtime: i64,
    pub hash: String,
    pub deleted: bool,
    /// Chunk hashes in order.
    pub chunks: Vec<String>,
}

/// What a file entry holds.
pub ghost struct FileView {
    pub path: Seq<char>,
    pub size: u64,
    pub mtime: i64,
    pub hash: Seq<char>,
    pub deleted: bool,
    pub chunks: Seq<Seq<char>>,
}

impl View for FileEntry {
    type V = FileView;

    open spec fn view(&self) -> FileView {
        FileView {
            path: self.path@,
            size: self.size,
            mtime: self.mtime,
            hash: self.hash@,
            deleted: self.deleted,
            chunks: texts(self.chunks@),
        }
    }
}

impl Clone for FileEntry {
    fn clone(&self) -> (r: Self)
        ensures
            r@ == self@,
    {
        FileEntry {
            path: self.path.clone(),
            size: self.size,
            mtime: self.mtime,
            hash: self.hash.clone(),
            deleted: self.deleted,
            chunks: copy_texts(&self.chunks),
        }
    }
}

impl Row for FileEntry {
    open spec fn key(&self) -> Seq<char> {
        self.path@
    }

    fn key_text(&self) -> (r: &String) {
        &self.path
    }
}

/// A stored chunk and where its bytes are.
#[derive(Debug)]
pub struct ChunkEntry {
    pub hash: String,
    /// Plaintext length.
    pub size: u64,
    /// Message that holds the document with the chunk.
    pub msg_id: i32,
    /// Where the stored bytes begin within the document.
    pub offset: u64,
    /// Whether the stored bytes are sealed.
    pub encrypted: bool,
}

/// What a chunk entry holds.
pub ghost struct ChunkView {
    pub hash: Seq<char>,
    pub size: u64,
    pub msg_id: i32,
    pub offset: u64,
    pub encrypted: bool,
}

impl View for ChunkEntry {
    type V = ChunkView;

    open spec fn view(&self) -> ChunkView {
        ChunkView {
            hash: self.hash@,
            size: self.size,
            msg_id: self.msg_id,
            offset: self.offset,
            encrypted: self.encrypted,
        }
    }
}

impl Clone for ChunkEntry {
    fn clone(&self) -> (r: Self)
        ensures
            r@ == self@,
    {
        ChunkEntry {
            hash: self.hash.clone(),
            size: self.size,
            msg_id: self.msg_id,
            offset: self.offset,
            encrypted: self.encrypted,
        }
    }
}

impl Row for ChunkEntry {
    open spec fn key(&self) -> Seq<char> {
        self.hash@
    }

    fn key_text(&self) -> (r: &String) {
        &self.hash
    }
}

/// How far an interrupted upload came.
#[derive(Debug)]
pub struct JournalEntry {
    pub hash: String,
    pub file_id: i64,
    pub total_parts: i32,
    pub done_parts: i32,
}

/// What a journal entry holds.
pub ghost struct JournalView {
    pub hash: Seq<char>,
    pub file_id: i64,
    pub total_parts: i32,
    pub done_parts: i32,
}

impl View for JournalEntry {
    type V = JournalView;

    open spec fn view(&self) -> JournalView {
        JournalView {
            hash: self.hash@,
            file_id: self.file_id,
            total_parts: self.total_parts,
            done_parts: self.done_parts,
        }
    }
}

impl Row for JournalEntry {
    open spec fn key(&self) -> Seq<char> {
        self.hash@
    }

    fn key_text(&self) -> (r: &String) {
        &self.hash
    }
}

/// A published snapshot of the index.
#[derive(Debug, Clone, Copy, PartialEq, Eq, Structural)]
pub struct SnapshotRecord {
    pub version: u64,
    pub created_at: i64,
    pub msg_id: i32,
}

/// Size and modification time of a live file.
#[derive(Debug)]
pub struct FileStat {
    pub path: String,
    pub size: u64,
    pub mtime: i64,
}

impl View for FileStat {
    type V = (u64, i64);

    open spec fn view(&self) -> (u64, i64) {
        (self.size, self.mtime)
    }
}

impl Row for FileStat {
    open spec fn key(&self) -> Seq<char> {
        self.path@
    }

    fn key_text(&self) -> (r: &String) {
        &self.path
    }
}

/// The whole index in the form that is published.
#[derive(Debug)]
pub struct Snapshot {
    pub version: u64,
    pub created_at: i64,
    pub files: Vec<FileEntry>,
    pub chunks: Vec<ChunkEntry>,
}

/// What a snapshot holds.
pub ghost struct SnapshotView {
    pub version: u64,
    pub created_at: i64,
    pub files: Seq<FileView>,
    pub chunks: Seq<ChunkView>,
}

impl View for Snapshot {
    type V = SnapshotView;

    open spec fn view(&self) -> SnapshotView {
        SnapshotView {
            version: self.version,
            created_at: self.created_at,
            files: file_views(self.files@),
            chunks: chunk_views(self.chunks@),
        }
    }
}

/// Why a change of the index was refused.
#[derive(Debug, Clone, Copy, PartialEq, Eq, Structural)]
pub enum IndexError {
    /// A file lists a chunk that is not stored.
    UnknownChunk,
}

/// What the index holds.
pub ghost struct IndexView {
    pub files: Map<Seq<char>, FileView>,
    pub chunks: Map<Seq<char>, ChunkView>,
    pub journal: Map<Seq<char>, JournalView>,
    pub snapshots: Seq<SnapshotRecord>,
    pub version: u64,
}

/// Whether every chunk of a list is stored.
pub open spec fn all_stored(chunks: Map<Seq<char>, ChunkView>, list: Seq<Seq<char>>) -> bool {
    forall|i: int| 0 <= i < list.len() ==> chunks.dom().contains(#[trigger] list[i])
}

/// Whether paths strictly ascend along a list.
pub open spec fn ascending(list: Seq<FileView>) -> bool {
    forall|i: int, j: int|
        #![trigger list[i], list[j]]
        0 <= i < j < list.len() ==> lex_less(list[i].path, list[j].path)
}

/// Whether a list holds, in the order of their paths, exactly those files that are to be kept,
/// each as `shown` shows it.
pub open spec fn lists(
    list: Seq<FileView>,
    files: Map<Seq<char>, FileView>,
    keep: spec_fn(FileView) -> bool,
    shown: spec_fn(FileView) -> FileView,
) -> bool {
    &&& ascending(list)
    &&& forall|i: int|
        0 <= i < list.len() ==> {
            &&& files.dom().contains((#[trigger] list[i]).path)
            &&& keep(files[list[i].path])
            &&& list[i] == shown(files[list[i].path])
        }
    &&& forall|path: Seq<char>| #[trigger]
        files.dom().contains(path) && keep(files[path]) ==> exists|i: int|
            0 <= i < list.len() && (#[trigger] list[i]).path == path
}

/// Which files a listing keeps: those under a prefix, and of the deleted ones either all or none.
pub open spec fn under(prefix: Seq<char>, include_deleted: bool) -> spec_fn(FileView) -> bool {
    |f: FileView| prefix.is_prefix_of(f.path) && (include_deleted || !f.deleted)
}

/// How a listing shows a file: with or without its chunk list.
pub open spec fn shown(with_chunks: bool) -> spec_fn(FileView) -> FileView {
    |f: FileView|
        if with_chunks {
            f
        } else {
            without_chunks(f)
        }
}

/// What the entries of a list hold.
pub open spec fn file_views(list: Seq<FileEntry>) -> Seq<FileView> {
    list.map_values(|f: FileEntry| f@)
}

/// What the entries of a list hold.
pub open spec fn chunk_views(list: Seq<ChunkEntry>) -> Seq<ChunkView> {
    list.map_values(|c: ChunkEntry| c@)
}

/// The chunks after those of a list were recorded one by one.
pub open spec fn with_chunks(
    chunks: Map<Seq<char>, ChunkView>,
    list: Seq<ChunkView>,
) -> Map<Seq<char>, ChunkView>
    decreases list.len(),
{
    if list.len() == 0 {
        chunks
    } else {
        with_chunks(chunks, list.drop_last()).insert(list.last().hash, list.last())
    }
}

/// The files after those of a list were recorded one by one.
pub open spec fn with_files(
    files: Map<Seq<char>, FileView>,
    list: Seq<FileView>,
) -> Map<Seq<char>, FileView>
    decreases list.len(),
{
    if list.len() == 0 {
        files
    } else {
        with_files(files, list.drop_last()).insert(list.last().path, list.last())
    }
}

/// Whether a file under a prefix is present in the index but not among those still alive.
pub open spec fn is_missing(f: FileView, prefix: Seq<char>, alive: Seq<Seq<char>>) -> bool {
    !f.deleted && prefix.is_prefix_of(f.path) && !alive.contains(f.path)
}

/// The files with those of a set of paths marked as deleted.
pub open spec fn marked(
    files: Map<Seq<char>, FileView>,
    paths: Set<Seq<char>>,
) -> Map<Seq<char>, FileView> {
    Map::new(
        |path: Seq<char>| files.dom().contains(path),
        |path: Seq<char>|
            if paths.contains(path) {
                tombstone(files[path])
            } else {
                files[path]
            },
    )
}

/// The paths of the files that are missing.
pub open spec fn missing_paths(
    files: Map<Seq<char>, FileView>,
    prefix: Seq<char>,
    alive: Seq<Seq<char>>,
) -> Set<Seq<char>> {
    files.dom().filter(|path: Seq<char>| is_missing(files[path], prefix, alive))
}

/// Whether a list holds the path, size and time of every present file, in the order of paths.
pub open spec fn lists_stats(list: Seq<FileStat>, files: Map<Seq<char>, FileView>) -> bool {
    &&& forall|i: int, j: int|
        #![trigger list[i], list[j]]
        0 <= i < j < list.len() ==> lex_less(list[i].path@, list[j].path@)
    &&& forall|i: int|
        0 <= i < list.len() ==> {
            let f = files[(#[trigger] list[i]).path@];
            &&& files.dom().contains(list[i].path@)
            &&& !f.deleted
            &&& list[i].size == f.size
            &&& list[i].mtime == f.mtime
        }
    &&& forall|path: Seq<char>| #[trigger]
        files.dom().contains(path) && !files[path].deleted ==> exists|i: int|
            0 <= i < list.len() && (#[trigger] list[i]).path@ == path
}

/// Whether a list holds every chunk, in the order of the hashes.
pub open spec fn lists_chunks(list: Seq<ChunkView>, chunks: Map<Seq<char>, ChunkView>) -> bool {
    &&& forall|i: int, j: int|
        #![trigger list[i], list[j]]
        0 <= i < j < list.len() ==> lex_less(list[i].hash, list[j].hash)
    &&& forall|i: int|
        0 <= i < list.len() ==> {
            &&& chunks.dom().contains((#[trigger] list[i]).hash)
            &&& list[i] == chunks[list[i].hash]
        }
    &&& forall|hash: Seq<char>| #[trigger]
        chunks.dom().contains(hash) ==> exists|i: int|
            0 <= i < list.len() && (#[trigger] list[i]).hash == hash
}

/// Whether a snapshot holds all that is needed to restore its files.
pub open spec fn is_complete(snapshot: SnapshotView) -> bool {
    forall|i: int|
        0 <= i < snapshot.files.len() ==> all_stored(
            with_chunks(Map::empty(), snapshot.chunks),
            (#[trigger] snapshot.files[i]).chunks,
        )
}

/// A file without its chunk list.
pub open spec fn without_chunks(f: FileView) -> FileView {
    FileView { chunks: Seq::empty(), ..f }
}

/// A file marked as deleted.
pub open spec fn tombstone(f: FileView) -> FileView {
    FileView { deleted: true, ..f }
}

/// A file marked as present.
pub open spec fn present(f: FileView) -> FileView {
    FileView { deleted: false, ..f }
}

/// The metadata index.
pub struct Index {
    files: Table<FileEntry>,
    chunks: Table<ChunkEntry>,
    journal: Table<JournalEntry>,
    snapshots: Vec<SnapshotRecord>,
    version: u64,
}

impl View for Index {
    type V = IndexView;

    closed spec fn view(&self) -> IndexView {
        IndexView {
            files: self.files@,
            chunks: self.chunks@,
            journal: self.journal@,
            snapshots: self.snapshots@,
            version: self.version,
        }
    }
}

impl IndexView {
    /// The index once a snapshot is imported into it.
    pub open spec fn imported(self, snapshot: SnapshotView) -> IndexView {
        IndexView {
            files: with_files(Map::empty(), snapshot.files),
            chunks: with_chunks(Map::empty(), snapshot.chunks),
            version: snapshot.version,
            ..self
        }
    }

    /// What always holds of an index: rows stand under their own keys, and every file's chunks
    /// are stored.
    pub open spec fn sound(self) -> bool {
        &&& forall|path: Seq<char>| #[trigger]
            self.files.dom().contains(path) ==> self.files[path].path == path
        &&& forall|hash: Seq<char>| #[trigger]
            self.chunks.dom().contains(hash) ==> self.chunks[hash].hash == hash
        &&& forall|path: Seq<char>| #[trigger]
            self.files.dom().contains(path) ==> all_stored(self.chunks, self.files[path].chunks)
    }
}

/// The files and chunks alone make an index sound.
proof fn sound_kept(before: IndexView, after: IndexView)
    requires
        before.sound(),
        after.files == before.files,
        after.chunks == before.chunks,
    ensures
        after.sound(),
{
}

impl Index {
    /// The invariant of an index.
    pub closed spec fn wf(&self) -> bool {
        &&& self.files.wf()
        &&& self.chunks.wf()
        &&& self.journal.wf()
        &&& self@.sound()
    }

    /// What the invariant says of the contents.
    pub proof fn is_sound(&self)
        requires
            self.wf(),
        ensures
            self@.sound(),
    {
    }

    /// An index that holds nothing.
    pub fn new() -> (r: Self)
        ensures
            r.wf(),
            r@ == (IndexView {
                files: Map::empty(),
                chunks: Map::empty(),
                journal: Map::empty(),
                snapshots: Seq::empty(),
                version: 0,
            }),
    {
        let r = Index {
            files: Table::new(),
            chunks: Table::new(),
            journal: Table::new(),
            snapshots: Vec::new(),
            version: 0,
        };
        assert(r.snapshots@ =~= Seq::<SnapshotRecord>::empty());
        r
    }

    /// The file with a path, deleted or not, with its chunk list.
    pub fn get_file(&self, path: &str) -> (r: Option<FileEntry>)
        requires
            self.wf(),
        ensures
            match r {
                Some(f) => self@.files.dom().contains(path@) && f@ == self@.files[path@],
                None => !self@.files.dom().contains(path@),
            },
    {
        match self.files.get(path) {
            Some(f) => Some(f.clone()),
            None => None,
        }
    }

    /// The chunk with a hash, if it is stored.
    pub fn chunk(&self, hash: &str) -> (r: Option<ChunkEntry>)
        requires
            self.wf(),
        ensures
            match r {
                Some(c) => self@.chunks.dom().contains(hash@) && c@ == self@.chunks[hash@],
                None => !self@.chunks.dom().contains(hash@),
            },
    {
        match self.chunks.get(hash) {
            Some(c) => Some(c.clone()),
            None => None,
        }
    }

    /// Records where a chunk is stored, in place of what was known of it before.
    pub fn insert_chunk(&mut self, chunk: &ChunkEntry)
        requires
            old(self).wf(),
        ensures
            final(self).wf(),
            final(self)@ == (IndexView {
                chunks: old(self)@.chunks.insert(chunk.hash@, chunk@),
                ..old(self)@
            }),
    {
        let row = chunk.clone();
        assert(row@.hash == chunk@.hash);
        self.chunks.put(row);
        assert(self@.files == old(self)@.files);
        assert forall|hash: Seq<char>| #[trigger]
            self@.chunks.dom().contains(hash) implies self@.chunks[hash].hash == hash by {
            if hash != chunk.hash@ {
                assert(old(self)@.chunks.dom().contains(hash));
            }
        }
        assert forall|path: Seq<char>| #[trigger]
            self@.files.dom().contains(path) implies all_stored(
            self@.chunks,
            self@.files[path].chunks,
        ) by {
            assert(old(self)@.files.dom().contains(path));
            assert(all_stored(old(self)@.chunks, old(self)@.files[path].chunks));
        }
        assert(self@.sound()) by {
            assert forall|path: Seq<char>| #[trigger]
                self@.files.dom().contains(path) implies self@.files[path].path == path by {
                assert(old(self)@.files.dom().contains(path));
            }
        }
    }

    /// Whether every chunk of a list is stored.
    fn stores_all(&self, list: &Vec<String>) -> (r: bool)
        requires
            self.wf(),
        ensures
            r == all_stored(self@.chunks, texts(list@)),
    {
        let mut i: usize = 0;
        while i < list.len()
            invariant
                self.wf(),
                i <= list@.len(),
                forall|j: int| 0 <= j < i ==> self@.chunks.dom().contains(#[trigger] list@[j]@),
            decreases list@.len() - i,
        {
            if self.chunks.get(list[i].as_str()).is_none() {
                assert(texts(list@)[i as int] == list@[i as int]@);
                return false;
            }
            i += 1;
        }
        assert forall|j: int| 0 <= j < texts(list@).len() implies self@.chunks.dom().contains(
            #[trigger] texts(list@)[j],
        ) by {
            assert(texts(list@)[j] == list@[j]@);
        }
        true
    }

    /// Puts a file record with its chunk list in place of the one with the same path, or adds
    /// it. The file is then present, whatever it was before.
    pub fn upsert_file(&mut self, entry: &FileEntry) -> (r: Result<(), IndexError>)
        requires
            old(self).wf(),
        ensures
            final(self).wf(),
            if all_stored(old(self)@.chunks, entry@.chunks) {
                &&& r is Ok
                &&& final(self)@ == (IndexView {
                    files: old(self)@.files.insert(entry.path@, present(entry@)),
                    ..old(self)@
                })
            } else {
                &&& r == Err::<(), IndexError>(IndexError::UnknownChunk)
                &&& final(self)@ == old(self)@
            },
    {
        if !self.stores_all(&entry.chunks) {
            return Err(IndexError::UnknownChunk);
        }
        let mut row = entry.clone();
        row.deleted = false;
        self.files.put(row);
        Ok(())
    }

    /// Marks a file as deleted. Returns whether it was present before.
    pub fn tombstone_file(&mut self, path: &str) -> (r: bool)
        requires
            old(self).wf(),
        ensures
            final(self).wf(),
            r == (old(self)@.files.dom().contains(path@) && !old(self)@.files[path@].deleted),
            final(self)@ == if r {
                IndexView {
                    files: old(self)@.files.insert(path@, tombstone(old(self)@.files[path@])),
                    ..old(self)@
                }
            } else {
                old(self)@
            },
    {
        match self.get_file(path) {
            Some(mut row) => {
                if row.deleted {
                    return false;
                }
                assert(row.path@ == path@);
                row.deleted = true;
                self.files.put(row);
                assert(self@.files =~= old(self)@.files.insert(
                    path@,
                    tombstone(old(self)@.files[path@]),
                ));
                true
            },
            None => false,
        }
    }

    /// Records where a list of chunks is stored, one after the other.
    pub fn insert_chunks(&mut self, list: &Vec<ChunkEntry>)
        requires
            old(self).wf(),
        ensures
            final(self).wf(),
            final(self)@ == (IndexView {
                chunks: with_chunks(old(self)@.chunks, chunk_views(list@)),
                ..old(self)@
            }),
    {
        let ghost views = chunk_views(list@);
        let mut i: usize = 0;
        while i < list.len()
            invariant
                self.wf(),
                i <= list@.len(),
                views == chunk_views(list@),
                self@ == (IndexView {
                    chunks: with_chunks(old(self)@.chunks, views.subrange(0, i as int)),
                    ..old(self)@
                }),
            decreases list@.len() - i,
        {
            self.insert_chunk(&list[i]);
            i += 1;
            proof {
                let now = views.subrange(0, i as int);
                assert(now.drop_last() =~= views.subrange(0, i - 1));
                assert(now.last() == list@[i - 1]@);
            }
        }
        assert(views.subrange(0, i as int) =~= views);
    }

    /// The files that a listing keeps, in the order of their paths.
    fn select(&self, prefix: &str, include_deleted: bool, keep_chunks: bool) -> (r: Vec<FileEntry>)
        requires
            self.wf(),
        ensures
            lists(
                file_views(r@),
                self@.files,
                under(prefix@, include_deleted),
                shown(keep_chunks),
            ),
    {
        let ghost keep = under(prefix@, include_deleted);
        let ghost show = shown(keep_chunks);
        let ghost keys = self.files.keys();
        let ghost mut from = Seq::<int>::empty();
        proof {
            self.files.keys_ascend();
        }
        let mut r: Vec<FileEntry> = Vec::new();
        let mut i: usize = 0;
        while i < self.files.len()
            invariant
                self.wf(),
                i <= keys.len(),
                keys == self.files.keys(),
                keep == under(prefix@, include_deleted),
                show == shown(keep_chunks),
                forall|a: int, b: int|
                    #![trigger keys[a], keys[b]]
                    0 <= a < b < keys.len() ==> lex_less(keys[a], keys[b]),
                forall|a: int|
                    0 <= a < keys.len() ==> self@.files.dom().contains(#[trigger] keys[a]),
                from.len() == r@.len(),
                forall|a: int| 0 <= a < from.len() ==> 0 <= #[trigger] from[a] < i,
                forall|a: int, b: int|
                    #![trigger from[a], from[b]]
                    0 <= a < b < from.len() ==> from[a] < from[b],
                forall|a: int|
                    0 <= a < from.len() ==> {
                        let f = self@.files[keys[#[trigger] from[a]]];
                        keep(f) && r@[a]@ == show(f)
                    },
                forall|j: int|
                    0 <= j < i && keep(self@.files[#[trigger] keys[j]]) ==> exists|a: int|
                        0 <= a < from.len() && #[trigger] from[a] == j,
            decreases keys.len() - i,
        {
            let f = self.files.at(i);
            let ghost old_from = from;
            let wanted: bool = text_starts_with(f.path.as_str(), prefix) && (include_deleted
                || !f.deleted);
            assert(wanted == keep(self@.files[keys[i as int]]));
            if wanted {
                let mut row = f.clone();
                if !keep_chunks {
                    row.chunks = Vec::new();
                    assert(texts(row.chunks@) =~= Seq::<Seq<char>>::empty());
                }
                assert(row@ == show(self@.files[keys[i as int]]));
                r.push(row);
                proof {
                    from = from.push(i as int);
                }
            }
            assert forall|j: int|
                0 <= j < i + 1 && keep(self@.files[#[trigger] keys[j]]) implies exists|a: int|
                0 <= a < from.len() && #[trigger] from[a] == j by {
                if j == i {
                    assert(from[from.len() - 1] == j);
                } else {
                    let a = choose|a: int| 0 <= a < old_from.len() && #[trigger] old_from[a] == j;
                    assert(from[a] == j);
                }
            }
            i += 1;
        }
        proof {
            let list = file_views(r@);
            assert forall|a: int| 0 <= a < list.len() implies #[trigger] list[a] == show(
                self@.files[keys[from[a]]],
            ) && list[a].path == keys[from[a]] by {
                assert(list[a] == r@[a]@);
                let k = keys[from[a]];
                assert(self@.files.dom().contains(k));
                assert(self@.files[k].path == k);
            }
            assert forall|a: int, b: int|
                #![trigger list[a], list[b]]
                0 <= a < b < list.len() implies lex_less(list[a].path, list[b].path) by {
                let x = from[a];
                let y = from[b];
                assert(lex_less(keys[x], keys[y]));
            }
            assert forall|path: Seq<char>| #[trigger]
                self@.files.dom().contains(path) && keep(self@.files[path]) implies exists|a: int|
                0 <= a < list.len() && (#[trigger] list[a]).path == path by {
                self.files.keys_ascend();
                assert(self.files@.dom().contains(path));
                let j = choose|j: int| 0 <= j < keys.len() && #[trigger] keys[j] == path;
                assert(keys[j] == path);
                let a = choose|a: int| 0 <= a < from.len() && #[trigger] from[a] == j;
                assert(from[a] == j);
                assert(list[a].path == path);
            }
        }
        r
    }

    /// The files under a prefix in the order of their paths, without their chunk lists.
    pub fn list_files(&self, prefix: Option<&str>, include_deleted: bool) -> (r: Vec<FileEntry>)
        requires
            self.wf(),
        ensures
            lists(
                file_views(r@),
                self@.files,
                under(
                    match prefix {
                        Some(text) => text@,
                        None => ""@,
                    },
                    include_deleted,
                ),
                shown(false),
            ),
    {
        match prefix {
            Some(text) => self.select(text, include_deleted, false),
            None => self.select("", include_deleted, false),
        }
    }

    /// The present files under a prefix in the order of their paths, with their chunk lists.
    pub fn list_with_chunks(&self, prefix: &str) -> (r: Vec<FileEntry>)
        requires
            self.wf(),
        ensures
            lists(file_views(r@), self@.files, under(prefix@, false), shown(true)),
    {
        self.select(prefix, false, true)
    }

    /// Marks the files under `prefix` that are not in `alive` as deleted. Returns how many were
    /// present before.
    pub fn tombstone_missing(&mut self, prefix: &str, alive: &Vec<String>) -> (r: usize)
        requires
            old(self).wf(),
        ensures
            final(self).wf(),
            final(self)@ == (IndexView {
                files: marked(
                    old(self)@.files,
                    missing_paths(old(self)@.files, prefix@, texts(alive@)),
                ),
                ..old(self)@
            }),
            r == missing_paths(old(self)@.files, prefix@, texts(alive@)).len(),
    {
        let listed = self.select(prefix, false, false);
        let ghost list = file_views(listed@);
        let ghost mut done = Set::<Seq<char>>::empty();
        let ghost missing = missing_paths(old(self)@.files, prefix@, texts(alive@));
        assert(marked(self@.files, done) =~= self@.files);
        let mut count: usize = 0;
        let mut i: usize = 0;
        while i < listed.len()
            invariant
                self.wf(),
                old(self).wf(),
                i <= listed@.len(),
                list == file_views(listed@),
                lists(list, old(self)@.files, under(prefix@, false), shown(false)),
                missing == missing_paths(old(self)@.files, prefix@, texts(alive@)),
                self@ == (IndexView { files: marked(old(self)@.files, done), ..old(self)@ }),
                done.finite(),
                count == done.len(),
                count <= i,
                forall|path: Seq<char>| #[trigger]
                    done.contains(path) <==> missing.contains(path) && exists|j: int|
                        0 <= j < i && (#[trigger] list[j]).path == path,
            decreases listed@.len() - i,
        {
            let ghost before = done;
            let ghost path = list[i as int].path;
            assert(listed@[i as int].path@ == path);
            assert(old(self)@.files.dom().contains(path));
            proof {
                old(self).is_sound();
                if done.contains(path) {
                    let j = choose|j: int| 0 <= j < i && (#[trigger] list[j]).path == path;
                    lex_less_irreflexive(path);
                }
            }
            if !contains_text(alive, listed[i].path.as_str()) {
                assert(is_missing(old(self)@.files[path], prefix@, texts(alive@)));
                assert(missing.contains(path));
                let _ = self.tombstone_file(listed[i].path.as_str());
                count += 1;
                proof {
                    done = done.insert(path);
                    assert(self@.files =~= marked(old(self)@.files, done));
                }
            } else {
                assert(!missing.contains(path));
            }
            assert forall|p: Seq<char>| #[trigger] done.contains(p) <==> missing.contains(p)
                && exists|j: int| 0 <= j < i + 1 && (#[trigger] list[j]).path == p by {
                if missing.contains(p) && exists|j: int|
                    0 <= j < i + 1 && (#[trigger] list[j]).path == p {
                    let j = choose|j: int| 0 <= j < i + 1 && (#[trigger] list[j]).path == p;
                    if j < i {
                        assert(list[j].path == p);
                        assert(before.contains(p));
                    }
                }
                if done.contains(p) {
                    if p == path {
                        assert(list[i as int].path == p);
                    } else {
                        assert(before.contains(p));
                        let j = choose|j: int| 0 <= j < i && (#[trigger] list[j]).path == p;
                        assert(list[j].path == p);
                    }
                }
            }
            i += 1;
        }
        proof {
            old(self).is_sound();
            assert forall|p: Seq<char>| #[trigger] done.contains(p) <==> missing.contains(p) by {
                if missing.contains(p) {
                    assert(old(self)@.files.dom().contains(p));
                    assert(under(prefix@, false)(old(self)@.files[p]));
                }
            }
            assert(done =~= missing);
        }
        count
    }

    /// Path, size and time of every present file, in the order of the paths.
    pub fn stat_map(&self) -> (r: Vec<FileStat>)
        requires
            self.wf(),
        ensures
            lists_stats(r@, self@.files),
    {
        let listed = self.select("", false, false);
        let ghost list = file_views(listed@);
        let mut r: Vec<FileStat> = Vec::new();
        let mut i: usize = 0;
        while i < listed.len()
            invariant
                i <= listed@.len(),
                r@.len() == i,
                list == file_views(listed@),
                forall|j: int|
                    0 <= j < i ==> {
                        &&& (#[trigger] r@[j]).path@ == list[j].path
                        &&& r@[j].size == list[j].size
                        &&& r@[j].mtime == list[j].mtime
                    },
            decreases listed@.len() - i,
        {
            let f = &listed[i];
            assert(list[i as int] == listed@[i as int]@);
            r.push(FileStat { path: f.path.clone(), size: f.size, mtime: f.mtime });
            i += 1;
        }
        proof {
            assert forall|i: int, j: int|
                #![trigger r@[i], r@[j]]
                0 <= i < j < r@.len() implies lex_less(r@[i].path@, r@[j].path@) by {
                assert(lex_less(list[i].path, list[j].path));
            }
            assert forall|i: int| 0 <= i < r@.len() implies {
                let f = self@.files[(#[trigger] r@[i]).path@];
                &&& self@.files.dom().contains(r@[i].path@)
                &&& !f.deleted
                &&& r@[i].size == f.size
                &&& r@[i].mtime == f.mtime
            } by {
                assert(self@.files.dom().contains(list[i].path));
            }
            assert forall|path: Seq<char>| #[trigger]
                self@.files.dom().contains(path) && !self@.files[path].deleted implies exists|
                i: int,
            |
                0 <= i < r@.len() && (#[trigger] r@[i]).path@ == path by {
                reveal_strlit("");
                assert(""@ =~= self@.files[path].path.subrange(0, 0));
                assert(under(""@, false)(self@.files[path]));
                let i = choose|i: int| 0 <= i < list.len() && (#[trigger] list[i]).path == path;
                assert(r@[i].path@ == path);
            }
        }
        r
    }

    /// How far the interrupted upload with a name came: its file id, part count, and the number
    /// of parts done.
    pub fn journal_get(&self, hash: &str) -> (r: Option<(i64, i32, i32)>)
        requires
            self.wf(),
        ensures
            r == if self@.journal.dom().contains(hash@) {
                let entry = self@.journal[hash@];
                Some((entry.file_id, entry.total_parts, entry.done_parts))
            } else {
                None
            },
    {
        match self.journal.get(hash) {
            Some(entry) => Some((entry.file_id, entry.total_parts, entry.done_parts)),
            None => None,
        }
    }

    /// Starts a journal entry, in place of an earlier one for the same upload.
    pub fn journal_start(&mut self, hash: &str, file_id: i64, total_parts: i32)
        requires
            old(self).wf(),
        ensures
            final(self).wf(),
            final(self)@ == (IndexView {
                journal: old(self)@.journal.insert(
                    hash@,
                    JournalView { hash: hash@, file_id, total_parts, done_parts: 0 },
                ),
                ..old(self)@
            }),
    {
        self.journal.put(
            JournalEntry { hash: hash.to_owned(), file_id, total_parts, done_parts: 0 },
        );
        proof {
            sound_kept(old(self)@, self@);
        }
    }

    /// Notes how many parts of an upload are done, if it has a journal entry.
    pub fn journal_progress(&mut self, hash: &str, done_parts: i32)
        requires
            old(self).wf(),
        ensures
            final(self).wf(),
            final(self)@ == if old(self)@.journal.dom().contains(hash@) {
                IndexView {
                    journal: old(self)@.journal.insert(
                        hash@,
                        JournalView { hash: hash@, done_parts, ..old(self)@.journal[hash@] },
                    ),
                    ..old(self)@
                }
            } else {
                old(self)@
            },
    {
        let found = self.journal_get(hash);
        if let Some((file_id, total_parts, _)) = found {
            self.journal.put(
                JournalEntry { hash: hash.to_owned(), file_id, total_parts, done_parts },
            );
        }
    }

    /// Drops the journal entry of a finished upload.
    pub fn journal_clear(&mut self, hash: &str)
        requires
            old(self).wf(),
        ensures
            final(self).wf(),
            final(self)@ == (IndexView {
                journal: old(self)@.journal.remove(hash@),
                ..old(self)@
            }),
    {
        self.journal.remove(hash);
        proof {
            sound_kept(old(self)@, self@);
        }
    }

    /// Notes that a snapshot was published or pulled.
    pub fn record_snapshot(&mut self, version: u64, created_at: i64, msg_id: i32)
        requires
            old(self).wf(),
        ensures
            final(self).wf(),
            final(self)@ == (IndexView {
                snapshots: old(self)@.snapshots.push(
                    SnapshotRecord { version, created_at, msg_id },
                ),
                ..old(self)@
            }),
    {
        self.snapshots.push(SnapshotRecord { version, created_at, msg_id });
        proof {
            sound_kept(old(self)@, self@);
        }
    }

    /// The snapshots that were published or pulled, oldest first.
    pub fn snapshots(&self) -> (r: &Vec<SnapshotRecord>)
        ensures
            r@ == self@.snapshots,
    {
        &self.snapshots
    }

    /// The version of the index.
    pub fn version(&self) -> (r: u64)
        ensures
            r == self@.version,
    {
        self.version
    }

    /// Sets the version of the index.
    pub fn set_version(&mut self, version: u64)
        requires
            old(self).wf(),
        ensures
            final(self).wf(),
            final(self)@ == (IndexView { version, ..old(self)@ }),
    {
        self.version = version;
        proof {
            sound_kept(old(self)@, self@);
        }
    }

    /// Every chunk, in the order of the hashes.
    fn all_chunks(&self) -> (r: Vec<ChunkEntry>)
        requires
            self.wf(),
        ensures
            lists_chunks(chunk_views(r@), self@.chunks),
    {
        let ghost keys = self.chunks.keys();
        proof {
            self.chunks.keys_ascend();
        }
        let mut r: Vec<ChunkEntry> = Vec::new();
        let mut i: usize = 0;
        while i < self.chunks.len()
            invariant
                self.wf(),
                keys == self.chunks.keys(),
                i <= keys.len(),
                r@.len() == i,
                forall|j: int|
                    0 <= j < i ==> {
                        &&& (#[trigger] r@[j])@.hash == keys[j]
                        &&& r@[j]@ == self@.chunks[keys[j]]
                    },
            decreases keys.len() - i,
        {
            let c = self.chunks.at(i);
            r.push(c.clone());
            i += 1;
        }
        proof {
            let list = chunk_views(r@);
            assert forall|j: int| 0 <= j < list.len() implies #[trigger] list[j]
                == self@.chunks[keys[j]] && list[j].hash == keys[j] by {
                assert(list[j] == r@[j]@);
            }
            assert forall|hash: Seq<char>| #[trigger]
                self@.chunks.dom().contains(hash) implies exists|i: int|
                0 <= i < list.len() && (#[trigger] list[i]).hash == hash by {
                assert(self.chunks@.dom().contains(hash));
                let j = choose|j: int| 0 <= j < keys.len() && #[trigger] keys[j] == hash;
                assert(list[j].hash == hash);
            }
            assert forall|i: int, j: int|
                #![trigger list[i], list[j]]
                0 <= i < j < list.len() implies lex_less(list[i].hash, list[j].hash) by {
                assert(lex_less(keys[i], keys[j]));
            }
            assert forall|i: int| 0 <= i < list.len() implies {
                &&& self@.chunks.dom().contains((#[trigger] list[i]).hash)
                &&& list[i] == self@.chunks[list[i].hash]
            } by {
                assert(self.chunks@.dom().contains(keys[i]));
            }
        }
        r
    }

    /// The whole index, deleted files too, as it is published at a time.
    pub fn export(&self, created_at: i64) -> (r: Snapshot)
        requires
            self.wf(),
        ensures
            r.version == self@.version,
            r.created_at == created_at,
            lists(r@.files, self@.files, under(""@, true), shown(true)),
            lists_chunks(r@.chunks, self@.chunks),
    {
        Snapshot {
            version: self.version,
            created_at,
            files: self.select("", true, true),
            chunks: self.all_chunks(),
        }
    }

    /// Replaces files, chunks and version by those of a snapshot. Where a path or hash occurs
    /// twice the later one counts. Nothing changes if a file lists a chunk that the snapshot
    /// does not hold.
    pub fn import(&mut self, snapshot: &Snapshot) -> (r: Result<(), IndexError>)
        requires
            old(self).wf(),
        ensures
            final(self).wf(),
            if is_complete(snapshot@) {
                &&& r is Ok
                &&& final(self)@ == old(self)@.imported(snapshot@)
            } else {
                &&& r == Err::<(), IndexError>(IndexError::UnknownChunk)
                &&& final(self)@ == old(self)@
            },
    {
        let mut fresh = Index::new();
        fresh.insert_chunks(&snapshot.chunks);
        let ghost stored = with_chunks(Map::empty(), snapshot@.chunks);
        let ghost views = snapshot@.files;
        let mut i: usize = 0;
        while i < snapshot.files.len()
            invariant
                fresh.wf(),
                i <= snapshot.files@.len(),
                views == snapshot@.files,
                stored == with_chunks(Map::empty(), snapshot@.chunks),
                fresh@.chunks == stored,
                fresh@.files == with_files(Map::empty(), views.subrange(0, i as int)),
                forall|j: int| 0 <= j < i ==> all_stored(stored, (#[trigger] views[j]).chunks),
                *self == *old(self),
                old(self).wf(),
            decreases snapshot.files@.len() - i,
        {
            let f = &snapshot.files[i];
            assert(views[i as int] == f@);
            if !fresh.stores_all(&f.chunks) {
                return Err(IndexError::UnknownChunk);
            }
            let ghost prior = fresh@;
            fresh.files.put(f.clone());
            i += 1;
            proof {
                let now = views.subrange(0, i as int);
                assert(now.drop_last() =~= views.subrange(0, i - 1));
                assert(now.last() == views[i - 1]);
                assert(fresh@.files == prior.files.insert(f@.path, f@));
                assert(fresh@.sound());
            }
        }
        assert(views.subrange(0, i as int) =~= views);
        self.files = fresh.files;
        self.chunks = fresh.chunks;
        self.version = snapshot.version;
        Ok(())
    }
}

/// Whether a text is in a list.
pub(crate) fn contains_text(list: &Vec<String>, text: &str) -> (r: bool)
    ensures
        r == texts(list@).contains(text@),
{
    let mut i: usize = 0;
    while i < list.len()
        invariant
            i <= list@.len(),
            forall|j: int| 0 <= j < i ==> (#[trigger] list@[j])@ != text@,
        decreases list@.len() - i,
    {
        if text_eq(list[i].as_str(), text) {
            assert(texts(list@)[i as int] == text@);
            return true;
        }
        i += 1;
    }
    assert forall|j: int| 0 <= j < texts(list@).len() implies texts(list@)[j] != text@ by {
        assert(texts(list@)[j] == list@[j]@);
    }
    false
}

/// Recording the files of a list that enumerates them gives the files.
proof fn with_files_of_list(
    list: Seq<FileView>,
    files: Map<Seq<char>, FileView>,
    n: int,
)
    requires
        lists(list, files, under(""@, true), shown(true)),
        0 <= n <= list.len(),
    ensures
        forall|path: Seq<char>| #[trigger]
            with_files(Map::empty(), list.subrange(0, n)).dom().contains(path) <==> exists|i: int|
                0 <= i < n && (#[trigger] list[i]).path == path,
        forall|path: Seq<char>| #[trigger]
            with_files(Map::empty(), list.subrange(0, n)).dom().contains(path) ==> with_files(
                Map::empty(),
                list.subrange(0, n),
            )[path] == files[path],
    decreases n,
{
    let now = list.subrange(0, n);
    if n > 0 {
        with_files_of_list(list, files, n - 1);
        assert(now.drop_last() =~= list.subrange(0, n - 1));
        assert(now.last() == list[n - 1]);
        let earlier = with_files(Map::empty(), list.subrange(0, n - 1));
        assert(with_files(Map::empty(), now) == earlier.insert(list[n - 1].path, list[n - 1]));
        assert forall|path: Seq<char>| #[trigger]
            with_files(Map::empty(), now).dom().contains(path) <==> exists|i: int|
                0 <= i < n && (#[trigger] list[i]).path == path by {
            if exists|i: int| 0 <= i < n && (#[trigger] list[i]).path == path {
                let i = choose|i: int| 0 <= i < n && (#[trigger] list[i]).path == path;
                if i < n - 1 {
                    assert(list[i].path == path);
                    assert(earlier.dom().contains(path));
                }
            }
            if with_files(Map::empty(), now).dom().contains(path) {
                if path == list[n - 1].path {
                } else {
                    assert(earlier.dom().contains(path));
                    let i = choose|i: int| 0 <= i < n - 1 && (#[trigger] list[i]).path == path;
                    assert(list[i].path == path);
                }
            }
        }
        assert(shown(true)(files[list[n - 1].path]) == files[list[n - 1].path]);
    }
}

/// Recording the chunks of a list that enumerates them gives the chunks.
proof fn with_chunks_of_list(list: Seq<ChunkView>, chunks: Map<Seq<char>, ChunkView>, n: int)
    requires
        lists_chunks(list, chunks),
        0 <= n <= list.len(),
    ensures
        forall|hash: Seq<char>| #[trigger]
            with_chunks(Map::empty(), list.subrange(0, n)).dom().contains(hash) <==> exists|i: int|
                0 <= i < n && (#[trigger] list[i]).hash == hash,
        forall|hash: Seq<char>| #[trigger]
            with_chunks(Map::empty(), list.subrange(0, n)).dom().contains(hash) ==> with_chunks(
                Map::empty(),
                list.subrange(0, n),
            )[hash] == chunks[hash],
    decreases n,
{
    let now = list.subrange(0, n);
    if n > 0 {
        with_chunks_of_list(list, chunks, n - 1);
        assert(now.drop_last() =~= list.subrange(0, n - 1));
        assert(now.last() == list[n - 1]);
        let earlier = with_chunks(Map::empty(), list.subrange(0, n - 1));
        assert(with_chunks(Map::empty(), now) == earlier.insert(list[n - 1].hash, list[n - 1]));
        assert forall|hash: Seq<char>| #[trigger]
            with_chunks(Map::empty(), now).dom().contains(hash) <==> exists|i: int|
                0 <= i < n && (#[trigger] list[i]).hash == hash by {
            if exists|i: int| 0 <= i < n && (#[trigger] list[i]).hash == hash {
                let i = choose|i: int| 0 <= i < n && (#[trigger] list[i]).hash == hash;
                if i < n - 1 {
                    assert(list[i].hash == hash);
                    assert(earlier.dom().contains(hash));
                }
            }
            if with_chunks(Map::empty(), now).dom().contains(hash) {
                if hash == list[n - 1].hash {
                } else {
                    assert(earlier.dom().contains(hash));
                    let i = choose|i: int| 0 <= i < n - 1 && (#[trigger] list[i]).hash == hash;
                    assert(list[i].hash == hash);
                }
            }
        }
    }
}

/// What is exported can be imported, and gives the same files, chunks and version on whichever
/// index it is imported into.
pub proof fn export_then_import(index: IndexView, snapshot: SnapshotView)
    requires
        index.sound(),
        lists(snapshot.files, index.files, under(""@, true), shown(true)),
        lists_chunks(snapshot.chunks, index.chunks),
    ensures
        is_complete(snapshot),
        with_files(Map::empty(), snapshot.files) == index.files,
        with_chunks(Map::empty(), snapshot.chunks) == index.chunks,
{
    let files = snapshot.files;
    let chunks = snapshot.chunks;
    with_files_of_list(files, index.files, files.len() as int);
    with_chunks_of_list(chunks, index.chunks, chunks.len() as int);
    assert(files.subrange(0, files.len() as int) =~= files);
    assert(chunks.subrange(0, chunks.len() as int) =~= chunks);
    assert forall|path: Seq<char>| #[trigger]
        index.files.dom().contains(path) implies with_files(
        Map::empty(),
        files,
    ).dom().contains(path) by {
        reveal_strlit("");
        assert(""@ =~= index.files[path].path.subrange(0, 0));
        assert(under(""@, true)(index.files[path]));
        let i = choose|i: int| 0 <= i < files.len() && (#[trigger] files[i]).path == path;
        assert(files[i].path == path);
    }
    assert(with_files(Map::empty(), files) =~= index.files);
    assert(with_chunks(Map::empty(), chunks) =~= index.chunks);
    assert forall|i: int| 0 <= i < files.len() implies all_stored(
        with_chunks(Map::empty(), chunks),
        (#[trigger] files[i]).chunks,
    ) by {
        assert(index.files.dom().contains(files[i].path));
        assert(shown(true)(index.files[files[i].path]) == index.files[files[i].path]);
    }
}

/// A recorded file is found under its path as it was recorded, present, and no other file changes.
pub proof fn recorded_file_is_found(
    files: Map<Seq<char>, FileView>,
    entry: FileView,
    other: Seq<char>,
)
    ensures
        files.insert(entry.path, present(entry)).dom().contains(entry.path),
        files.insert(entry.path, present(entry))[entry.path] == present(entry),
        other != entry.path ==> (files.insert(entry.path, present(entry)).dom().contains(other)
            <==> files.dom().contains(other)),
        other != entry.path && files.dom().contains(other) ==> files.insert(
            entry.path,
            present(entry),
        )[other] == files[other],
{
}

/// Files that were marked as deleted are in no listing of present files, and are in every listing
/// that asks for deleted ones too.
pub proof fn marked_files_are_hidden(
    files: Map<Seq<char>, FileView>,
    paths: Set<Seq<char>>,
    prefix: Seq<char>,
    list: Seq<FileView>,
    all: Seq<FileView>,
    path: Seq<char>,
)
    requires
        forall|p: Seq<char>| #[trigger] files.dom().contains(p) ==> files[p].path == p,
        lists(list, marked(files, paths), under(prefix, false), shown(false)),
        lists(all, marked(files, paths), under(prefix, true), shown(false)),
        files.dom().contains(path),
        paths.contains(path),
        prefix.is_prefix_of(path),
    ensures
        forall|i: int| 0 <= i < list.len() ==> (#[trigger] list[i]).path != path,
        exists|i: int| 0 <= i < all.len() && (#[trigger] all[i]).path == path && all[i].deleted,
{
    let now = marked(files, paths);
    assert forall|i: int| 0 <= i < list.len() implies (#[trigger] list[i]).path != path by {
        if list[i].path == path {
            assert(under(prefix, false)(now[list[i].path]));
        }
    }
    assert(now.dom().contains(path));
    assert(under(prefix, true)(now[path]));
    let i = choose|i: int| 0 <= i < all.len() && (#[trigger] all[i]).path == path;
    assert(all[i] == shown(false)(now[path]));
}

/// `SystemTime::elapsed` on the Unix epoch: the whole seconds since then by the machine's clock,
/// or nothing if the clock stands before it. Nothing else can be said of the result.
#[verifier::external_body]
fn seconds_since_epoch() -> (r: Option<u64>) {
    match std::time::UNIX_EPOCH.elapsed() {
        Ok(elapsed) => Some(elapsed.as_secs()),
        Err(_) => None,
    }
}

/// A count of seconds since the Unix epoch as a timestamp; zero where there is none.
pub fn unix_timestamp(seconds: Option<u64>) -> (r: i64)
    ensures
        match seconds {
            Some(n) => r == if n <= i64::MAX { n as int } else { n - 0x1_0000_0000_0000_0000 },
            None => r == 0,
        },
{
    match seconds {
        Some(n) => {
            if n <= i64::MAX as u64 {
                n as i64
            } else {
                (n - 0x8000_0000_0000_0000) as i64 + i64::MIN
            }
        },
        None => 0,
    }
}

/// The current time in seconds since the Unix epoch.
pub fn now_unix() -> (r: i64) {
    unix_timestamp(seconds_since_epoch())
}

/// What a listing shows: the files whose path begins with the prefix, the deleted ones only where
/// they are asked for, in ascending order of their paths; each as it is recorded, with its chunk
/// list or without.
pub proof fn listing_is_exact(
    list: Seq<FileView>,
    files: Map<Seq<char>, FileView>,
    prefix: Seq<char>,
    include_deleted: bool,
    with_chunks: bool,
)
    requires
        forall|path: Seq<char>| #[trigger] files.dom().contains(path) ==> files[path].path == path,
        lists(list, files, under(prefix, include_deleted), shown(with_chunks)),
    ensures
        forall|i: int|
            0 <= i < list.len() ==> {
                let f = #[trigger] list[i];
                let recorded = files[f.path];
                &&& files.dom().contains(f.path)
                &&& prefix.len() <= f.path.len() && f.path.subrange(0, prefix.len() as int)
                    == prefix
                &&& f.deleted ==> include_deleted
                &&& f.size == recorded.size && f.mtime == recorded.mtime && f.hash == recorded.hash
                &&& f.deleted == recorded.deleted
                &&& f.chunks == if with_chunks {
                    recorded.chunks
                } else {
                    Seq::<Seq<char>>::empty()
                }
            },
        forall|path: Seq<char>| #[trigger]
            files.dom().contains(path) && prefix.len() <= path.len() && path.subrange(
                0,
                prefix.len() as int,
            ) == prefix && (include_deleted || !files[path].deleted) ==> exists|i: int|
                0 <= i < list.len() && (#[trigger] list[i]).path == path,
        forall|i: int, j: int|
            #![trigger list[i], list[j]]
            0 <= i < j < list.len() ==> lex_less(list[i].path, list[j].path),
{
    assert forall|i: int| 0 <= i < list.len() implies ({
        let f = #[trigger] list[i];
        let recorded = files[f.path];
        &&& files.dom().contains(f.path)
        &&& prefix.len() <= f.path.len() && f.path.subrange(0, prefix.len() as int) == prefix
        &&& f.deleted ==> include_deleted
        &&& f.size == recorded.size && f.mtime == recorded.mtime && f.hash == recorded.hash
        &&& f.deleted == recorded.deleted
        &&& f.chunks == if with_chunks {
            recorded.chunks
        } else {
            Seq::<Seq<char>>::empty()
        }
    }) by {
        assert(prefix.is_prefix_of(files[list[i].path].path));
    }
    assert forall|path: Seq<char>| #[trigger]
        files.dom().contains(path) && prefix.len() <= path.len() && path.subrange(
            0,
            prefix.len() as int,
        ) == prefix && (include_deleted || !files[path].deleted) implies exists|i: int|
        0 <= i < list.len() && (#[trigger] list[i]).path == path by {
        assert(prefix.is_prefix_of(path));
        assert(under(prefix, include_deleted)(files[path]));
    }
}

/// Marking what is missing changes nothing but whether files are deleted: one is deleted afterwards
/// just if it was before, or if its path begins with the prefix and is not among those alive.
pub proof fn missing_files_are_marked(
    files: Map<Seq<char>, FileView>,
    prefix: Seq<char>,
    alive: Seq<Seq<char>>,
)
    requires
        forall|path: Seq<char>| #[trigger] files.dom().contains(path) ==> files[path].path == path,
    ensures
        ({
            let after = marked(files, missing_paths(files, prefix, alive));
            &&& after.dom() == files.dom()
            &&& forall|path: Seq<char>| #[trigger]
                files.dom().contains(path) ==> {
                    let f = files[path];
                    let gone = prefix.len() <= path.len() && path.subrange(
                        0,
                        prefix.len() as int,
                    ) == prefix && !alive.contains(path);
                    &&& after[path].deleted <==> f.deleted || gone
                    &&& after[path].path == path && after[path].size == f.size
                        && after[path].mtime == f.mtime && after[path].hash == f.hash
                        && after[path].chunks == f.chunks
                }
            &&& forall|path: Seq<char>| #[trigger]
                missing_paths(files, prefix, alive).contains(path) <==> files.dom().contains(path)
                    && !files[path].deleted && after[path].deleted
        }),
{
    let gone = missing_paths(files, prefix, alive);
    let after = marked(files, gone);
    assert(after.dom() =~= files.dom());
    assert forall|path: Seq<char>| #[trigger] files.dom().contains(path) implies (
    after[path].deleted <==> files[path].deleted || (prefix.len() <= path.len() && path.subrange(
        0,
        prefix.len() as int,
    ) == prefix && !alive.contains(path))) by {
        assert(prefix.is_prefix_of(path) <==> prefix.len() <= path.len() && path.subrange(
            0,
            prefix.len() as int,
        ) == prefix);
        assert(gone.contains(path) <==> is_missing(files[path], prefix, alive));
    }
    assert forall|path: Seq<char>| #[trigger] gone.contains(path) <==> files.dom().contains(path)
        && !files[path].deleted && after[path].deleted by {
        if files.dom().contains(path) {
            assert(gone.contains(path) <==> is_missing(files[path], prefix, alive));
        }
    }
}

/// To mark a file as deleted or present changes that mark alone, and one undoes the other.
pub proof fn marking_keeps_the_record(f: FileView)
    ensures
        tombstone(f).deleted && !present(f).deleted,
        tombstone(f).path == f.path && present(f).path == f.path,
        tombstone(f).size == f.size && present(f).size == f.size,
        tombstone(f).mtime == f.mtime && present(f).mtime == f.mtime,
        tombstone(f).hash == f.hash && present(f).hash == f.hash,
        tombstone(f).chunks == f.chunks && present(f).chunks == f.chunks,
        f.deleted ==> tombstone(f) == f && tombstone(present(f)) == f,
        !f.deleted ==> present(f) == f && present(tombstone(f)) == f,
{
}

/// Of chunks that are recorded one after the other, the last with a hash is what the index has for
/// it; where none has the hash, it keeps what it had.
pub proof fn last_chunk_wins(
    chunks: Map<Seq<char>, ChunkView>,
    list: Seq<ChunkView>,
    hash: Seq<char>,
    i: int,
)
    requires
        -1 <= i < list.len(),
        i >= 0 ==> list[i].hash == hash,
        forall|j: int| i < j < list.len() ==> (#[trigger] list[j]).hash != hash,
    ensures
        i >= 0 ==> with_chunks(chunks, list).dom().contains(hash) && with_chunks(chunks, list)[hash]
            == list[i],
        i < 0 ==> with_chunks(chunks, list).dom().contains(hash) == chunks.dom().contains(hash),
        i < 0 && chunks.dom().contains(hash) ==> with_chunks(chunks, list)[hash] == chunks[hash],
    decreases list.len(),
{
    if list.len() > 0 && i < list.len() - 1 {
        let front = list.drop_last();
        assert(list[list.len() - 1].hash != hash);
        assert forall|j: int| i < j < front.len() implies (#[trigger] front[j]).hash != hash by {
            assert(front[j] == list[j]);
        }
        last_chunk_wins(chunks, front, hash, i);
    }
}

/// Of files that are recorded one after the other, the last with a path is what the index has for
/// it; where none has the path, it keeps what it had.
pub proof fn last_file_wins(
    files: Map<Seq<char>, FileView>,
    list: Seq<FileView>,
    path: Seq<char>,
    i: int,
)
    requires
        -1 <= i < list.len(),
        i >= 0 ==> list[i].path == path,
        forall|j: int| i < j < list.len() ==> (#[trigger] list[j]).path != path,
    ensures
        i >= 0 ==> with_files(files, list).dom().contains(path) && with_files(files, list)[path]
            == list[i],
        i < 0 ==> with_files(files, list).dom().contains(path) == files.dom().contains(path),
        i < 0 && files.dom().contains(path) ==> with_files(files, list)[path] == files[path],
    decreases list.len(),
{
    if list.len() > 0 && i < list.len() - 1 {
        let front = list.drop_last();
        assert(list[list.len() - 1].path != path);
        assert forall|j: int| i < j < front.len() implies (#[trigger] front[j]).path != path by {
            assert(front[j] == list[j]);
        }
        last_file_wins(files, front, path, i);
    }
}

/// A recorded chunk list has a hash just if one of its chunks does.
proof fn listed_hashes(list: Seq<ChunkView>, hash: Seq<char>)
    ensures
        with_chunks(Map::empty(), list).dom().contains(hash) <==> exists|k: int|
            0 <= k < list.len() && (#[trigger] list[k]).hash == hash,
    decreases list.len(),
{
    if list.len() > 0 {
        let front = list.drop_last();
        listed_hashes(front, hash);
        if exists|k: int| 0 <= k < list.len() && (#[trigger] list[k]).hash == hash {
            let k = choose|k: int| 0 <= k < list.len() && (#[trigger] list[k]).hash == hash;
            if k < front.len() {
                assert(front[k].hash == hash);
            }
        }
        if exists|k: int| 0 <= k < front.len() && (#[trigger] front[k]).hash == hash {
            let k = choose|k: int| 0 <= k < front.len() && (#[trigger] front[k]).hash == hash;
            assert(list[k].hash == hash);
        }
        if list.last().hash == hash {
            assert(list[list.len() - 1].hash == hash);
        }
    }
}

/// A snapshot is accepted just if every chunk that one of its files lists is among its chunks.
pub proof fn complete_snapshot_has_every_chunk(snapshot: SnapshotView)
    ensures
        is_complete(snapshot) <==> forall|i: int, j: int|
            #![trigger snapshot.files[i].chunks[j]]
            0 <= i < snapshot.files.len() && 0 <= j < snapshot.files[i].chunks.len() ==> exists|
                k: int,
            |
                0 <= k < snapshot.chunks.len() && (#[trigger] snapshot.chunks[k]).hash
                    == snapshot.files[i].chunks[j],
{
    let known = with_chunks(Map::empty(), snapshot.chunks);
    assert forall|i: int, j: int|
        #![trigger snapshot.files[i].chunks[j]]
        0 <= i < snapshot.files.len() && 0 <= j < snapshot.files[i].chunks.len() implies (
    known.dom().contains(snapshot.files[i].chunks[j]) <==> exists|k: int|
        0 <= k < snapshot.chunks.len() && (#[trigger] snapshot.chunks[k]).hash
            == snapshot.files[i].chunks[j]) by {
        listed_hashes(snapshot.chunks, snapshot.files[i].chunks[j]);
    }
    if is_complete(snapshot) {
        assert forall|i: int, j: int|
            #![trigger snapshot.files[i].chunks[j]]
            0 <= i < snapshot.files.len() && 0 <= j
                < snapshot.files[i].chunks.len() implies exists|k: int|
            0 <= k < snapshot.chunks.len() && (#[trigger] snapshot.chunks[k]).hash
                == snapshot.files[i].chunks[j] by {
            assert(all_stored(known, snapshot.files[i].chunks));
        }
    } else {
        let i = choose|i: int|
            0 <= i < snapshot.files.len() && !all_stored(
                known,
                (#[trigger] snapshot.files[i]).chunks,
            );
        let list = snapshot.files[i].chunks;
        let j = choose|j: int|
            0 <= j < list.len() && !known.dom().contains(#[trigger] list[j]);
        assert(!known.dom().contains(snapshot.files[i].chunks[j]));
    }
}

/// What a scan compares with: the size and the time of each present file, once, and of no other.
pub proof fn stats_are_of_present_files(
    list: Seq<FileStat>,
    files: Map<Seq<char>, FileView>,
    path: Seq<char>,
)
    requires
        lists_stats(list, files),
    ensures
        files.dom().contains(path) && !files[path].deleted <==> exists|i: int|
            {
                &&& 0 <= i < list.len()
                &&& (#[trigger] list[i]).path@ == path
                &&& list[i].size == files[path].size
                &&& list[i].mtime == files[path].mtime
            },
        forall|i: int, j: int|
            #![trigger list[i], list[j]]
            0 <= i < j < list.len() ==> list[i].path@ != list[j].path@,
{
    if files.dom().contains(path) && !files[path].deleted {
        let i = choose|i: int| 0 <= i < list.len() && (#[trigger] list[i]).path@ == path;
        assert(list[i].path@ == path);
    }
    assert forall|i: int, j: int|
        #![trigger list[i], list[j]]
        0 <= i < j < list.len() implies list[i].path@ != list[j].path@ by {
        lex_less_irreflexive(list[i].path@);
    }
}

/// An import leaves nothing of the files and chunks that were there before: it gives those of the
/// index that was exported, and its version. What the importing machine knows of its own uploads
/// and of the snapshots stays.
pub proof fn import_replaces_the_index(index: IndexView, snapshot: SnapshotView, other: IndexView)
    requires
        index.sound(),
        lists(snapshot.files, index.files, under(""@, true), shown(true)),
        lists_chunks(snapshot.chunks, index.chunks),
    ensures
        other.imported(snapshot).files == index.files,
        other.imported(snapshot).chunks == index.chunks,
        other.imported(snapshot).version == snapshot.version,
        other.imported(snapshot).journal == other.journal,
        other.imported(snapshot).snapshots == other.snapshots,
{
    export_then_import(index, snapshot);
}

} // verus!
