//! Synchronization: what a push or pull does, step by step, and what the status shows.
use vstd::prelude::*;
use crate::config::{PackConfig, MAX_DOCUMENT_SIZE};
use crate::diff::{
    classified, counts, is_scan, reports_deleted, reports_deleted_last, scan_is_exact, stats_of,
    walked, without_progress, without_progress_last, Changes, LocalFile, ScanEvent, ScanStats,
};
use crate::file::{
    human_size, is_pack_plan, member_chunks, member_hashes, member_sizes, pack_done, plan_pack,
    settled, shown_size, PackUpload, UploadedFile,
};
use crate::index::{
    all_stored, file_views, marked, present, texts, tombstone, with_chunks, with_files, ChunkView,
    FileEntry, FileView, Index, IndexError, IndexView,
};
use crate::snapshot::RemoteIndexInfo;
use crate::source::{
    contiguous, follows, lengths_agree, pack_len, stored_len, stored_len_of, PackError, PackMember,
};
use crate::text::{
    decimal, is_digit, leading_u64, leading_u64_of_decimal, lex_less_irreflexive, push_decimal,
    text_eq, two_numbers_are_read,
};

verus! {

/// How the local index relates to the pinned snapshot.
#[derive(Debug, Clone, Copy, PartialEq, Eq, Structural)]
pub enum VersionState {
    /// No snapshot is pinned.
    NoRemote,
    UpToDate(u64),
    /// The remote one is newer: local, remote.
    Behind(u64, u64),
    /// The local one is newer: local, remote.
    Ahead(u64, u64),
}

impl VersionState {
    /// Compares a local version with the pinned snapshot.
    pub open spec fn compared(local: u64, remote: Option<RemoteIndexInfo>) -> VersionState {
        match remote {
            None => VersionState::NoRemote,
            Some(info) => if info.version == local {
                VersionState::UpToDate(local)
            } else if info.version > local {
                VersionState::Behind(local, info.version)
            } else {
                VersionState::Ahead(local, info.version)
            },
        }
    }

    /// Compares a local version with the pinned snapshot.
    pub fn of(local: u64, remote: Option<RemoteIndexInfo>) -> (r: Self)
        ensures
            r == VersionState::compared(local, remote),
            r is NoRemote <==> remote is None,
            r is UpToDate <==> remote is Some && remote->0.version == local,
            r is Behind <==> remote is Some && remote->0.version > local,
            r is Ahead <==> remote is Some && remote->0.version < local,
    {
        match remote {
            None => VersionState::NoRemote,
            Some(info) => {
                if info.version == local {
                    VersionState::UpToDate(local)
                } else if info.version > local {
                    VersionState::Behind(local, info.version)
                } else {
                    VersionState::Ahead(local, info.version)
                }
            },
        }
    }

    /// A sentence for the user.
    pub open spec fn text(self) -> Seq<char> {
        match self {
            VersionState::NoRemote => "no remote index snapshot yet"@,
            VersionState::UpToDate(version) => "index up to date with remote (v"@ + decimal(
                version as nat,
            ) + ")"@,
            VersionState::Behind(local, remote) => "index BEHIND remote (local v"@ + decimal(
                local as nat,
            ) + ", remote v"@ + decimal(remote as nat) + ") — run `tgfs pull`"@,
            VersionState::Ahead(local, remote) => "index AHEAD of remote (local v"@ + decimal(
                local as nat,
            ) + ", remote v"@ + decimal(remote as nat)
                + ") — a previous push may not have finished; `tgfs push` will re-publish"@,
        }
    }

    /// A sentence for the user.
    pub fn describe(&self) -> (r: String)
        ensures
            r@ == self.text(),
    {
        match self {
            VersionState::NoRemote => "no remote index snapshot yet".to_owned(),
            VersionState::UpToDate(version) => {
                let mut s = "index up to date with remote (v".to_owned();
                push_decimal(&mut s, *version);
                s.append(")");
                s
            },
            VersionState::Behind(local, remote) => {
                let mut s = "index BEHIND remote (local v".to_owned();
                push_decimal(&mut s, *local);
                s.append(", remote v");
                push_decimal(&mut s, *remote);
                s.append(") — run `tgfs pull`");
                s
            },
            VersionState::Ahead(local, remote) => {
                let mut s = "index AHEAD of remote (local v".to_owned();
                push_decimal(&mut s, *local);
                s.append(", remote v");
                push_decimal(&mut s, *remote);
                s.append(
                    ") — a previous push may not have finished; `tgfs push` will re-publish",
                );
                s
            },
        }
    }
}

/// The comparison tells how the versions relate: up to date just where they are equal, behind just
/// where the pinned one is greater, ahead just where it is smaller; and it names both of them.
pub proof fn comparison_is_true(local: u64, remote: Option<RemoteIndexInfo>)
    ensures
        ({
            let state = VersionState::compared(local, remote);
            &&& state is NoRemote <==> remote is None
            &&& remote is Some ==> {
                let pinned = remote->0.version;
                &&& state is UpToDate <==> pinned == local
                &&& state is Behind <==> pinned > local
                &&& state is Ahead <==> pinned < local
                &&& state is UpToDate ==> state == VersionState::UpToDate(pinned)
                &&& state is Behind ==> state == VersionState::Behind(local, pinned)
                &&& state is Ahead ==> state == VersionState::Ahead(local, pinned)
            }
        }),
{
}

/// Two machines that compare with each other's version see opposite things.
pub proof fn comparison_is_mutual(a: u64, b: u64, msg_id: i32)
    ensures
        ({
            let here = VersionState::compared(a, Some(RemoteIndexInfo { version: b, msg_id }));
            let there = VersionState::compared(b, Some(RemoteIndexInfo { version: a, msg_id }));
            &&& here is Behind <==> there is Ahead
            &&& here is UpToDate <==> there is UpToDate
            &&& here is UpToDate ==> a == b
            &&& a != b ==> here is Behind || there is Behind
        }),
{
}

/// The version that a push builds on is the greater of the two.
pub proof fn newest_is_greatest(local: u64, remote: Option<RemoteIndexInfo>)
    ensures
        newest(local, remote) >= local,
        remote is Some ==> newest(local, remote) >= remote->0.version,
        newest(local, remote) == local || (remote is Some && newest(local, remote)
            == remote->0.version),
{
}

/// Why a push or pull stopped.
#[derive(Debug, Clone, Copy, PartialEq, Eq, Structural)]
pub enum SyncError {
    /// The repository is encrypted and no key was given.
    KeyRequired,
    /// The pinned snapshot is newer: local, remote.
    Behind(u64, u64),
    /// The local index is newer: local, remote.
    Ahead(u64, u64),
    /// A pack could not be made.
    Pack(PackError),
    /// The index refused a file.
    Index(IndexError),
}

impl SyncError {
    /// A sentence for the user.
    pub open spec fn text(self) -> Seq<char> {
        match self {
            SyncError::KeyRequired => "this repo is encrypted; supply --key or --keyfile"@,
            SyncError::Behind(local, remote) => VersionState::Behind(local, remote).text()
                + " (or use --force to overwrite the remote index)"@,
            SyncError::Ahead(local, remote) => "local index (v"@ + decimal(local as nat)
                + ") is ahead of remote (v"@ + decimal(remote as nat)
                + ") — pulling would discard local index state; use --force to roll back"@,
            SyncError::Pack(_) => "cannot pack the changed files"@,
            SyncError::Index(_) => "a file lists a chunk that is not stored"@,
        }
    }

    /// A sentence for the user.
    pub fn message(&self) -> (r: String)
        ensures
            r@ == self.text(),
    {
        match self {
            SyncError::KeyRequired =>
                "this repo is encrypted; supply --key or --keyfile".to_owned(),
            SyncError::Behind(local, remote) => {
                let mut s = VersionState::Behind(*local, *remote).describe();
                s.append(" (or use --force to overwrite the remote index)");
                s
            },
            SyncError::Ahead(local, remote) => {
                let mut s = "local index (v".to_owned();
                push_decimal(&mut s, *local);
                s.append(") is ahead of remote (v");
                push_decimal(&mut s, *remote);
                s.append(
                    ") — pulling would discard local index state; use --force to roll back",
                );
                s
            },
            SyncError::Pack(_) => "cannot pack the changed files".to_owned(),
            SyncError::Index(_) => "a file lists a chunk that is not stored".to_owned(),
        }
    }
}

/// Checks that an encrypted repository is pushed with a key.
pub fn check_push_key(encrypted: bool, has_key: bool) -> (r: Result<(), SyncError>)
    ensures
        r == if encrypted && !has_key {
            Err::<(), SyncError>(SyncError::KeyRequired)
        } else {
            Ok::<(), SyncError>(())
        },
{
    if encrypted && !has_key {
        return Err(SyncError::KeyRequired);
    }
    Ok(())
}

/// The larger of two versions.
pub open spec fn newest(local: u64, remote: Option<RemoteIndexInfo>) -> u64 {
    match remote {
        Some(info) => if info.version > local {
            info.version
        } else {
            local
        },
        None => local,
    }
}

/// Decides whether a push may go on: not over a newer snapshot, unless forced. Returns how the
/// versions relate, and the version that the push publishes, which is newer than both.
pub fn push_gate(local: u64, remote: Option<RemoteIndexInfo>, force: bool) -> (r: Result<
    (VersionState, u64),
    SyncError,
>)
    requires
        newest(local, remote) < u64::MAX || (!force && VersionState::compared(
            local,
            remote,
        ) is Behind),
    ensures
        match VersionState::compared(local, remote) {
            VersionState::Behind(l, v) if !force => r == Err::<(VersionState, u64), SyncError>(
                SyncError::Behind(l, v),
            ),
            state => r == Ok::<(VersionState, u64), SyncError>(
                (state, (newest(local, remote) + 1) as u64),
            ),
        },
        r is Ok ==> (r->Ok_0).1 > local && (remote is Some ==> (r->Ok_0).1 > remote->0.version),
        r is Ok <==> force || remote is None || remote->0.version <= local,
        r is Ok ==> (r->Ok_0).1 == local + 1 || (remote is Some && (r->Ok_0).1
            == remote->0.version + 1),
{
    let state = VersionState::of(local, remote);
    if let VersionState::Behind(l, v) = state {
        if !force {
            return Err(SyncError::Behind(l, v));
        }
    }
    let known: u64 = match remote {
        Some(info) => {
            if info.version > local {
                info.version
            } else {
                local
            }
        },
        None => local,
    };
    Ok((state, known + 1))
}

/// What a pull does.
#[derive(Debug, Clone, Copy, PartialEq, Eq, Structural)]
pub enum PullPlan {
    /// There is nothing to pull.
    NoRemote,
    /// The local index is the pinned one already.
    UpToDate(u64),
    /// Fetch a snapshot and import it.
    Fetch(RemoteIndexInfo),
}

/// Decides what a pull does: it does not go back behind the local index, unless forced.
pub fn pull_gate(local: u64, remote: Option<RemoteIndexInfo>, force: bool) -> (r: Result<
    PullPlan,
    SyncError,
>)
    ensures
        r == match VersionState::compared(local, remote) {
            VersionState::NoRemote => Ok::<PullPlan, SyncError>(PullPlan::NoRemote),
            VersionState::UpToDate(version) => Ok::<PullPlan, SyncError>(
                PullPlan::UpToDate(version),
            ),
            VersionState::Ahead(l, v) => if force {
                Ok::<PullPlan, SyncError>(PullPlan::Fetch(remote->0))
            } else {
                Err::<PullPlan, SyncError>(SyncError::Ahead(l, v))
            },
            VersionState::Behind(_, _) => Ok::<PullPlan, SyncError>(PullPlan::Fetch(remote->0)),
        },
        r == Ok::<PullPlan, SyncError>(PullPlan::NoRemote) <==> remote is None,
        remote is Some && remote->0.version > local ==> r == Ok::<PullPlan, SyncError>(
            PullPlan::Fetch(remote->0),
        ),
        remote is Some && remote->0.version == local ==> r == Ok::<PullPlan, SyncError>(
            PullPlan::UpToDate(local),
        ),
        remote is Some && remote->0.version < local ==> r == if force {
            Ok::<PullPlan, SyncError>(PullPlan::Fetch(remote->0))
        } else {
            Err::<PullPlan, SyncError>(SyncError::Ahead(local, remote->0.version))
        },
{
    let info = match remote {
        Some(info) => info,
        None => {
            return Ok(PullPlan::NoRemote);
        },
    };
    match VersionState::of(local, Some(info)) {
        VersionState::UpToDate(version) => Ok(PullPlan::UpToDate(version)),
        VersionState::Ahead(l, v) => {
            if force {
                Ok(PullPlan::Fetch(info))
            } else {
                Err(SyncError::Ahead(l, v))
            }
        },
        _ => Ok(PullPlan::Fetch(info)),
    }
}

/// What waits to be packed.
pub ghost struct PendingView {
    pub members: Seq<PackMember>,
    pub files: Seq<FileView>,
    pub stored_size: int,
}

/// The hashes of members.
pub open spec fn hashes(members: Seq<PackMember>) -> Seq<Seq<char>> {
    members.map_values(|m: PackMember| m.hash@)
}

impl PendingView {
    /// Whether so many stored bytes more are too many for the pack.
    pub open spec fn overflows(self, stored_len: int, target_size: int) -> bool {
        self.members.len() > 0 && self.stored_size + stored_len > target_size
    }

    /// What always holds: the members make a pack as they are, each chunk is in it once, and it
    /// is no larger than its target unless it has one member alone.
    pub open spec fn wf(self, encrypted: bool, target_size: int) -> bool {
        &&& contiguous(self.members)
        &&& lengths_agree(self.members, encrypted)
        &&& self.stored_size == pack_len(self.members)
        &&& hashes(self.members).no_duplicates()
        &&& self.members.len() > 1 ==> self.stored_size <= target_size
        &&& forall|i: int|
            0 <= i < self.files.len() ==> (#[trigger] self.files[i]).chunks.len() > 0 && hashes(
                self.members,
            ).contains(self.files[i].chunks[0])
    }
}

/// Small chunks that wait to be packed, and the files that consist of them.
pub struct PendingPack {
    members: Vec<PackMember>,
    files: Vec<FileEntry>,
    stored_size: u64,
}

impl View for PendingPack {
    type V = PendingView;

    closed spec fn view(&self) -> PendingView {
        PendingView {
            members: self.members@,
            files: file_views(self.files@),
            stored_size: self.stored_size as int,
        }
    }
}

impl PendingPack {
    /// Nothing waits.
    pub fn new() -> (r: Self)
        ensures
            r@ == (PendingView { members: Seq::empty(), files: Seq::empty(), stored_size: 0 }),
            forall|encrypted: bool, target: int| #[trigger] r@.wf(encrypted, target),
    {
        let r = PendingPack { members: Vec::new(), files: Vec::new(), stored_size: 0 };
        proof {
            assert(r.members@ =~= Seq::<PackMember>::empty());
            assert(r@.files =~= Seq::<FileView>::empty());
        }
        r
    }

    /// The members in order.
    pub fn members(&self) -> (r: &Vec<PackMember>)
        ensures
            r@ == self@.members,
    {
        &self.members
    }

    /// Whether a chunk waits to be packed.
    pub fn contains(&self, hash: &str) -> (r: bool)
        ensures
            r == hashes(self@.members).contains(hash@),
    {
        let mut i: usize = 0;
        while i < self.members.len()
            invariant
                i <= self.members@.len(),
                forall|j: int| 0 <= j < i ==> (#[trigger] self.members@[j]).hash@ != hash@,
            decreases self.members@.len() - i,
        {
            if text_eq(self.members[i].hash.as_str(), hash) {
                assert(hashes(self.members@)[i as int] == hash@);
                return true;
            }
            i += 1;
        }
        assert forall|j: int| 0 <= j < hashes(self.members@).len() implies hashes(
            self.members@,
        )[j] != hash@ by {
            assert(hashes(self.members@)[j] == self.members@[j].hash@);
        }
        false
    }

    /// Whether nothing waits.
    pub fn is_empty(&self) -> (r: bool)
        ensures
            r == (self@.members.len() == 0),
    {
        self.members.len() == 0
    }

    /// Whether a pack would grow over its target. A pack of one member may be of any size.
    pub fn would_exceed(&self, stored_len: u64, target_size: u64) -> (r: bool)
        ensures
            r == self@.overflows(stored_len as int, target_size as int),
    {
        if self.members.len() == 0 {
            return false;
        }
        match self.stored_size.checked_add(stored_len) {
            Some(sum) => sum > target_size,
            None => true,
        }
    }

    /// Adds a chunk behind the others.
    pub fn add_member(&mut self, member: PackMember)
        requires
            old(self)@.stored_size + member.stored_len <= u64::MAX,
        ensures
            final(self)@ == (PendingView {
                members: old(self)@.members.push(member),
                stored_size: old(self)@.stored_size + member.stored_len,
                ..old(self)@
            }),
    {
        self.stored_size = self.stored_size + member.stored_len;
        self.members.push(member);
    }

    /// Adds a file that consists of chunks that wait or are stored.
    pub fn add_file(&mut self, entry: FileEntry)
        ensures
            final(self)@ == (PendingView {
                files: old(self)@.files.push(entry@),
                ..old(self)@
            }),
    {
        self.files.push(entry);
        assert(self@.files =~= old(self)@.files.push(entry@));
    }
}

/// A chunk added at the end, with a hash that is not there yet, keeps what always holds.
proof fn member_added(
    before: PendingView,
    member: PackMember,
    encrypted: bool,
    target_size: int,
)
    requires
        before.wf(encrypted, target_size),
        member.offset == before.stored_size,
        member.stored_len == stored_len_of(member.size as int, encrypted),
        !hashes(before.members).contains(member.hash@),
        before.members.len() == 0 || before.stored_size + member.stored_len <= target_size,
    ensures
        ({
            let members = before.members.push(member);
            &&& contiguous(members)
            &&& lengths_agree(members, encrypted)
            &&& pack_len(members) == before.stored_size + member.stored_len
            &&& hashes(members).no_duplicates()
            &&& members.len() > 1 ==> pack_len(members) <= target_size
        }),
{
    let prior = before.members;
    let members = prior.push(member);
    assert forall|i: int| 0 < i < members.len() implies #[trigger] follows(members, i) by {
        if i < prior.len() {
            assert(follows(prior, i));
            assert(members[i] == prior[i] && members[i - 1] == prior[i - 1]);
        } else {
            assert(members[i - 1] == prior.last());
        }
    }
    if prior.len() > 0 {
        assert(members[0] == prior[0]);
    }
    assert forall|i: int| 0 <= i < members.len() implies (#[trigger] members[i]).stored_len
        == stored_len_of(members[i].size as int, encrypted) by {
        if i < prior.len() {
            assert(members[i] == prior[i]);
        }
    }
    assert forall|i: int, j: int|
        0 <= i < members.len() && 0 <= j < members.len() && i != j implies hashes(members)[i]
        != hashes(members)[j] by {
        let a = if i < j { i } else { j };
        let b = if i < j { j } else { i };
        assert(hashes(prior)[a] == prior[a].hash@);
        if b < prior.len() {
            assert(hashes(prior)[b] == prior[b].hash@);
        } else {
            assert(hashes(prior).contains(prior[a].hash@));
        }
    }
}

/// Recording a list of chunks keeps those before, and adds those of the list.
proof fn with_chunks_grows(chunks: Map<Seq<char>, ChunkView>, list: Seq<ChunkView>)
    ensures
        forall|hash: Seq<char>| #[trigger]
            with_chunks(chunks, list).dom().contains(hash) <==> chunks.dom().contains(hash)
                || exists|i: int| 0 <= i < list.len() && (#[trigger] list[i]).hash == hash,
    decreases list.len(),
{
    if list.len() > 0 {
        let front = list.drop_last();
        with_chunks_grows(chunks, front);
        assert forall|hash: Seq<char>| #[trigger]
            with_chunks(chunks, list).dom().contains(hash) <==> chunks.dom().contains(hash)
                || exists|i: int| 0 <= i < list.len() && (#[trigger] list[i]).hash == hash by {
            assert(with_chunks(chunks, list).dom().contains(hash) <==> with_chunks(
                chunks,
                front,
            ).dom().contains(hash) || hash == list.last().hash);
            if exists|i: int| 0 <= i < list.len() && (#[trigger] list[i]).hash == hash {
                let i = choose|i: int| 0 <= i < list.len() && (#[trigger] list[i]).hash == hash;
                if i < front.len() {
                    assert(front[i].hash == hash);
                }
            }
            if exists|i: int| 0 <= i < front.len() && (#[trigger] front[i]).hash == hash {
                let i = choose|i: int| 0 <= i < front.len() && (#[trigger] front[i]).hash == hash;
                assert(list[i].hash == hash);
            }
            if hash == list.last().hash {
                assert(list[list.len() - 1].hash == hash);
            }
        }
    }
}

/// Files of one chunk each that wait in a pack are all accepted by the index once the pack is
/// stored, also those that share their chunk with another file.
pub proof fn packed_files_are_accepted(
    pending: PendingView,
    encrypted: bool,
    target_size: int,
    chunks: Map<Seq<char>, ChunkView>,
    msg_id: i32,
    from: int,
)
    requires
        pending.wf(encrypted, target_size),
        forall|i: int|
            0 <= i < pending.files.len() ==> (#[trigger] pending.files[i]).chunks.len() == 1,
        0 <= from <= pending.files.len(),
    ensures
        first_refused(
            pending.files,
            with_chunks(chunks, member_chunks(pending.members, msg_id, encrypted)),
            from,
        ) == pending.files.len(),
    decreases pending.files.len() - from,
{
    let list = member_chunks(pending.members, msg_id, encrypted);
    let after = with_chunks(chunks, list);
    if from < pending.files.len() {
        let file = pending.files[from];
        let names = hashes(pending.members);
        with_chunks_grows(chunks, list);
        let i = choose|i: int| 0 <= i < names.len() && names[i] == file.chunks[0];
        assert(list[i].hash == file.chunks[0]);
        assert(all_stored(after, file.chunks));
        packed_files_are_accepted(pending, encrypted, target_size, chunks, msg_id, from + 1);
    }
}

/// The settings that a push goes by.
#[derive(Debug, Clone, Copy)]
pub struct PushSettings {
    pub pack: PackConfig,
    pub chunk_size: u64,
    /// Whether what is stored is sealed.
    pub encrypted: bool,
}

/// How far a push is.
pub ghost struct PushView {
    pub settings: PushSettings,
    pub pending: PendingView,
    pub uploaded_files: int,
    pub uploaded_bytes: int,
    pub skipped: int,
    pub tombstoned: int,
    pub changed: int,
    /// Whether a changed file is in hand.
    pub busy: bool,
}

impl PushView {
    /// What always holds: every changed file is recorded, waits in the pack, or is in hand.
    pub open spec fn wf(self) -> bool {
        &&& self.pending.wf(self.settings.encrypted, self.settings.pack.target_size as int)
        &&& forall|i: int|
            0 <= i < self.pending.members.len() ==> (#[trigger] self.pending.members[i]).size
                < self.settings.pack.threshold
        &&& self.changed == self.uploaded_files + self.pending.files.len() + if self.busy {
            1int
        } else {
            0int
        }
    }

    /// Whether a file is small enough to be packed.
    pub open spec fn packs(self, file: LocalFile) -> bool {
        self.settings.pack.threshold > 0 && file.size < self.settings.pack.threshold
    }
}

/// The files of the index as they will be once the pack is stored.
pub open spec fn eventual(push: PushView, index: IndexView) -> Map<Seq<char>, FileView> {
    with_present(index.files, push.pending.files)
}

/// Whether files hold one with a path, size and time that is present.
pub open spec fn holds(
    files: Map<Seq<char>, FileView>,
    path: Seq<char>,
    size: u64,
    mtime: i64,
) -> bool {
    files.dom().contains(path) && !files[path].deleted && files[path].size == size
        && files[path].mtime == mtime
}

/// What files hold for a path.
pub open spec fn row(files: Map<Seq<char>, FileView>, path: Seq<char>) -> Option<FileView> {
    if files.dom().contains(path) {
        Some(files[path])
    } else {
        None
    }
}

/// Whether a file with a path waits in the pack.
pub open spec fn waits(push: PushView, path: Seq<char>) -> bool {
    exists|i: int|
        0 <= i < push.pending.files.len() && (#[trigger] push.pending.files[i]).path == path
}

/// What recording a list does to a path depends on what was there under that path alone.
proof fn recorded_alike(
    a: Map<Seq<char>, FileView>,
    b: Map<Seq<char>, FileView>,
    list: Seq<FileView>,
    path: Seq<char>,
)
    requires
        row(a, path) == row(b, path),
    ensures
        row(with_present(a, list), path) == row(with_present(b, list), path),
    decreases list.len(),
{
    let mark = |f: FileView| present(f);
    if list.len() > 0 {
        let front = list.drop_last();
        assert(list.map_values(mark).drop_last() =~= front.map_values(mark));
        recorded_alike(a, b, front, path);
    }
}

/// Recording one file more after a list.
proof fn recorded_last(files: Map<Seq<char>, FileView>, list: Seq<FileView>, entry: FileView)
    ensures
        with_present(files, list.push(entry)) == with_present(files, list).insert(
            entry.path,
            present(entry),
        ),
{
    let mark = |f: FileView| present(f);
    let longer = list.push(entry).map_values(mark);
    assert(longer.drop_last() =~= list.map_values(mark));
    assert(longer.last() == present(entry));
}

/// Recording a list leaves the paths that are not in it.
proof fn recorded_elsewhere(
    files: Map<Seq<char>, FileView>,
    list: Seq<FileView>,
    path: Seq<char>,
)
    requires
        forall|i: int| 0 <= i < list.len() ==> (#[trigger] list[i]).path != path,
    ensures
        row(with_present(files, list), path) == row(files, path),
    decreases list.len(),
{
    let mark = |f: FileView| present(f);
    if list.len() > 0 {
        let front = list.drop_last();
        assert(list.map_values(mark).drop_last() =~= front.map_values(mark));
        assert(list.last() == list[list.len() - 1]);
        assert forall|i: int| 0 <= i < front.len() implies (#[trigger] front[i]).path != path by {
            assert(front[i] == list[i]);
        }
        recorded_elsewhere(files, front, path);
    }
}

/// A push and an index after an event of the scan.
pub open spec fn taken(push: PushView, index: IndexView, event: ScanEvent) -> (
    PushView,
    IndexView,
) {
    match event {
        ScanEvent::Unchanged(_) => (PushView { skipped: push.skipped + 1, ..push }, index),
        ScanEvent::Deleted(path) => if index.files.dom().contains(path@)
            && !index.files[path@].deleted {
            (
                PushView { tombstoned: push.tombstoned + 1, ..push },
                IndexView {
                    files: index.files.insert(path@, tombstone(index.files[path@])),
                    ..index
                },
            )
        } else {
            (push, index)
        },
        ScanEvent::Progress(_) => (push, index),
        ScanEvent::New(_) | ScanEvent::Modified(_) => (
            PushView { changed: push.changed + 1, busy: true, ..push },
            index,
        ),
    }
}

/// A push and an index after events of the scan in a row.
pub open spec fn taken_all(push: PushView, index: IndexView, events: Seq<ScanEvent>) -> (
    PushView,
    IndexView,
)
    decreases events.len(),
{
    if events.len() == 0 {
        (push, index)
    } else {
        let (before, files) = taken_all(push, index, events.drop_last());
        taken(before, files, events.last())
    }
}

/// Whether an event tells of no file to be stored.
pub open spec fn is_quiet(event: ScanEvent) -> bool {
    !(event is New || event is Modified)
}

/// The paths that events report as deleted.
pub open spec fn deleted_paths(events: Seq<ScanEvent>) -> Set<Seq<char>> {
    Set::new(|path: Seq<char>| reports_deleted(events, path))
}

/// Reports of progress change nothing of what events tell.
proof fn progress_tells_nothing(events: Seq<ScanEvent>)
    requires
        forall|i: int|
            0 <= i < without_progress(events).len() ==> is_quiet(
                #[trigger] without_progress(events)[i],
            ),
    ensures
        forall|i: int| 0 <= i < events.len() ==> is_quiet(#[trigger] events[i]),
        deleted_paths(events) == deleted_paths(without_progress(events)),
    decreases events.len(),
{
    if events.len() == 0 {
        reveal(Seq::filter);
        assert(without_progress(events) =~= events);
    } else {
        let front = events.drop_last();
        let last = events[events.len() - 1];
        assert(front.push(last) =~= events);
        without_progress_last(front, last);
        let told = without_progress(front);
        assert forall|i: int| 0 <= i < told.len() implies is_quiet(#[trigger] told[i]) by {
            assert(without_progress(events)[i] == told[i]);
        }
        if !(last is Progress) {
            assert(without_progress(events)[told.len() as int] == last);
        }
        progress_tells_nothing(front);
        reports_deleted_last(front, last);
        reports_deleted_last(told, last);
        assert forall|i: int| 0 <= i < events.len() implies is_quiet(#[trigger] events[i]) by {
            if i < front.len() {
                assert(front[i] == events[i]);
            }
        }
        assert forall|path: Seq<char>| #[trigger]
            reports_deleted(front, path) == reports_deleted(told, path) by {
            assert(deleted_paths(front).contains(path) == deleted_paths(told).contains(path));
        }
        assert(deleted_paths(events) =~= deleted_paths(without_progress(events)));
    }
}

/// Quiet events lead to no work: nothing is packed or uploaded, and of the index only the deleted
/// paths change, which are marked.
proof fn quiet_events_mark_only(push: PushView, index: IndexView, events: Seq<ScanEvent>)
    requires
        forall|i: int| 0 <= i < events.len() ==> is_quiet(#[trigger] events[i]),
    ensures
        ({
            let (after, files) = taken_all(push, index, events);
            &&& files == IndexView {
                files: marked(index.files, deleted_paths(events)),
                ..index
            }
            &&& after == PushView {
                skipped: after.skipped,
                tombstoned: after.tombstoned,
                ..push
            }
        }),
    decreases events.len(),
{
    let (after, files) = taken_all(push, index, events);
    if events.len() == 0 {
        assert(marked(index.files, deleted_paths(events)) =~= index.files);
    } else {
        let front = events.drop_last();
        assert forall|i: int| 0 <= i < front.len() implies is_quiet(#[trigger] front[i]) by {
            assert(front[i] == events[i]);
        }
        quiet_events_mark_only(push, index, front);
        let last = events[events.len() - 1];
        assert(front.push(last) =~= events);
        reports_deleted_last(front, last);
        assert(files.files =~= marked(index.files, deleted_paths(events)));
    }
}

/// A second push of a tree in which no file was added and none that is still walked changed its
/// size or time does nothing: its scan reports no new or modified file, so nothing is hashed,
/// packed or uploaded, and no row of the index changes, but that exactly the present files that
/// were not walked are marked as deleted. Reports of progress may come in between.
pub proof fn second_push_uploads_nothing(
    push: PushView,
    index: IndexView,
    events: Seq<ScanEvent>,
    files: Seq<LocalFile>,
)
    requires
        is_scan(without_progress(events), stats_of(index.files), files),
        forall|a: int, b: int|
            #![trigger files[a], files[b]]
            0 <= a < b < files.len() ==> files[a].rel_path@ != files[b].rel_path@,
        forall|i: int|
            0 <= i < files.len() ==> holds(
                index.files,
                (#[trigger] files[i]).rel_path@,
                files[i].size,
                files[i].mtime,
            ),
    ensures
        forall|i: int| 0 <= i < events.len() ==> is_quiet(#[trigger] events[i]),
        ({
            let (after, rows) = taken_all(push, index, events);
            let gone = Set::new(
                |path: Seq<char>|
                    index.files.dom().contains(path) && !index.files[path].deleted && !walked(
                        files,
                        path,
                    ),
            );
            &&& rows == IndexView { files: marked(index.files, gone), ..index }
            &&& after == PushView { skipped: after.skipped, tombstoned: after.tombstoned, ..push }
        }),
{
    let previous = stats_of(index.files);
    let told = without_progress(events);
    scan_is_exact(told, previous, files);
    assert forall|i: int| 0 <= i < told.len() implies is_quiet(#[trigger] told[i]) by {
        if i < files.len() {
            let file = files[i];
            assert(holds(index.files, file.rel_path@, file.size, file.mtime));
            assert(previous.dom().contains(file.rel_path@));
            assert(told[i] == classified(previous, file));
        }
    }
    progress_tells_nothing(events);
    quiet_events_mark_only(push, index, events);
    let gone = Set::new(
        |path: Seq<char>|
            index.files.dom().contains(path) && !index.files[path].deleted && !walked(files, path),
    );
    assert(deleted_paths(told) =~= gone) by {
        assert forall|path: Seq<char>| #[trigger]
            deleted_paths(told).contains(path) <==> gone.contains(path) by {
            assert(reports_deleted(told, path) <==> previous.dom().contains(path) && !walked(
                files,
                path,
            ));
        }
    }
}

/// One step of a push.
pub ghost enum PushMove {
    /// An event of the scan was taken.
    Take(ScanEvent),
    /// The record of the file in hand was kept: put into the index, or into the pack.
    Keep(FileView),
    /// The pack was stored.
    Flush,
    /// A chunk was stored, or an upload noted in the journal.
    Store,
}

/// Whether a step leads from one state of a push and its index to another.
pub open spec fn push_moved(
    before: (PushView, IndexView),
    step: PushMove,
    after: (PushView, IndexView),
) -> bool {
    let files = before.0.pending.files;
    match step {
        PushMove::Take(event) => !before.0.busy && after == taken(before.0, before.1, event),
        PushMove::Keep(entry) => {
            &&& before.0.busy && !after.0.busy
            &&& if after.0.pending.files == files {
                after.1.files == before.1.files.insert(entry.path, present(entry))
            } else {
                &&& after.0.pending.files == files.push(entry)
                &&& after.1.files == before.1.files
            }
        },
        PushMove::Flush => {
            &&& after.0.busy == before.0.busy
            &&& after.0.pending.files.len() == 0
            &&& after.1.files == with_present(before.1.files, files)
        },
        PushMove::Store => after.0 == before.0 && after.1.files == before.1.files,
    }
}

/// The events taken in a row of steps.
pub open spec fn taken_events(steps: Seq<PushMove>) -> Seq<ScanEvent>
    decreases steps.len(),
{
    if steps.len() == 0 {
        Seq::empty()
    } else {
        let before = taken_events(steps.drop_last());
        match steps.last() {
            PushMove::Take(event) => before.push(event),
            _ => before,
        }
    }
}

/// Whether an event hands a file out to be stored.
pub open spec fn hands_out(event: ScanEvent) -> bool {
    event is New || event is Modified
}

/// Whether a record is that of the file that an event handed out.
pub open spec fn is_record_of(entry: FileView, event: ScanEvent) -> bool {
    let file = match event {
        ScanEvent::Modified(file) => file,
        _ => event->New_0,
    };
    entry.path == file.rel_path@ && entry.size == file.size && entry.mtime == file.mtime
}

/// Whether steps lead a push from its beginning through the states. What is kept is the record of
/// the file in hand, which the last event handed out.
pub open spec fn is_push(states: Seq<(PushView, IndexView)>, steps: Seq<PushMove>) -> bool {
    &&& states.len() == steps.len() + 1
    &&& states[0].0.pending.files.len() == 0 && !states[0].0.busy
    &&& forall|i: int|
        0 <= i < steps.len() ==> push_moved(states[i], #[trigger] steps[i], states[i + 1])
    &&& forall|i: int|
        0 <= i < steps.len() && (#[trigger] steps[i]) is Keep ==> is_record_of(
            steps[i]->Keep_0,
            taken_events(steps.subrange(0, i)).last(),
        )
}

/// Whether an event tells of a path.
pub open spec fn tells(event: ScanEvent, path: Seq<char>) -> bool {
    !(event is Progress) && path_of(event) == path
}

/// Whether a path stands with a push as its event wants it. While its file is in hand, none with
/// its path waits.
pub open spec fn stands(
    state: (PushView, IndexView),
    start: Map<Seq<char>, FileView>,
    event: ScanEvent,
    in_hand: bool,
) -> bool {
    let path = path_of(event);
    let files = eventual(state.0, state.1);
    match event {
        ScanEvent::Unchanged(_) => row(files, path) == row(start, path),
        ScanEvent::Deleted(_) => files.dom().contains(path) ==> files[path].deleted,
        ScanEvent::New(file) | ScanEvent::Modified(file) => if in_hand {
            !waits(state.0, path)
        } else {
            holds(files, path, file.size, file.mtime)
        },
        ScanEvent::Progress(_) => true,
    }
}

/// How a path stands with a push after some events.
pub open spec fn path_stands(
    state: (PushView, IndexView),
    start: Map<Seq<char>, FileView>,
    events: Seq<ScanEvent>,
    path: Seq<char>,
) -> bool {
    &&& state.0.busy ==> events.len() > 0 && hands_out(events.last())
    &&& (forall|j: int| 0 <= j < events.len() ==> !tells(#[trigger] events[j], path)) ==> {
        &&& row(eventual(state.0, state.1), path) == row(start, path)
        &&& !waits(state.0, path)
    }
    &&& forall|j: int|
        0 <= j < events.len() && tells(#[trigger] events[j], path) ==> stands(
            state,
            start,
            events[j],
            state.0.busy && j == events.len() - 1,
        )
}

/// Whether no path is told of twice.
pub open spec fn tells_once(events: Seq<ScanEvent>) -> bool {
    forall|a: int, b: int|
        #![trigger events[a], events[b]]
        0 <= a < b < events.len() && !(events[a] is Progress) && !(events[b] is Progress)
            ==> path_of(events[a]) != path_of(events[b])
}

/// A taken event keeps a path as it should stand.
proof fn stands_after_take(
    before: (PushView, IndexView),
    event: ScanEvent,
    after: (PushView, IndexView),
    start: Map<Seq<char>, FileView>,
    events: Seq<ScanEvent>,
    path: Seq<char>,
)
    requires
        push_moved(before, PushMove::Take(event), after),
        path_stands(before, start, events, path),
        tells_once(events.push(event)),
    ensures
        path_stands(after, start, events.push(event), path),
{
    let more = events.push(event);
    let n = events.len() as int;
    let list = before.0.pending.files;
    assert(more[n] == event);
    assert(waits(after.0, path) == waits(before.0, path));
    if event is Deleted && event->Deleted_0@ == path {
        assert forall|j: int| 0 <= j < n implies !tells(#[trigger] events[j], path) by {
            assert(more[j] == events[j]);
        }
        recorded_elsewhere(after.1.files, list, path);
        recorded_elsewhere(before.1.files, list, path);
    } else {
        recorded_alike(before.1.files, after.1.files, list, path);
        if tells(event, path) {
            assert forall|j: int| 0 <= j < n implies !tells(#[trigger] events[j], path) by {
                assert(more[j] == events[j]);
            }
        }
    }
    assert forall|j: int| 0 <= j < more.len() && tells(#[trigger] more[j], path) implies stands(
        after,
        start,
        more[j],
        after.0.busy && j == n,
    ) by {
        if j < n {
            assert(more[j] == events[j]);
            assert(tells(events[j], path));
        }
    }
    if forall|j: int| 0 <= j < more.len() ==> !tells(#[trigger] more[j], path) {
        assert forall|j: int| 0 <= j < n implies !tells(#[trigger] events[j], path) by {
            assert(more[j] == events[j]);
        }
        assert(!tells(more[n], path));
    }
}

/// A kept record keeps a path as it should stand.
proof fn stands_after_keep(
    before: (PushView, IndexView),
    entry: FileView,
    after: (PushView, IndexView),
    start: Map<Seq<char>, FileView>,
    events: Seq<ScanEvent>,
    path: Seq<char>,
)
    requires
        push_moved(before, PushMove::Keep(entry), after),
        path_stands(before, start, events, path),
        is_record_of(entry, events.last()),
        tells_once(events),
    ensures
        path_stands(after, start, events, path),
{
    let n = events.len() - 1;
    let list = before.0.pending.files;
    let last = events[n];
    assert(tells(last, entry.path));
    if after.0.pending.files == list {
        if path == entry.path {
            assert(stands(before, start, last, true));
            recorded_elsewhere(after.1.files, list, path);
        } else {
            recorded_alike(before.1.files, after.1.files, list, path);
        }
    } else {
        let more = list.push(entry);
        recorded_last(before.1.files, list, entry);
        if path != entry.path && !waits(before.0, path) && waits(after.0, path) {
            let i = choose|i: int| 0 <= i < more.len() && (#[trigger] more[i]).path == path;
            assert(list[i].path == path);
        }
    }
    assert forall|j: int| 0 <= j < events.len() && tells(#[trigger] events[j], path) implies stands(
        after,
        start,
        events[j],
        false,
    ) by {
        assert(stands(before, start, events[j], j == n));
        if path == entry.path {
            assert(j == n);
        } else {
            assert(j != n);
        }
    }
}

/// A stored pack keeps a path as it should stand.
proof fn stands_after_flush(
    before: (PushView, IndexView),
    after: (PushView, IndexView),
    start: Map<Seq<char>, FileView>,
    events: Seq<ScanEvent>,
    path: Seq<char>,
)
    requires
        push_moved(before, PushMove::Flush, after),
        path_stands(before, start, events, path),
    ensures
        path_stands(after, start, events, path),
{
    let mark = |f: FileView| present(f);
    assert(after.0.pending.files.map_values(mark) =~= Seq::<FileView>::empty());
    assert(eventual(after.0, after.1) == eventual(before.0, before.1));
    assert forall|j: int| 0 <= j < events.len() && tells(#[trigger] events[j], path) implies stands(
        after,
        start,
        events[j],
        after.0.busy && j == events.len() - 1,
    ) by {
        assert(stands(before, start, events[j], before.0.busy && j == events.len() - 1));
    }
}

/// Every path stands as it should after any steps of a push.
proof fn stands_throughout(
    states: Seq<(PushView, IndexView)>,
    steps: Seq<PushMove>,
    path: Seq<char>,
)
    requires
        is_push(states, steps),
        tells_once(taken_events(steps)),
    ensures
        path_stands(states.last(), states[0].1.files, taken_events(steps), path),
    decreases steps.len(),
{
    let start = states[0].1.files;
    if steps.len() == 0 {
        let mark = |f: FileView| present(f);
        assert(states[0].0.pending.files.map_values(mark) =~= Seq::<FileView>::empty());
    } else {
        let known = states.drop_last();
        let front = steps.drop_last();
        let events = taken_events(front);
        let last = steps[steps.len() - 1];
        assert forall|i: int| 0 <= i < front.len() implies push_moved(
            known[i],
            #[trigger] front[i],
            known[i + 1],
        ) by {
            assert(front[i] == steps[i]);
        }
        assert forall|i: int| 0 <= i < front.len() && (#[trigger] front[i]) is Keep implies
            is_record_of(front[i]->Keep_0, taken_events(front.subrange(0, i)).last()) by {
            assert(front[i] == steps[i]);
            assert(front.subrange(0, i) =~= steps.subrange(0, i));
        }
        assert(tells_once(events)) by {
            let more = taken_events(steps);
            assert forall|a: int, b: int|
                #![trigger events[a], events[b]]
                0 <= a < b < events.len() && !(events[a] is Progress) && !(events[b]
                    is Progress) implies path_of(events[a]) != path_of(events[b]) by {
                assert(more[a] == events[a] && more[b] == events[b]);
            }
        }
        stands_throughout(known, front, path);
        let before = known.last();
        let after = states.last();
        assert(push_moved(before, last, after));
        match last {
            PushMove::Take(event) => {
                stands_after_take(before, event, after, start, events, path);
            },
            PushMove::Keep(entry) => {
                assert(front =~= steps.subrange(0, steps.len() - 1));
                stands_after_keep(before, entry, after, start, events, path);
            },
            PushMove::Flush => {
                stands_after_flush(before, after, start, events, path);
            },
            PushMove::Store => {
                assert forall|j: int|
                    0 <= j < events.len() && tells(#[trigger] events[j], path) implies stands(
                    after,
                    start,
                    events[j],
                    after.0.busy && j == events.len() - 1,
                ) by {
                    assert(stands(
                        before,
                        start,
                        events[j],
                        before.0.busy && j == events.len() - 1,
                    ));
                }
            },
        }
    }
}

/// Reports of progress aside, the same events are there.
proof fn same_events_aside(events: Seq<ScanEvent>)
    ensures
        forall|k: int|
            0 <= k < without_progress(events).len() ==> events.contains(
                #[trigger] without_progress(events)[k],
            ) && !(without_progress(events)[k] is Progress),
        forall|j: int|
            0 <= j < events.len() && !((#[trigger] events[j]) is Progress) ==> without_progress(
                events,
            ).contains(events[j]),
        tells_once(without_progress(events)) ==> tells_once(events),
    decreases events.len(),
{
    let told = without_progress(events);
    if events.len() == 0 {
        reveal(Seq::filter);
    } else {
        let front = events.drop_last();
        let n = front.len() as int;
        let last = events[n];
        let before = without_progress(front);
        assert(front.push(last) =~= events);
        without_progress_last(front, last);
        same_events_aside(front);
        assert forall|k: int| 0 <= k < told.len() implies events.contains(#[trigger] told[k])
            && !(told[k] is Progress) by {
            if k < before.len() {
                assert(before[k] == told[k]);
                let j = choose|j: int| 0 <= j < front.len() && front[j] == before[k];
                assert(events[j] == told[k]);
            } else {
                assert(events[n] == told[k]);
            }
        }
        assert forall|j: int| 0 <= j < events.len() && !((#[trigger] events[j])
            is Progress) implies told.contains(events[j]) by {
            if j < n {
                assert(front[j] == events[j]);
                let k = choose|k: int| 0 <= k < before.len() && before[k] == front[j];
                assert(told[k] == events[j]);
            } else {
                assert(told[before.len() as int] == last);
            }
        }
        if tells_once(told) {
            assert forall|a: int, b: int|
                #![trigger before[a], before[b]]
                0 <= a < b < before.len() && !(before[a] is Progress) && !(before[b]
                    is Progress) implies path_of(before[a]) != path_of(before[b]) by {
                assert(told[a] == before[a] && told[b] == before[b]);
            }
            assert forall|a: int, b: int|
                #![trigger events[a], events[b]]
                0 <= a < b < events.len() && !(events[a] is Progress) && !(events[b]
                    is Progress) implies path_of(events[a]) != path_of(events[b]) by {
                assert(front[a] == events[a]);
                if b < n {
                    assert(front[b] == events[b]);
                } else {
                    let k = choose|k: int| 0 <= k < before.len() && before[k] == front[a];
                    assert(told[k] == events[a]);
                    assert(told[before.len() as int] == last);
                }
            }
        }
    }
}

/// A scan of a tree in which no path is walked twice tells of no path twice.
proof fn scan_tells_once(
    told: Seq<ScanEvent>,
    previous: Map<Seq<char>, (u64, i64)>,
    files: Seq<LocalFile>,
)
    requires
        is_scan(told, previous, files),
        forall|a: int, b: int|
            #![trigger files[a], files[b]]
            0 <= a < b < files.len() ==> files[a].rel_path@ != files[b].rel_path@,
    ensures
        tells_once(told),
{
    scan_is_exact(told, previous, files);
    let n = files.len() as int;
    assert forall|a: int, b: int|
        #![trigger told[a], told[b]]
        0 <= a < b < told.len() && !(told[a] is Progress) && !(told[b] is Progress) implies path_of(
        told[a],
    ) != path_of(told[b]) by {
        if b < n {
            assert(told[a] == classified(previous, files[a]));
            assert(told[b] == classified(previous, files[b]));
        } else {
            assert(reports_deleted(told, path_of(told[b])));
            if a < n {
                assert(told[a] == classified(previous, files[a]));
                assert(walked(files, files[a].rel_path@));
            } else {
                lex_less_irreflexive(path_of(told[a]));
            }
        }
    }
}

/// A push that ends leaves the walked tree in the index: every walked file is present with its
/// size and time, and no other file is present. Reports of progress may come in between.
pub proof fn push_leaves_the_tree(
    states: Seq<(PushView, IndexView)>,
    steps: Seq<PushMove>,
    files: Seq<LocalFile>,
)
    requires
        is_push(states, steps),
        is_scan(without_progress(taken_events(steps)), stats_of(states[0].1.files), files),
        forall|a: int, b: int|
            #![trigger files[a], files[b]]
            0 <= a < b < files.len() ==> files[a].rel_path@ != files[b].rel_path@,
        !states.last().0.busy,
        states.last().0.pending.files.len() == 0,
    ensures
        forall|i: int|
            0 <= i < files.len() ==> holds(
                states.last().1.files,
                (#[trigger] files[i]).rel_path@,
                files[i].size,
                files[i].mtime,
            ),
        forall|path: Seq<char>|
            states.last().1.files.dom().contains(path) && !(
            #[trigger] states.last().1.files[path]).deleted ==> walked(files, path),
{
    let start = states[0].1.files;
    let previous = stats_of(start);
    let end = states.last();
    let events = taken_events(steps);
    let told = without_progress(events);
    scan_is_exact(told, previous, files);
    scan_tells_once(told, previous, files);
    same_events_aside(events);
    let mark = |f: FileView| present(f);
    assert(end.0.pending.files.map_values(mark) =~= Seq::<FileView>::empty());
    assert(eventual(end.0, end.1) == end.1.files);
    assert forall|i: int| 0 <= i < files.len() implies holds(
        end.1.files,
        (#[trigger] files[i]).rel_path@,
        files[i].size,
        files[i].mtime,
    ) by {
        let path = files[i].rel_path@;
        stands_throughout(states, steps, path);
        assert(told[i] == classified(previous, files[i]));
        let j = choose|j: int| 0 <= j < events.len() && events[j] == told[i];
        assert(tells(events[j], path));
        assert(stands(end, start, events[j], false));
    }
    assert forall|path: Seq<char>|
        end.1.files.dom().contains(path) && !(
        #[trigger] end.1.files[path]).deleted implies walked(files, path) by {
        stands_throughout(states, steps, path);
        if !walked(files, path) {
            if previous.dom().contains(path) {
                assert(reports_deleted(told, path));
                let k = choose|k: int|
                    0 <= k < told.len() && (#[trigger] told[k]) is Deleted
                        && told[k]->Deleted_0@ == path;
                let j = choose|j: int| 0 <= j < events.len() && events[j] == told[k];
                assert(tells(events[j], path));
                assert(stands(end, start, events[j], false));
            } else {
                assert forall|j: int| 0 <= j < events.len() implies !tells(
                    #[trigger] events[j],
                    path,
                ) by {
                    if tells(events[j], path) {
                        let k = choose|k: int| 0 <= k < told.len() && told[k] == events[j];
                        if k < files.len() {
                            assert(told[k] == classified(previous, files[k]));
                            assert(walked(files, files[k].rel_path@));
                        } else {
                            assert(told[k] is Deleted);
                            assert(reports_deleted(told, path));
                        }
                    }
                }
                assert(row(end.1.files, path) == row(start, path));
            }
        }
    }
}

/// With valid settings, whatever waits to be packed fits into one document of the channel.
pub proof fn pack_fits_document(push: PushView)
    requires
        push.wf(),
        crate::config::pack_fault(push.settings.chunk_size, push.settings.pack) is None,
    ensures
        push.pending.stored_size <= MAX_DOCUMENT_SIZE,
{
    let members = push.pending.members;
    if members.len() == 1 {
        assert(members[0].size < push.settings.pack.threshold);
        assert(members[0] == members.last());
    }
}

/// What to do with a file after a scan event.
#[derive(Debug)]
pub enum PushStep {
    /// Nothing more.
    Done,
    /// Show a line of progress.
    Progress(String),
    /// Hash the file, which is small.
    Prepare(LocalFile),
    /// Upload the file in chunks of its own.
    Upload(LocalFile),
}

/// What became of a small file.
#[derive(Debug)]
pub enum Prepared {
    /// It is recorded: nothing had to be uploaded.
    Recorded,
    /// It waits in the pack.
    Queued,
    /// The pack has to be uploaded before the file can be added.
    FlushFirst(FileEntry),
}

/// Whether the first chunk of a file is stored, or there is none.
pub open spec fn is_known(entry: FileView, index: IndexView) -> bool {
    entry.chunks.len() == 0 || index.chunks.dom().contains(entry.chunks[0])
}

/// The place of the first file of a list that lists a chunk that is not stored.
pub open spec fn first_refused(
    files: Seq<FileView>,
    chunks: Map<Seq<char>, ChunkView>,
    from: int,
) -> int
    decreases files.len() - from,
{
    if from < files.len() && all_stored(chunks, files[from].chunks) {
        first_refused(files, chunks, from + 1)
    } else {
        from
    }
}

/// The files after those of a list were recorded as present.
pub open spec fn with_present(
    files: Map<Seq<char>, FileView>,
    list: Seq<FileView>,
) -> Map<Seq<char>, FileView> {
    with_files(files, list.map_values(|f: FileView| present(f)))
}

/// The line that shows how far a push is.
pub open spec fn push_line(stats: ScanStats, changed: nat, uploaded: nat) -> Seq<char> {
    "\r\x1b[2Kpushing… "@ + decimal(stats.scanned as nat) + " files, "@ + decimal(
        stats.dirs as nat,
    ) + " dirs scanned ("@ + shown_size(stats.bytes as int) + "), "@ + decimal(changed)
        + " changed, "@ + decimal(uploaded) + " uploaded"@
}

/// Whether a line of progress is due: half a second after the last one, if there was one.
pub fn progress_due(last: Option<u64>, now: u64) -> (r: bool)
    ensures
        r == is_due(last, now),
{
    match last {
        Some(then) => now >= then && now - then >= 500,
        None => true,
    }
}

/// A push in progress.
pub struct Push {
    settings: PushSettings,
    pending: PendingPack,
    uploaded_files: u64,
    uploaded_bytes: u64,
    skipped: u64,
    tombstoned: u64,
    changed: u64,
    busy: bool,
}

impl View for Push {
    type V = PushView;

    closed spec fn view(&self) -> PushView {
        PushView {
            settings: self.settings,
            pending: self.pending@,
            uploaded_files: self.uploaded_files as int,
            uploaded_bytes: self.uploaded_bytes as int,
            skipped: self.skipped as int,
            tombstoned: self.tombstoned as int,
            changed: self.changed as int,
            busy: self.busy,
        }
    }
}

impl Push {
    /// Begins a push.
    pub fn new(settings: PushSettings) -> (r: Self)
        ensures
            r@.wf(),
            r@ == (PushView {
                settings,
                pending: PendingView {
                    members: Seq::empty(),
                    files: Seq::empty(),
                    stored_size: 0,
                },
                uploaded_files: 0,
                uploaded_bytes: 0,
                skipped: 0,
                tombstoned: 0,
                changed: 0,
                busy: false,
            }),
    {
        Push {
            settings,
            pending: PendingPack::new(),
            uploaded_files: 0,
            uploaded_bytes: 0,
            skipped: 0,
            tombstoned: 0,
            changed: 0,
            busy: false,
        }
    }

    /// The members of the pack that waits.
    pub fn pending_members(&self) -> (r: &Vec<PackMember>)
        ensures
            r@ == self@.pending.members,
    {
        self.pending.members()
    }

    /// Takes an event of the scan: unchanged files are counted, deleted ones marked in the index,
    /// and new or modified ones handed back to be hashed or uploaded.
    pub fn take(&mut self, event: ScanEvent, index: &mut Index) -> (r: PushStep)
        requires
            old(self)@.wf(),
            old(index).wf(),
            !old(self)@.busy,
            old(self)@.skipped < u64::MAX,
            old(self)@.tombstoned < u64::MAX,
            old(self)@.changed < u64::MAX,
        ensures
            final(self)@.wf(),
            final(index).wf(),
            (final(self)@, final(index)@) == taken(old(self)@, old(index)@, event),
            match event {
                ScanEvent::Unchanged(_) => r is Done,
                ScanEvent::Deleted(_) => r is Done,
                ScanEvent::Progress(stats) => r is Progress && r->Progress_0@ == push_line(
                    stats,
                    old(self)@.changed as nat,
                    old(self)@.uploaded_files as nat,
                ),
                ScanEvent::New(file) | ScanEvent::Modified(file) => r == if old(self)@.packs(
                    file,
                ) {
                    PushStep::Prepare(file)
                } else {
                    PushStep::Upload(file)
                },
            },
    {
        let file = match event {
            ScanEvent::Unchanged(_) => {
                self.skipped = self.skipped + 1;
                return PushStep::Done;
            },
            ScanEvent::Deleted(path) => {
                if index.tombstone_file(path.as_str()) {
                    self.tombstoned = self.tombstoned + 1;
                }
                return PushStep::Done;
            },
            ScanEvent::Progress(stats) => {
                let mut line = "\r\x1b[2Kpushing… ".to_owned();
                push_decimal(&mut line, stats.scanned);
                line.append(" files, ");
                push_decimal(&mut line, stats.dirs);
                line.append(" dirs scanned (");
                line.append(human_size(stats.bytes).as_str());
                line.append("), ");
                push_decimal(&mut line, self.changed);
                line.append(" changed, ");
                push_decimal(&mut line, self.uploaded_files);
                line.append(" uploaded");
                return PushStep::Progress(line);
            },
            ScanEvent::New(file) => file,
            ScanEvent::Modified(file) => file,
        };
        self.changed = self.changed + 1;
        self.busy = true;
        if self.settings.pack.threshold > 0 && file.size < self.settings.pack.threshold {
            PushStep::Prepare(file)
        } else {
            PushStep::Upload(file)
        }
    }

    /// The line that shows which file is in hand.
    pub fn uploading_line(&self, path: &str) -> (r: String)
        ensures
            r@ == "\r\x1b[2Kuploading… "@ + path@ + " ("@ + decimal(self@.changed as nat)
                + " changed, "@ + decimal(self@.uploaded_files as nat) + " uploaded)"@,
    {
        let mut line = "\r\x1b[2Kuploading… ".to_owned();
        line.append(path);
        line.append(" (");
        push_decimal(&mut line, self.changed);
        line.append(" changed, ");
        push_decimal(&mut line, self.uploaded_files);
        line.append(" uploaded)");
        line
    }

    /// Takes the record of a small file. It is recorded at once if it is empty or its chunk is
    /// stored. Else it joins the pack: with the chunk of an earlier file if that has the same
    /// content, or with a chunk of its own, unless the pack would grow over its target.
    pub fn prepared(&mut self, file: &LocalFile, entry: FileEntry, index: &mut Index) -> (r: Result<
        Prepared,
        SyncError,
    >)
        requires
            old(self)@.wf(),
            old(index).wf(),
            old(self)@.busy,
            old(self)@.packs(*file),
            stored_len_of(file.size as int, old(self)@.settings.encrypted) <= u64::MAX,
        ensures
            final(self)@.wf(),
            final(index).wf(),
            r is Ok && !(r->Ok_0 is FlushFirst) ==> push_moved(
                (old(self)@, old(index)@),
                PushMove::Keep(entry@),
                (final(self)@, final(index)@),
            ),
            ({
                let before = old(self)@;
                let settings = before.settings;
                let stored = stored_len_of(file.size as int, settings.encrypted);
                if is_known(entry@, old(index)@) {
                    if all_stored(old(index)@.chunks, entry@.chunks) {
                        &&& r is Ok
                        &&& r->Ok_0 is Recorded
                        &&& final(index)@ == (IndexView {
                            files: old(index)@.files.insert(entry@.path, present(entry@)),
                            ..old(index)@
                        })
                        &&& final(self)@ == (PushView {
                            uploaded_files: before.uploaded_files + 1,
                            busy: false,
                            ..before
                        })
                    } else {
                        &&& r is Err
                        &&& r->Err_0 == SyncError::Index(IndexError::UnknownChunk)
                        &&& final(index)@ == old(index)@
                        &&& final(self)@ == before
                    }
                } else {
                    &&& final(index)@ == old(index)@
                    &&& r is Ok
                    &&& if hashes(before.pending.members).contains(entry@.chunks[0]) {
                        &&& r->Ok_0 is Queued
                        &&& final(self)@ == (PushView {
                            pending: PendingView {
                                files: before.pending.files.push(entry@),
                                ..before.pending
                            },
                            busy: false,
                            ..before
                        })
                    } else if before.pending.overflows(
                        stored,
                        settings.pack.target_size as int,
                    ) {
                        &&& r->Ok_0 == Prepared::FlushFirst(entry)
                        &&& final(self)@ == before
                    } else {
                        &&& r->Ok_0 is Queued
                        &&& final(self)@.pending.members.len() == before.pending.members.len() + 1
                        &&& ({
                            let member = final(self)@.pending.members.last();
                            &&& packed_as(
                                member,
                                *file,
                                entry@,
                                before.pending.stored_size,
                                settings.encrypted,
                            )
                            &&& final(self)@ == (PushView {
                                pending: PendingView {
                                    members: before.pending.members.push(member),
                                    files: before.pending.files.push(entry@),
                                    stored_size: before.pending.stored_size + stored,
                                },
                                busy: false,
                                ..before
                            })
                        })
                    }
                }
            }),
    {
        let known: bool = entry.chunks.len() == 0 || index.chunk(
            entry.chunks[0].as_str(),
        ).is_some();
        proof {
            if entry.chunks@.len() > 0 {
                assert(entry@.chunks[0] == entry.chunks@[0]@);
            }
        }
        if known {
            return match index.upsert_file(&entry) {
                Ok(()) => {
                    self.uploaded_files = self.uploaded_files + 1;
                    self.busy = false;
                    Ok(Prepared::Recorded)
                },
                Err(error) => Err(SyncError::Index(error)),
            };
        }
        if !self.pending.contains(entry.chunks[0].as_str()) {
            let stored: u64 = stored_len(file.size, self.settings.encrypted);
            if self.pending.would_exceed(stored, self.settings.pack.target_size) {
                return Ok(Prepared::FlushFirst(entry));
            }
            let member = PackMember::new(
                entry.chunks[0].clone(),
                file.abs_path.clone(),
                file.size,
                self.pending.stored_size,
                self.settings.encrypted,
            );
            proof {
                member_added(
                    self.pending@,
                    member,
                    self.settings.encrypted,
                    self.settings.pack.target_size as int,
                );
            }
            self.pending.add_member(member);
            proof {
                let prior = old(self)@.pending.members;
                let now = self.pending@.members;
                assert forall|hash: Seq<char>| #[trigger]
                    hashes(prior).contains(hash) implies hashes(now).contains(hash) by {
                    let i = choose|i: int| 0 <= i < hashes(prior).len() && hashes(prior)[i] == hash;
                    assert(hashes(now)[i] == hash);
                }
                assert(hashes(now)[now.len() - 1] == entry@.chunks[0]);
            }
        }
        self.pending.add_file(entry);
        self.busy = false;
        Ok(Prepared::Queued)
    }

    /// Plans the upload of the pack that waits, if one does.
    pub fn plan_flush(&self, index: &Index) -> (r: Result<Option<PackUpload>, SyncError>)
        requires
            self@.wf(),
            index.wf(),
            member_hashes(self@.pending.members).len() <= u64::MAX,
            self@.pending.stored_size <= u64::MAX,
        ensures
            r is Ok,
            r->Ok_0 is None <==> self@.pending.members.len() == 0,
            r->Ok_0 is Some ==> is_pack_plan(r->Ok_0->0, self@.pending.members, index@),
    {
        if self.pending.is_empty() {
            return Ok(None);
        }
        match plan_pack(index, self.pending.members()) {
            Ok(plan) => Ok(Some(plan)),
            Err(error) => Err(SyncError::Pack(error)),
        }
    }

    /// Records that the pack was uploaded with a message: its chunks, then its files in order.
    /// Returns the paths of the files.
    pub fn flushed(&mut self, index: &mut Index, hash: &str, msg_id: i32) -> (r: Result<
        Vec<String>,
        SyncError,
    >)
        requires
            old(self)@.wf(),
            old(index).wf(),
            old(self)@.uploaded_bytes + member_sizes(old(self)@.pending.members) <= u64::MAX,
            member_sizes(old(self)@.pending.members) >= 0,
        ensures
            final(index).wf(),
            r is Ok ==> push_moved(
                (old(self)@, old(index)@),
                PushMove::Flush,
                (final(self)@, final(index)@),
            ),
            ({
                let pending = old(self)@.pending;
                let settings = old(self)@.settings;
                let chunks = with_chunks(
                    old(index)@.chunks,
                    member_chunks(pending.members, msg_id, settings.encrypted),
                );
                let k = first_refused(pending.files, chunks, 0);
                &&& final(index)@ == (IndexView {
                    chunks,
                    journal: settled(old(index)@.journal, hash@),
                    files: with_present(old(index)@.files, pending.files.subrange(0, k)),
                    ..old(index)@
                })
                &&& r is Ok <==> k == pending.files.len()
                &&& r is Err ==> r->Err_0 == SyncError::Index(IndexError::UnknownChunk)
                    && final(self)@ == old(self)@
                &&& r is Ok ==> {
                    &&& final(self)@.wf()
                    &&& texts(r->Ok_0@) == pending.files.map_values(|f: FileView| f.path)
                    &&& final(self)@ == (PushView {
                        pending: PendingView {
                            members: Seq::empty(),
                            files: Seq::empty(),
                            stored_size: 0,
                        },
                        uploaded_files: old(self)@.uploaded_files + pending.files.len(),
                        uploaded_bytes: old(self)@.uploaded_bytes + member_sizes(
                            pending.members,
                        ),
                        ..old(self)@
                    })
                }
            }),
    {
        let ghost files = self@.pending.files;
        let ghost before = old(index)@;
        let bytes: u64 = pack_done(
            index,
            &self.pending.members,
            hash,
            self.settings.encrypted,
            msg_id,
        );
        let ghost chunks = index@.chunks;
        let ghost stage = index@;
        let mut paths: Vec<String> = Vec::new();
        let total: usize = self.pending.files.len();
        let mut i: usize = 0;
        let ghost mark = |f: FileView| present(f);
        proof {
            assert(files.subrange(0, 0).map_values(mark) =~= Seq::<FileView>::empty());
            assert(with_present(before.files, files.subrange(0, 0)) == before.files);
        }
        while i < total
            invariant
                *self == *old(self),
                index.wf(),
                i <= total == files.len(),
                files == self@.pending.files,
                total == self.pending.files@.len(),
                paths@.len() == i,
                mark == (|f: FileView| present(f)),
                forall|j: int| 0 <= j < i ==> (#[trigger] paths@[j])@ == files[j].path,
                first_refused(files, chunks, 0) == first_refused(files, chunks, i as int),
                index@ == (IndexView {
                    files: with_present(before.files, files.subrange(0, i as int)),
                    ..stage
                }),
                stage.chunks == chunks,
                before == old(index)@,
                stage == (IndexView {
                    chunks: with_chunks(
                        before.chunks,
                        member_chunks(
                            self@.pending.members,
                            msg_id,
                            self@.settings.encrypted,
                        ),
                    ),
                    journal: before.journal.remove(hash@),
                    ..before
                }),
            decreases total - i,
        {
            let entry = &self.pending.files[i];
            assert(files[i as int] == entry@);
            match index.upsert_file(entry) {
                Ok(()) => {},
                Err(error) => {
                    return Err(SyncError::Index(error));
                },
            }
            paths.push(entry.path.clone());
            proof {
                let next = files.subrange(0, i + 1).map_values(mark);
                assert(next.drop_last() =~= files.subrange(0, i as int).map_values(mark));
                assert(next.last() == present(files[i as int]));
            }
            i += 1;
        }
        self.uploaded_files = self.uploaded_files + total as u64;
        self.uploaded_bytes = self.uploaded_bytes + bytes;
        self.pending = PendingPack::new();
        proof {
            assert(texts(paths@) =~= files.map_values(|f: FileView| f.path));
            assert(files.subrange(0, i as int) =~= files);
        }
        Ok(paths)
    }

    /// Records a file whose chunks were uploaded.
    pub fn uploaded(&mut self, file: UploadedFile, index: &mut Index) -> (r: Result<(), SyncError>)
        requires
            old(self)@.wf(),
            old(index).wf(),
            old(self)@.busy,
            old(self)@.uploaded_bytes + file.uploaded_bytes <= u64::MAX,
        ensures
            final(self)@.wf(),
            final(index).wf(),
            r is Ok ==> push_moved(
                (old(self)@, old(index)@),
                PushMove::Keep(file.entry@),
                (final(self)@, final(index)@),
            ),
            if all_stored(old(index)@.chunks, file.entry@.chunks) {
                &&& r is Ok
                &&& final(index)@ == (IndexView {
                    files: old(index)@.files.insert(file.entry@.path, present(file.entry@)),
                    ..old(index)@
                })
                &&& final(self)@ == (PushView {
                    uploaded_files: old(self)@.uploaded_files + 1,
                    uploaded_bytes: old(self)@.uploaded_bytes + file.uploaded_bytes,
                    busy: false,
                    ..old(self)@
                })
            } else {
                &&& r == Err::<(), SyncError>(SyncError::Index(IndexError::UnknownChunk))
                &&& final(index)@ == old(index)@
                &&& final(self)@ == (PushView {
                    uploaded_bytes: old(self)@.uploaded_bytes + file.uploaded_bytes,
                    ..old(self)@
                })
            },
    {
        self.uploaded_bytes = self.uploaded_bytes + file.uploaded_bytes;
        match index.upsert_file(&file.entry) {
            Ok(()) => {
                self.uploaded_files = self.uploaded_files + 1;
                self.busy = false;
                Ok(())
            },
            Err(error) => Err(SyncError::Index(error)),
        }
    }

    /// Ends the push, once nothing waits: sets the version to publish, and sums up. By then every
    /// changed file is recorded.
    pub fn finish(&self, index: &mut Index, next_version: u64) -> (r: String)
        requires
            self@.wf(),
            !self@.busy,
            self@.pending.members.len() == 0,
            old(index).wf(),
        ensures
            final(index).wf(),
            final(index)@ == (IndexView { version: next_version, ..old(index)@ }),
            self@.uploaded_files == self@.changed,
            self@.pending.files.len() == 0,
            r@ == "push done: "@ + decimal(self@.uploaded_files as nat) + " uploaded ("@ + decimal(
                self@.uploaded_bytes as nat,
            ) + " bytes), "@ + decimal(self@.skipped as nat) + " unchanged, "@ + decimal(
                self@.tombstoned as nat,
            ) + " tombstoned"@,
    {
        proof {
            let pending = self@.pending;
            if pending.files.len() > 0 {
                assert(hashes(pending.members).contains(pending.files[0].chunks[0]));
            }
        }
        index.set_version(next_version);
        let mut s = "push done: ".to_owned();
        push_decimal(&mut s, self.uploaded_files);
        s.append(" uploaded (");
        push_decimal(&mut s, self.uploaded_bytes);
        s.append(" bytes), ");
        push_decimal(&mut s, self.skipped);
        s.append(" unchanged, ");
        push_decimal(&mut s, self.tombstoned);
        s.append(" tombstoned");
        s
    }
}

/// How many paths of a kind the status lists.
pub const STATUS_PATH_LIMIT: usize = 20;

/// Which way a file differs.
#[derive(Debug, Clone, Copy, PartialEq, Eq, Structural)]
pub enum StatusKind {
    New,
    Modified,
    Deleted,
}

impl StatusKind {
    /// The kind in words, padded to nine characters.
    pub open spec fn label_text(self) -> Seq<char> {
        match self {
            StatusKind::New => "new:     "@,
            StatusKind::Modified => "modified:"@,
            StatusKind::Deleted => "deleted: "@,
        }
    }

    /// The kind in words, padded to nine characters.
    pub fn label(&self) -> (r: &'static str)
        ensures
            r@ == self.label_text(),
    {
        match self {
            StatusKind::New => "new:     ",
            StatusKind::Modified => "modified:",
            StatusKind::Deleted => "deleted: ",
        }
    }
}

/// The line that shows a path.
pub open spec fn path_line(kind: StatusKind, path: Seq<char>) -> Seq<char> {
    "  "@ + kind.label_text() + path
}

/// The line that shows a path.
fn show_path(kind: StatusKind, path: &str) -> (r: String)
    ensures
        r@ == path_line(kind, path@),
{
    let mut line = "  ".to_owned();
    line.append(kind.label());
    line.append(path);
    line
}

/// The lines that show the paths of a kind: those that were kept, and how many were not.
pub open spec fn category_lines(kind: StatusKind, paths: Seq<Seq<char>>, total: u64) -> Seq<
    Seq<char>,
> {
    let listed = paths.map_values(|path: Seq<char>| path_line(kind, path));
    if total > paths.len() {
        listed.push(
            "  "@ + kind.label_text() + "… and "@ + decimal((total - paths.len()) as nat)
                + " more (use -v to list all)"@,
        )
    } else {
        listed
    }
}

/// Appends the lines that show the paths of a kind.
fn print_category(lines: &mut Vec<String>, kind: StatusKind, paths: &Vec<String>, total: u64)
    ensures
        texts(final(lines)@) == texts(old(lines)@) + category_lines(kind, texts(paths@), total),
{
    let ghost before = texts(lines@);
    let ghost shown = texts(paths@).map_values(|path: Seq<char>| path_line(kind, path));
    let mut i: usize = 0;
    let count: usize = paths.len();
    assert(before + shown.subrange(0, 0) =~= before);
    while i < count
        invariant
            i <= count == paths@.len(),
            shown == texts(paths@).map_values(|path: Seq<char>| path_line(kind, path)),
            texts(lines@) == before + shown.subrange(0, i as int),
        decreases count - i,
    {
        let ghost so_far = lines@;
        lines.push(show_path(kind, paths[i].as_str()));
        i += 1;
        assert(texts(lines@) =~= before + shown.subrange(0, i as int)) by {
            assert(texts(lines@) =~= texts(so_far).push(lines@.last()@));
            assert(shown[i - 1] == path_line(kind, paths@[i - 1]@));
        }
    }
    assert(shown.subrange(0, i as int) =~= shown);
    if total > count as u64 {
        let mut line = "  ".to_owned();
        line.append(kind.label());
        line.append("… and ");
        push_decimal(&mut line, total - count as u64);
        line.append(" more (use -v to list all)");
        let ghost so_far = lines@;
        lines.push(line);
        assert(texts(lines@) =~= texts(so_far).push(line@));
        assert(texts(lines@) =~= before + category_lines(kind, texts(paths@), total));
    }
}

/// What the status has seen.
pub ghost struct ReporterView {
    pub verbose: bool,
    pub progress: bool,
    pub changes: Changes,
    pub new: Seq<Seq<char>>,
    pub modified: Seq<Seq<char>>,
    pub deleted: Seq<Seq<char>>,
    pub stats: ScanStats,
}

/// A list of paths with one more, up to the limit.
pub open spec fn kept(paths: Seq<Seq<char>>, path: Seq<char>, verbose: bool) -> Seq<Seq<char>> {
    if !verbose && paths.len() < STATUS_PATH_LIMIT {
        paths.push(path)
    } else {
        paths
    }
}

/// The line that shows how far a scan is.
pub open spec fn scan_line(stats: ScanStats, changes: Changes) -> Seq<char> {
    "\r\x1b[2Kscanning… "@ + decimal(stats.scanned as nat) + " files, "@ + decimal(
        stats.dirs as nat,
    ) + " dirs ("@ + shown_size(stats.bytes as int) + "), "@ + decimal(
        (changes.new + changes.modified + changes.deleted) as nat,
    ) + " changed"@
}

/// A line that the status shows.
#[derive(Debug)]
pub enum ReportLine {
    Nothing,
    /// A line of the report.
    Line(String),
    /// A line of progress, which the next one overwrites.
    Progress(String),
}

impl ReporterView {
    /// What the status has seen after an event.
    pub open spec fn after(self, event: ScanEvent) -> ReporterView {
        let counted = ReporterView { changes: self.changes.counted(event), ..self };
        match event {
            ScanEvent::New(file) => ReporterView {
                new: kept(self.new, file.rel_path@, self.verbose),
                ..counted
            },
            ScanEvent::Modified(file) => ReporterView {
                modified: kept(self.modified, file.rel_path@, self.verbose),
                ..counted
            },
            ScanEvent::Unchanged(_) => counted,
            ScanEvent::Deleted(path) => ReporterView {
                deleted: kept(self.deleted, path@, self.verbose),
                ..counted
            },
            ScanEvent::Progress(stats) => ReporterView { stats, ..counted },
        }
    }

    /// Whether a line is what the status shows at an event.
    pub open spec fn shows(self, event: ScanEvent, line: ReportLine) -> bool {
        match event {
            ScanEvent::New(file) => self.shows_path(StatusKind::New, file.rel_path@, line),
            ScanEvent::Modified(file) => self.shows_path(
                StatusKind::Modified,
                file.rel_path@,
                line,
            ),
            ScanEvent::Unchanged(_) => line is Nothing,
            ScanEvent::Deleted(path) => self.shows_path(StatusKind::Deleted, path@, line),
            ScanEvent::Progress(stats) => if self.progress {
                line is Progress && line->Progress_0@ == scan_line(stats, self.changes)
            } else {
                line is Nothing
            },
        }
    }

    /// Whether a line is what the status shows of a path.
    pub open spec fn shows_path(self, kind: StatusKind, path: Seq<char>, line: ReportLine) -> bool {
        if self.verbose {
            line is Line && line->Line_0@ == path_line(kind, path)
        } else {
            line is Nothing
        }
    }

    /// The last line of the report.
    pub open spec fn summary(self) -> Seq<char> {
        let changes = self.changes;
        if changes.new == 0 && changes.modified == 0 && changes.deleted == 0 {
            "0 new, 0 modified, 0 deleted, "@ + decimal(changes.unchanged as nat)
                + " unchanged, "@ + decimal(self.stats.dirs as nat)
                + " dirs — working tree clean"@
        } else {
            decimal(changes.new as nat) + " new, "@ + decimal(changes.modified as nat)
                + " modified, "@ + decimal(changes.deleted as nat) + " deleted, "@ + decimal(
                changes.unchanged as nat,
            ) + " unchanged, "@ + decimal(self.stats.dirs as nat)
                + " dirs — run `tgfs push` to upload"@
        }
    }

    /// The lines at the end of the report.
    pub open spec fn closing(self) -> Seq<Seq<char>> {
        if self.verbose {
            seq![self.summary()]
        } else {
            (category_lines(StatusKind::New, self.new, self.changes.new) + category_lines(
                StatusKind::Modified,
                self.modified,
                self.changes.modified,
            ) + category_lines(
                StatusKind::Deleted,
                self.deleted,
                self.changes.deleted,
            )).push(self.summary())
        }
    }
}

/// What the status has seen before any event.
pub open spec fn fresh_report(verbose: bool, progress: bool) -> ReporterView {
    ReporterView {
        verbose,
        progress,
        changes: Changes { new: 0, modified: 0, deleted: 0, unchanged: 0 },
        new: Seq::empty(),
        modified: Seq::empty(),
        deleted: Seq::empty(),
        stats: ScanStats { scanned: 0, dirs: 0, bytes: 0 },
    }
}

/// What the status has seen after events in a row.
pub open spec fn after_all(report: ReporterView, events: Seq<ScanEvent>) -> ReporterView
    decreases events.len(),
{
    if events.len() == 0 {
        report
    } else {
        after_all(report, events.drop_last()).after(events.last())
    }
}

/// Whether an event tells of a path of a kind.
pub open spec fn is_of(kind: StatusKind) -> spec_fn(ScanEvent) -> bool {
    |event: ScanEvent|
        match kind {
            StatusKind::New => event is New,
            StatusKind::Modified => event is Modified,
            StatusKind::Deleted => event is Deleted,
        }
}

/// The path that an event tells of.
pub open spec fn path_of(event: ScanEvent) -> Seq<char> {
    match event {
        ScanEvent::New(file) | ScanEvent::Modified(file) | ScanEvent::Unchanged(
            file,
        ) => file.rel_path@,
        ScanEvent::Deleted(path) => path@,
        ScanEvent::Progress(_) => Seq::empty(),
    }
}

/// The paths of the events of a kind, in order.
pub open spec fn paths_of(events: Seq<ScanEvent>, kind: StatusKind) -> Seq<Seq<char>> {
    events.filter(is_of(kind)).map_values(|event: ScanEvent| path_of(event))
}

/// What is listed of paths: the first ones up to the limit, or none where each was shown at once.
pub open spec fn listed(paths: Seq<Seq<char>>, verbose: bool) -> Seq<Seq<char>> {
    if verbose {
        Seq::empty()
    } else if paths.len() <= STATUS_PATH_LIMIT {
        paths
    } else {
        paths.subrange(0, STATUS_PATH_LIMIT as int)
    }
}

/// The paths of a kind with one more event.
proof fn paths_of_last(events: Seq<ScanEvent>, kind: StatusKind)
    requires
        events.len() > 0,
    ensures
        paths_of(events, kind) == if is_of(kind)(events.last()) {
            paths_of(events.drop_last(), kind).push(path_of(events.last()))
        } else {
            paths_of(events.drop_last(), kind)
        },
{
    reveal(Seq::filter);
    let path = |event: ScanEvent| path_of(event);
    let front = events.drop_last().filter(is_of(kind));
    assert(front.push(events.last()).map_values(path) =~= front.map_values(path).push(
        path_of(events.last()),
    ));
}

/// Keeping one path more is listing one more.
proof fn listed_last(paths: Seq<Seq<char>>, path: Seq<char>, verbose: bool)
    ensures
        kept(listed(paths, verbose), path, verbose) == listed(paths.push(path), verbose),
{
    assert(kept(listed(paths, verbose), path, verbose) =~= listed(paths.push(path), verbose));
}

/// Over a whole scan the status counts the events of each kind, progress under none, and lists of
/// each kind the paths of the first events, in order, as many as the limit lets; where it shows
/// each path at once it lists none.
pub proof fn status_tells_all(verbose: bool, progress: bool, events: Seq<ScanEvent>)
    requires
        events.len() <= u64::MAX,
    ensures
        ({
            let end = after_all(fresh_report(verbose, progress), events);
            let new = paths_of(events, StatusKind::New);
            let modified = paths_of(events, StatusKind::Modified);
            let deleted = paths_of(events, StatusKind::Deleted);
            let unchanged = events.filter(|event: ScanEvent| event is Unchanged);
            &&& end.verbose == verbose && end.progress == progress
            &&& end.changes == counts(events)
            &&& end.changes.new == new.len() && end.new == listed(new, verbose)
            &&& end.changes.modified == modified.len() && end.modified == listed(modified, verbose)
            &&& end.changes.deleted == deleted.len() && end.deleted == listed(deleted, verbose)
            &&& end.changes.unchanged == unchanged.len()
            &&& new.len() + modified.len() + deleted.len() + unchanged.len() <= events.len()
        }),
    decreases events.len(),
{
    reveal(Seq::filter);
    let same = |event: ScanEvent| event is Unchanged;
    if events.len() == 0 {
        assert(paths_of(events, StatusKind::New) =~= Seq::empty());
        assert(paths_of(events, StatusKind::Modified) =~= Seq::empty());
        assert(paths_of(events, StatusKind::Deleted) =~= Seq::empty());
    } else {
        let front = events.drop_last();
        status_tells_all(verbose, progress, front);
        paths_of_last(events, StatusKind::New);
        paths_of_last(events, StatusKind::Modified);
        paths_of_last(events, StatusKind::Deleted);
        let path = path_of(events.last());
        listed_last(paths_of(front, StatusKind::New), path, verbose);
        listed_last(paths_of(front, StatusKind::Modified), path, verbose);
        listed_last(paths_of(front, StatusKind::Deleted), path, verbose);
        assert(events.filter(same).len() == front.filter(same).len() + if same(events.last()) {
            1nat
        } else {
            0nat
        });
    }
}

/// The report of a scan.
pub struct StatusReporter {
    verbose: bool,
    progress: bool,
    changes: Changes,
    new: Vec<String>,
    modified: Vec<String>,
    deleted: Vec<String>,
    stats: ScanStats,
}

impl View for StatusReporter {
    type V = ReporterView;

    closed spec fn view(&self) -> ReporterView {
        ReporterView {
            verbose: self.verbose,
            progress: self.progress,
            changes: self.changes,
            new: texts(self.new@),
            modified: texts(self.modified@),
            deleted: texts(self.deleted@),
            stats: self.stats,
        }
    }
}

/// Keeps a path, if it is to be kept.
fn keep_path(paths: &mut Vec<String>, path: String)
    ensures
        texts(final(paths)@) == kept(texts(old(paths)@), path@, false),
{
    if paths.len() < STATUS_PATH_LIMIT {
        paths.push(path);
        assert(texts(paths@) =~= texts(old(paths)@).push(path@));
    }
}

impl StatusReporter {
    /// A report of nothing yet. `progress` tells whether progress is shown.
    pub fn new(verbose: bool, progress: bool) -> (r: Self)
        ensures
            r@ == fresh_report(verbose, progress),
    {
        let r = StatusReporter {
            verbose,
            progress,
            changes: Changes::default(),
            new: Vec::new(),
            modified: Vec::new(),
            deleted: Vec::new(),
            stats: ScanStats::default(),
        };
        proof {
            assert(texts(r.new@) =~= Seq::<Seq<char>>::empty());
            assert(texts(r.modified@) =~= Seq::<Seq<char>>::empty());
            assert(texts(r.deleted@) =~= Seq::<Seq<char>>::empty());
        }
        r
    }

    /// Takes a path that differs.
    fn path(&mut self, kind: StatusKind, path: String) -> (r: ReportLine)
        ensures
            old(self)@.shows_path(kind, path@, r),
            final(self)@ == match kind {
                StatusKind::New => ReporterView {
                    new: kept(old(self)@.new, path@, old(self)@.verbose),
                    ..old(self)@
                },
                StatusKind::Modified => ReporterView {
                    modified: kept(old(self)@.modified, path@, old(self)@.verbose),
                    ..old(self)@
                },
                StatusKind::Deleted => ReporterView {
                    deleted: kept(old(self)@.deleted, path@, old(self)@.verbose),
                    ..old(self)@
                },
            },
    {
        if self.verbose {
            return ReportLine::Line(show_path(kind, path.as_str()));
        }
        match kind {
            StatusKind::New => keep_path(&mut self.new, path),
            StatusKind::Modified => keep_path(&mut self.modified, path),
            StatusKind::Deleted => keep_path(&mut self.deleted, path),
        }
        ReportLine::Nothing
    }

    /// Takes an event of the scan. Returns the line to show.
    pub fn event(&mut self, event: ScanEvent) -> (r: ReportLine)
        requires
            old(self)@.changes.has_room(event),
            old(self)@.changes.new + old(self)@.changes.modified + old(self)@.changes.deleted
                <= u64::MAX,
        ensures
            final(self)@ == old(self)@.after(event),
            old(self)@.shows(event, r),
    {
        self.changes.count(&event);
        match event {
            ScanEvent::New(file) => self.path(StatusKind::New, file.rel_path),
            ScanEvent::Modified(file) => self.path(StatusKind::Modified, file.rel_path),
            ScanEvent::Unchanged(_) => ReportLine::Nothing,
            ScanEvent::Deleted(path) => self.path(StatusKind::Deleted, path),
            ScanEvent::Progress(stats) => {
                self.stats = stats;
                if !self.progress {
                    return ReportLine::Nothing;
                }
                let changed: u64 = self.changes.new + self.changes.modified
                    + self.changes.deleted;
                let mut line = "\r\x1b[2Kscanning… ".to_owned();
                push_decimal(&mut line, stats.scanned);
                line.append(" files, ");
                push_decimal(&mut line, stats.dirs);
                line.append(" dirs (");
                line.append(human_size(stats.bytes).as_str());
                line.append("), ");
                push_decimal(&mut line, changed);
                line.append(" changed");
                ReportLine::Progress(line)
            },
        }
    }

    /// Ends the report. Returns the lines at its end, and the counts.
    pub fn finish(self) -> (r: (Vec<String>, Changes))
        ensures
            texts(r.0@) == self@.closing(),
            r.1 == self@.changes,
    {
        let mut lines: Vec<String> = Vec::new();
        assert(texts(lines@) =~= Seq::<Seq<char>>::empty());
        if !self.verbose {
            print_category(&mut lines, StatusKind::New, &self.new, self.changes.new);
            print_category(
                &mut lines,
                StatusKind::Modified,
                &self.modified,
                self.changes.modified,
            );
            print_category(&mut lines, StatusKind::Deleted, &self.deleted, self.changes.deleted);
        }
        let ghost before = lines@;
        let mut s = String::new();
        if self.changes.is_clean() {
            s.append("0 new, 0 modified, 0 deleted, ");
            push_decimal(&mut s, self.changes.unchanged);
            s.append(" unchanged, ");
            push_decimal(&mut s, self.stats.dirs);
            s.append(" dirs — working tree clean");
        } else {
            push_decimal(&mut s, self.changes.new);
            s.append(" new, ");
            push_decimal(&mut s, self.changes.modified);
            s.append(" modified, ");
            push_decimal(&mut s, self.changes.deleted);
            s.append(" deleted, ");
            push_decimal(&mut s, self.changes.unchanged);
            s.append(" unchanged, ");
            push_decimal(&mut s, self.stats.dirs);
            s.append(" dirs — run `tgfs push` to upload");
        }
        assert(s@ =~= self@.summary());
        lines.push(s);
        assert(texts(lines@) =~= texts(before).push(s@));
        assert(texts(lines@) =~= self@.closing());
        (lines, self.changes)
    }
}

/// Which files are packed: those below the threshold, and none where the threshold is zero.
pub proof fn small_files_are_packed(push: PushView, file: LocalFile)
    ensures
        push.settings.pack.threshold == 0 ==> !push.packs(file),
        push.packs(file) <==> file.size < push.settings.pack.threshold,
{
}

/// A file needs no upload just if it is empty or its first chunk is stored.
pub proof fn stored_content_is_known(entry: FileView, index: IndexView)
    ensures
        entry.chunks.len() == 0 ==> is_known(entry, index),
        entry.chunks.len() > 0 ==> (is_known(entry, index) <==> index.chunks.dom().contains(
            entry.chunks[0],
        )),
{
}

/// Files of a stored pack are recorded up to the first that lists a chunk which is not stored.
pub proof fn first_refused_is_first(
    files: Seq<FileView>,
    chunks: Map<Seq<char>, ChunkView>,
    from: int,
)
    requires
        0 <= from <= files.len(),
    ensures
        from <= first_refused(files, chunks, from) <= files.len(),
        forall|i: int, j: int|
            #![trigger files[i].chunks[j]]
            from <= i < first_refused(files, chunks, from) && 0 <= j < files[i].chunks.len()
                ==> chunks.dom().contains(files[i].chunks[j]),
        first_refused(files, chunks, from) < files.len() ==> exists|j: int|
            0 <= j < files[first_refused(files, chunks, from)].chunks.len()
                && !chunks.dom().contains(
                #[trigger] files[first_refused(files, chunks, from)].chunks[j],
            ),
    decreases files.len() - from,
{
    if from < files.len() {
        let list = files[from].chunks;
        if all_stored(chunks, list) {
            first_refused_is_first(files, chunks, from + 1);
            assert forall|i: int, j: int|
                #![trigger files[i].chunks[j]]
                from <= i < first_refused(files, chunks, from) && 0 <= j
                    < files[i].chunks.len() implies chunks.dom().contains(files[i].chunks[j]) by {
                if i == from {
                    assert(chunks.dom().contains(list[j]));
                }
            }
        } else {
            let j = choose|j: int|
                0 <= j < list.len() && !chunks.dom().contains(#[trigger] list[j]);
            assert(!chunks.dom().contains(files[from].chunks[j]));
        }
    }
}

/// What an event does to a push: an unchanged file is counted, a deleted one is marked and counted
/// if it was present, a new or modified one is taken in hand; nothing else changes, and no event
/// but that of a deleted file touches the index.
pub proof fn events_do_their_part_alone(push: PushView, index: IndexView, event: ScanEvent)
    ensures
        ({
            let (after, rows) = taken(push, index, event);
            let path = event->Deleted_0@;
            let there = event is Deleted && index.files.dom().contains(path)
                && !index.files[path].deleted;
            &&& rows.chunks == index.chunks && rows.journal == index.journal && rows.version
                == index.version && rows.snapshots == index.snapshots
            &&& rows.files.dom() == index.files.dom()
            &&& forall|p: Seq<char>| #[trigger]
                index.files.dom().contains(p) ==> {
                    &&& rows.files[p].deleted <==> index.files[p].deleted || (event is Deleted && p
                        == path)
                    &&& rows.files[p].size == index.files[p].size && rows.files[p].mtime
                        == index.files[p].mtime && rows.files[p].hash == index.files[p].hash
                        && rows.files[p].chunks == index.files[p].chunks && rows.files[p].path
                        == index.files[p].path
                }
            &&& after.skipped == push.skipped + if event is Unchanged {
                1int
            } else {
                0
            }
            &&& after.tombstoned == push.tombstoned + if there {
                1int
            } else {
                0
            }
            &&& after.changed == push.changed + if event is New || event is Modified {
                1int
            } else {
                0
            }
            &&& after.busy == (push.busy || event is New || event is Modified)
            &&& after.pending == push.pending && after.uploaded_files == push.uploaded_files
                && after.uploaded_bytes == push.uploaded_bytes && after.settings == push.settings
        }),
{
    let (after, rows) = taken(push, index, event);
    assert(rows.files.dom() =~= index.files.dom());
}

/// The lines of a kind show each path that was kept, in order, and how many were not kept if any
/// were.
pub proof fn status_lines_show_the_paths(
    kind: StatusKind,
    paths: Seq<Seq<char>>,
    total: u64,
    i: int,
)
    requires
        0 <= i < paths.len(),
    ensures
        category_lines(kind, paths, total).len() == paths.len() + if total > paths.len() {
            1int
        } else {
            0
        },
        category_lines(kind, paths, total)[i] == "  "@ + kind.label_text() + paths[i],
        total > paths.len() ==> category_lines(kind, paths, total).last() == "  "@
            + kind.label_text() + "… and "@ + decimal((total - paths.len()) as nat)
            + " more (use -v to list all)"@,
{
}

/// Whether a member stands for the one chunk of a file at a place of a pack.
pub open spec fn packed_as(
    member: PackMember,
    file: LocalFile,
    entry: FileView,
    offset: int,
    encrypted: bool,
) -> bool {
    &&& member.hash@ == entry.chunks[0]
    &&& member.abs_path@ == file.abs_path@
    &&& member.size == file.size
    &&& member.offset == offset
    &&& member.stored_len == stored_len_of(file.size as int, encrypted)
}

/// A file that joins the pack is read whole from where it was walked, under the hash of its
/// content, and is put right behind what is in the pack already: the pack stays in one piece and
/// grows by what the file stores.
pub proof fn files_join_the_pack_at_its_end(
    pending: PendingView,
    member: PackMember,
    file: LocalFile,
    entry: FileView,
    encrypted: bool,
    target_size: int,
)
    requires
        pending.wf(encrypted, target_size),
        packed_as(member, file, entry, pending.stored_size, encrypted),
    ensures
        member.size == file.size,
        member.abs_path@ == file.abs_path@,
        member.hash@ == entry.chunks[0],
        pending.members.len() == 0 ==> member.offset == 0,
        pending.members.len() > 0 ==> member.offset
            == pending.members[pending.members.len() - 1].offset
            + pending.members[pending.members.len() - 1].stored_len,
        !encrypted ==> member.stored_len == file.size,
        encrypted ==> member.stored_len >= file.size && (file.size > 0 ==> member.stored_len
            >= file.size + 16),
{
}

/// A pack is stored before a file joins it just if with the file it would be longer than packs are
/// to be; the first file of a pack always joins it.
pub proof fn packs_are_filled(
    pending: PendingView,
    member: PackMember,
    encrypted: bool,
    target_size: int,
)
    requires
        pending.wf(encrypted, target_size),
        member.offset == pending.stored_size,
    ensures
        pending.overflows(member.stored_len as int, target_size) <==> pending.members.len() > 0
            && pack_len(pending.members.push(member)) > target_size,
{
}

/// What is told of the versions names them, the local one before that of the snapshot.
pub proof fn descriptions_name_the_versions(local: u64, remote: u64)
    ensures
        ({
            let same = VersionState::UpToDate(local).text();
            let start = "index up to date with remote (v"@;
            &&& start.is_prefix_of(same)
            &&& leading_u64(same.subrange(start.len() as int, same.len() as int)) == Some(local)
        }),
        ({
            let behind = VersionState::Behind(local, remote).text();
            let start = "index BEHIND remote (local v"@;
            let middle = start + decimal(local as nat) + ", remote v"@;
            &&& middle.is_prefix_of(behind)
            &&& leading_u64(behind.subrange(start.len() as int, behind.len() as int)) == Some(local)
            &&& leading_u64(behind.subrange(middle.len() as int, behind.len() as int)) == Some(
                remote,
            )
        }),
        ({
            let ahead = VersionState::Ahead(local, remote).text();
            let start = "index AHEAD of remote (local v"@;
            let middle = start + decimal(local as nat) + ", remote v"@;
            &&& middle.is_prefix_of(ahead)
            &&& leading_u64(ahead.subrange(start.len() as int, ahead.len() as int)) == Some(local)
            &&& leading_u64(ahead.subrange(middle.len() as int, ahead.len() as int)) == Some(
                remote,
            )
        }),
{
    let l = decimal(local as nat);
    reveal_strlit(")");
    reveal_strlit(", remote v");
    reveal_strlit(") — run `tgfs pull`");
    reveal_strlit(") — a previous push may not have finished; `tgfs push` will re-publish");
    let same = VersionState::UpToDate(local).text();
    let a = "index up to date with remote (v"@;
    assert(same.subrange(a.len() as int, same.len() as int) =~= l + ")"@);
    assert(same.subrange(0, a.len() as int) =~= a);
    leading_u64_of_decimal(local, ")"@);
    let end = ") — run `tgfs pull`"@;
    let behind = VersionState::Behind(local, remote).text();
    let b = "index BEHIND remote (local v"@;
    two_numbers_are_read(b, local, ", remote v"@, remote, end, behind);
    let rest = ") — a previous push may not have finished; `tgfs push` will re-publish"@;
    let ahead = VersionState::Ahead(local, remote).text();
    let c = "index AHEAD of remote (local v"@;
    two_numbers_are_read(c, local, ", remote v"@, remote, rest, ahead);
}

/// The status gives how many files are new, modified, deleted and unchanged, and how many
/// directories there are; it says that the tree is clean just if no file is new, modified or
/// deleted.
pub proof fn clean_is_said_truly(report: ReporterView)
    ensures
        ({
            let changes = report.changes;
            let clean = changes.new == 0 && changes.modified == 0 && changes.deleted == 0;
            let counts = decimal(changes.new as nat) + " new, "@ + decimal(changes.modified as nat)
                + " modified, "@ + decimal(changes.deleted as nat) + " deleted, "@ + decimal(
                changes.unchanged as nat,
            ) + " unchanged, "@ + decimal(report.stats.dirs as nat) + " dirs"@;
            report.summary() == counts + if clean {
                " — working tree clean"@
            } else {
                " — run `tgfs push` to upload"@
            }
        }),
{
    reveal_strlit("0 new, 0 modified, 0 deleted, ");
    reveal_strlit(" new, ");
    reveal_strlit(" modified, ");
    reveal_strlit(" deleted, ");
    reveal_strlit(" dirs");
    reveal_strlit(" — working tree clean");
    reveal_strlit(" — run `tgfs push` to upload");
    reveal_strlit(" dirs — working tree clean");
    reveal_strlit(" dirs — run `tgfs push` to upload");
    assert(decimal(0) =~= seq!['0']);
    assert(" dirs — working tree clean"@ =~= " dirs"@ + " — working tree clean"@);
    assert(" dirs — run `tgfs push` to upload"@ =~= " dirs"@ + " — run `tgfs push` to upload"@);
    let zero = decimal(0);
    assert("0 new, 0 modified, 0 deleted, "@ =~= zero + " new, "@ + zero + " modified, "@ + zero
        + " deleted, "@);
    let changes = report.changes;
    let unchanged = decimal(changes.unchanged as nat) + " unchanged, "@;
    let dirs = decimal(report.stats.dirs as nat);
    let counts = decimal(changes.new as nat) + " new, "@ + decimal(changes.modified as nat)
        + " modified, "@ + decimal(changes.deleted as nat) + " deleted, "@ + decimal(
        changes.unchanged as nat,
    ) + " unchanged, "@ + dirs + " dirs"@;
    if changes.new == 0 && changes.modified == 0 && changes.deleted == 0 {
        assert(report.summary() =~= counts + " — working tree clean"@);
    } else {
        assert(report.summary() =~= counts + " — run `tgfs push` to upload"@);
    }
}

/// The status ends with its summary. Before it, unless each path was shown at once, stand the new
/// files, the modified ones and the deleted ones, each kind with how many there are of it.
pub proof fn status_closes_in_order(report: ReporterView)
    ensures
        ({
            let lines = report.closing();
            let new = category_lines(StatusKind::New, report.new, report.changes.new);
            let modified = category_lines(
                StatusKind::Modified,
                report.modified,
                report.changes.modified,
            );
            let deleted = category_lines(
                StatusKind::Deleted,
                report.deleted,
                report.changes.deleted,
            );
            &&& lines.len() > 0
            &&& lines.last() == report.summary()
            &&& report.verbose ==> lines.len() == 1
            &&& !report.verbose ==> lines.drop_last() == new + modified + deleted
        }),
{
    assert(report.verbose || report.closing().drop_last() =~= category_lines(
        StatusKind::New,
        report.new,
        report.changes.new,
    ) + category_lines(StatusKind::Modified, report.modified, report.changes.modified)
        + category_lines(StatusKind::Deleted, report.deleted, report.changes.deleted));
}

/// The labels of the three kinds are of one width and begin differently, so that the paths behind
/// them stand in one column.
pub proof fn labels_tell_the_kinds_apart()
    ensures
        "new:"@.is_prefix_of(StatusKind::New.label_text()),
        "modified:"@.is_prefix_of(StatusKind::Modified.label_text()),
        "deleted:"@.is_prefix_of(StatusKind::Deleted.label_text()),
        StatusKind::New.label_text().len() == StatusKind::Modified.label_text().len(),
        StatusKind::Deleted.label_text().len() == StatusKind::Modified.label_text().len(),
{
    reveal_strlit("new:");
    reveal_strlit("modified:");
    reveal_strlit("deleted:");
    reveal_strlit("new:     ");
    reveal_strlit("deleted: ");
}

/// The line of a running push has the files and directories that were scanned, the files that
/// changed and those that are uploaded, in this order, each before its word.
#[verifier::spinoff_prover]
pub proof fn push_lines_have_the_numbers(stats: ScanStats, changed: u64, uploaded: u64)
    ensures
        ({
            let line = push_line(stats, changed as nat, uploaded as nat);
            let a = "\r\x1b[2Kpushing… "@;
            let b = a + decimal(stats.scanned as nat) + " files, "@;
            let c = b + decimal(stats.dirs as nat) + " dirs scanned ("@ + shown_size(
                stats.bytes as int,
            ) + "), "@;
            let d = c + decimal(changed as nat) + " changed, "@;
            let n = line.len() as int;
            &&& d.is_prefix_of(line)
            &&& leading_u64(line.subrange(a.len() as int, n)) == Some(stats.scanned)
            &&& leading_u64(line.subrange(b.len() as int, n)) == Some(stats.dirs)
            &&& leading_u64(line.subrange(c.len() as int, n)) == Some(changed)
            &&& leading_u64(line.subrange(d.len() as int, n)) == Some(uploaded)
        }),
{
    reveal_strlit(" files, ");
    reveal_strlit(" dirs scanned (");
    reveal_strlit(" changed, ");
    reveal_strlit(" uploaded");
    let line = push_line(stats, changed as nat, uploaded as nat);
    let a = "\r\x1b[2Kpushing… "@;
    let size = shown_size(stats.bytes as int);
    let b = a + decimal(stats.scanned as nat) + " files, "@;
    let c = b + decimal(stats.dirs as nat) + " dirs scanned ("@ + size + "), "@;
    let d = c + decimal(changed as nat) + " changed, "@;
    let e = d + decimal(uploaded as nat);
    assert(line =~= e + " uploaded"@);
    assert(e.len() < line.len() && !is_digit(line[e.len() as int]));
    assert(d =~= line.subrange(0, d.len() as int));
    assert(e =~= line.subrange(0, e.len() as int));
    number_is_read(d, uploaded, line);
    let f = c + decimal(changed as nat);
    assert(f =~= line.subrange(0, f.len() as int));
    assert(line[f.len() as int] == d[f.len() as int]);
    number_is_read(c, changed, line);
    let g = b + decimal(stats.dirs as nat);
    assert(g =~= line.subrange(0, g.len() as int));
    assert(line[g.len() as int] == c[g.len() as int]);
    number_is_read(b, stats.dirs, line);
    let h = a + decimal(stats.scanned as nat);
    assert(h =~= line.subrange(0, h.len() as int));
    assert(line[h.len() as int] == b[h.len() as int]);
    number_is_read(a, stats.scanned, line);
}

/// The line of a running status has the files and directories that were scanned, and how many files
/// changed in whichever way.
#[verifier::spinoff_prover]
pub proof fn scan_lines_have_the_numbers(stats: ScanStats, changes: Changes)
    requires
        changes.new + changes.modified + changes.deleted <= u64::MAX,
    ensures
        ({
            let line = scan_line(stats, changes);
            let a = "\r\x1b[2Kscanning… "@;
            let b = a + decimal(stats.scanned as nat) + " files, "@;
            let c = b + decimal(stats.dirs as nat) + " dirs ("@ + shown_size(stats.bytes as int)
                + "), "@;
            let n = line.len() as int;
            &&& c.is_prefix_of(line)
            &&& leading_u64(line.subrange(a.len() as int, n)) == Some(stats.scanned)
            &&& leading_u64(line.subrange(b.len() as int, n)) == Some(stats.dirs)
            &&& leading_u64(line.subrange(c.len() as int, n)) == Some(
                (changes.new + changes.modified + changes.deleted) as u64,
            )
        }),
{
    reveal_strlit(" files, ");
    reveal_strlit(" dirs (");
    reveal_strlit(" changed");
    let line = scan_line(stats, changes);
    let a = "\r\x1b[2Kscanning… "@;
    let size = shown_size(stats.bytes as int);
    let b = a + decimal(stats.scanned as nat) + " files, "@;
    let c = b + decimal(stats.dirs as nat) + " dirs ("@ + size + "), "@;
    number_is_read(a, stats.scanned, line);
    number_is_read(b, stats.dirs, line);
    number_is_read(c, (changes.new + changes.modified + changes.deleted) as u64, line);
}

/// A number that stands behind the front of a line, and before something that is not a digit, is
/// read back there.
proof fn number_is_read(front: Seq<char>, number: u64, line: Seq<char>)
    requires
        front.len() + decimal(number as nat).len() < line.len(),
        (front + decimal(number as nat)).is_prefix_of(line),
        !is_digit(line[(front.len() + decimal(number as nat).len()) as int]),
    ensures
        leading_u64(line.subrange(front.len() as int, line.len() as int)) == Some(number),
{
    let text = decimal(number as nat);
    let n = line.len() as int;
    let both = front + text;
    let rest = line.subrange(both.len() as int, n);
    assert(both =~= line.subrange(0, both.len() as int));
    assert(line.subrange(front.len() as int, n) =~= text + rest) by {
        assert forall|i: int| 0 <= i < text.len() implies line[front.len() + i] == text[i] by {
            assert(both[front.len() + i] == line[front.len() + i]);
        }
    }
    leading_u64_of_decimal(number, rest);
}

/// The status lists at most twenty paths of a kind, the first ones.
pub proof fn the_first_twenty_are_listed(paths: Seq<Seq<char>>, path: Seq<char>)
    ensures
        listed(paths, true).len() == 0,
        listed(paths, false).is_prefix_of(paths),
        listed(paths, false).len() == if paths.len() < 20 {
            paths.len() as int
        } else {
            20
        },
        kept(listed(paths, false), path, false) == listed(paths.push(path), false),
        kept(paths, path, true) == paths,
{
    let more = paths.push(path);
    if paths.len() < 20 {
        assert(listed(more, false) =~= more);
    } else {
        assert(listed(paths, false) =~= paths.subrange(0, 20));
        assert(listed(more, false) =~= paths.subrange(0, 20));
    }
}

/// Whether progress is to be shown, by when it was shown last.
pub open spec fn is_due(last: Option<u64>, now: u64) -> bool {
    match last {
        Some(then) => now - then >= 500,
        None => true,
    }
}

/// Progress is shown at once, and then half a second after it was shown last at the earliest; what
/// is due stays due.
pub proof fn progress_is_shown_each_half_second(then: u64, now: u64, later: u64)
    ensures
        is_due(None, now),
        is_due(Some(then), now) <==> now >= then + 500,
        is_due(Some(then), now) && later >= now ==> is_due(Some(then), later),
{
}

/// A refused push is told what the comparison says, and a refused pull is told both versions, the
/// local one first.
pub proof fn refusals_name_the_versions(local: u64, remote: u64)
    ensures
        VersionState::Behind(local, remote).text().is_prefix_of(
            SyncError::Behind(local, remote).text(),
        ),
        ({
            let text = SyncError::Ahead(local, remote).text();
            let start = "local index (v"@;
            let middle = start + decimal(local as nat) + ") is ahead of remote (v"@;
            &&& middle.is_prefix_of(text)
            &&& leading_u64(text.subrange(start.len() as int, text.len() as int)) == Some(local)
            &&& leading_u64(text.subrange(middle.len() as int, text.len() as int)) == Some(remote)
        }),
{
    let told = VersionState::Behind(local, remote).text();
    let text = SyncError::Behind(local, remote).text();
    assert(told =~= text.subrange(0, told.len() as int));
    let between = ") is ahead of remote (v"@;
    let end = ") — pulling would discard local index state; use --force to roll back"@;
    reveal_strlit(") is ahead of remote (v");
    reveal_strlit(") — pulling would discard local index state; use --force to roll back");
    let ahead = SyncError::Ahead(local, remote).text();
    two_numbers_are_read("local index (v"@, local, between, remote, end, ahead);
}

/// What a status shows at an event: where each path is shown at once, the label and the path of a
/// new, modified or deleted file; where progress is asked for, the line with the numbers; and else
/// nothing.
pub proof fn status_shows_what_was_asked_for(
    report: ReporterView,
    event: ScanEvent,
    line: ReportLine,
)
    requires
        report.shows(event, line),
    ensures
        line is Line <==> report.verbose && (event is New || event is Modified || event is Deleted),
        event is New && line is Line ==> line->Line_0@ == "  "@ + StatusKind::New.label_text()
            + path_of(event),
        event is Modified && line is Line ==> line->Line_0@ == "  "@
            + StatusKind::Modified.label_text() + path_of(event),
        event is Deleted && line is Line ==> line->Line_0@ == "  "@
            + StatusKind::Deleted.label_text() + path_of(event),
        line is Progress <==> report.progress && event is Progress,
        line is Progress ==> line->Progress_0@ == scan_line(event->Progress_0, report.changes),
{
}

} // verus!
