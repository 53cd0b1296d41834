//! Snapshots of the index: how they are encoded, named, found again and imported.
use vstd::prelude::*;
use crate::crypto::{
    blob_opens_to, derived_keys, has_magic, seals_stream, Crypto, CryptoError, CryptoKeys,
    SNAPSHOT_MAGIC,
};
use crate::hashing::{blake3_digest, digest_of};
use crate::index::{is_complete, Index, IndexView, Snapshot, SnapshotRecord};
use crate::text::{
    chars_of, decimal, decimal_value, leading_number_is_of_all_digits, leading_u64,
    leading_u64_of_decimal, parse_leading_u64, push_decimal, push_signed, signed_decimal,
    text_starts_with, two_numbers_are_read,
};

verus! {

/// How hard snapshots are compressed.
pub const COMPRESSION_LEVEL: i32 = 9;

/// The error type of std's I/O.
#[verifier::external_type_specification]
#[verifier::external_body]
pub struct ExIoError(std::io::Error);

/// What a zstd stream decompresses to, if it is one.
pub uninterp spec fn zstd_decoded(stream: Seq<u8>) -> Option<Seq<u8>>;

/// The zstd stream that some bytes are compressed to at a level.
pub uninterp spec fn zstd_stream(data: Seq<u8>, level: i32) -> Seq<u8>;

/// `zstd::encode_all` compresses some bytes at a level. From memory to memory it always succeeds.
/// What it returns is a zstd stream that begins with the format's magic number and decompresses to
/// the bytes.
#[verifier::external_body]
fn zstd_encode(data: &[u8], level: i32) -> (r: Result<Vec<u8>, std::io::Error>)
    ensures
        r is Ok,
        r->Ok_0@ == zstd_stream(data@, level),
        zstd_decoded(r->Ok_0@) == Some(data@),
        is_compressed(r->Ok_0@),
{
    zstd::encode_all(data, level)
}

/// `zstd::decode_all` decompresses a zstd stream, and fails where the bytes are not one.
#[verifier::external_body]
fn zstd_decode(stream: &[u8]) -> (r: Result<Vec<u8>, std::io::Error>)
    ensures
        match zstd_decoded(stream@) {
            Some(data) => r is Ok && r->Ok_0@ == data,
            None => r is Err,
        },
{
    zstd::decode_all(stream)
}

/// A snapshot in the channel.
#[derive(Debug, Clone, Copy, PartialEq, Eq, Structural)]
pub struct RemoteIndexInfo {
    pub version: u64,
    pub msg_id: i32,
}

/// A downloaded snapshot, decrypted and ready to import.
#[derive(Debug)]
pub struct FetchedSnapshot {
    pub info: RemoteIndexInfo,
    /// The compressed snapshot.
    pub plain: Vec<u8>,
    /// Whether it was sealed.
    pub encrypted: bool,
}

/// What can go wrong with a snapshot.
#[derive(Debug, Clone, Copy, PartialEq, Eq, Structural)]
pub enum SnapshotError {
    /// Compression failed.
    Compress,
    /// The snapshot is not compressed data.
    NotZstd,
    /// The snapshot is sealed and no key was given.
    KeyRequired,
    /// The snapshot could not be sealed or opened.
    Crypto(CryptoError),
    /// The snapshot has another version than its caption says.
    VersionMismatch { caption: u64, snapshot: u64 },
    /// A file of the snapshot lists a chunk that the snapshot does not hold.
    Incomplete,
}

impl SnapshotError {
    /// A sentence for the user.
    pub open spec fn text(self) -> Seq<char> {
        match self {
            SnapshotError::Compress => "cannot compress the index snapshot"@,
            SnapshotError::NotZstd => "snapshot is not valid zstd"@,
            SnapshotError::KeyRequired =>
                "the remote snapshot is encrypted; supply --key or --keyfile"@,
            SnapshotError::Crypto(_) => "cannot decrypt the remote index snapshot"@,
            SnapshotError::VersionMismatch { caption, snapshot } => "pinned caption says v"@
                + decimal(caption as nat) + " but snapshot contains v"@ + decimal(snapshot as nat)
                + " — refusing to import"@,
            SnapshotError::Incomplete => "snapshot is not a valid tgfs index"@,
        }
    }

    /// A sentence for the user.
    pub fn message(&self) -> (r: String)
        ensures
            r@ == self.text(),
    {
        let mut s = String::new();
        match self {
            SnapshotError::Compress => {
                s.append("cannot compress the index snapshot");
            },
            SnapshotError::NotZstd => {
                s.append("snapshot is not valid zstd");
            },
            SnapshotError::KeyRequired => {
                s.append("the remote snapshot is encrypted; supply --key or --keyfile");
            },
            SnapshotError::Crypto(_) => {
                s.append("cannot decrypt the remote index snapshot");
            },
            SnapshotError::VersionMismatch { caption, snapshot } => {
                s.append("pinned caption says v");
                push_decimal(&mut s, *caption);
                s.append(" but snapshot contains v");
                push_decimal(&mut s, *snapshot);
                s.append(" — refusing to import");
            },
            SnapshotError::Incomplete => {
                s.append("snapshot is not a valid tgfs index");
            },
        }
        assert(s@ =~= self.text());
        s
    }
}

/// The caption of a snapshot.
pub open spec fn caption_text(version: u64, files: usize, chunks: usize, created_at: i64) -> Seq<
    char,
> {
    "tgfs-index v"@ + decimal(version as nat) + " files="@ + decimal(files as nat) + " chunks="@
        + decimal(chunks as nat) + " created="@ + signed_decimal(created_at as int)
}

/// The version that a caption names, if it is the caption of a snapshot.
pub open spec fn caption_version(text: Seq<char>) -> Option<u64> {
    let prefix = "tgfs-index v"@;
    if prefix.is_prefix_of(text) {
        leading_u64(text.subrange(prefix.len() as int, text.len() as int))
    } else {
        None
    }
}

/// The caption of a snapshot.
pub fn caption(version: u64, files: usize, chunks: usize, created_at: i64) -> (r: String)
    ensures
        r@ == caption_text(version, files, chunks, created_at),
        caption_version(r@) == Some(version),
{
    let mut s = "tgfs-index v".to_owned();
    push_decimal(&mut s, version);
    s.append(" files=");
    push_decimal(&mut s, files as u64);
    s.append(" chunks=");
    push_decimal(&mut s, chunks as u64);
    s.append(" created=");
    push_signed(&mut s, created_at);
    proof {
        caption_reads_back(version, files, chunks, created_at);
    }
    s
}

/// Reads the version out of a caption. `None` if it is not the caption of a snapshot.
pub fn parse_caption(text: &str) -> (r: Option<u64>)
    ensures
        r == caption_version(text@),
{
    if !text_starts_with(text, "tgfs-index v") {
        return None;
    }
    proof {
        reveal_strlit("tgfs-index v");
    }
    let chars = chars_of(text);
    parse_leading_u64(&chars, 12)
}

/// The version of a snapshot can be read back from its caption.
pub proof fn caption_reads_back(version: u64, files: usize, chunks: usize, created_at: i64)
    ensures
        caption_version(caption_text(version, files, chunks, created_at)) == Some(version),
{
    let text = caption_text(version, files, chunks, created_at);
    let prefix = "tgfs-index v"@;
    let rest = " files="@ + decimal(files as nat) + " chunks="@ + decimal(chunks as nat)
        + " created="@ + signed_decimal(created_at as int);
    reveal_strlit(" files=");
    assert(prefix =~= text.subrange(0, prefix.len() as int));
    assert(rest[0] == ' ');
    leading_u64_of_decimal(version, rest);
    assert(text.subrange(prefix.len() as int, text.len() as int) =~= decimal(version as nat)
        + rest);
}

/// The snapshot that a pinned message is, if it is one. The message is given by its text and id.
pub fn remote_index_info(text: &str, msg_id: i32) -> (r: Option<RemoteIndexInfo>)
    ensures
        r == match caption_version(text@) {
            Some(version) => Some(RemoteIndexInfo { version, msg_id }),
            None => None,
        },
{
    match parse_caption(text) {
        Some(version) => Some(RemoteIndexInfo { version, msg_id }),
        None => None,
    }
}

/// Those of some messages that are snapshots, in order.
pub open spec fn snapshots_among(messages: Seq<(String, i32)>) -> Seq<RemoteIndexInfo>
    decreases messages.len(),
{
    if messages.len() == 0 {
        Seq::empty()
    } else {
        let front = snapshots_among(messages.drop_last());
        match caption_version(messages.last().0@) {
            Some(version) => front.push(
                RemoteIndexInfo { version, msg_id: messages.last().1 },
            ),
            None => front,
        }
    }
}

/// Picks those of the pinned messages that are snapshots.
pub fn pinned_indices(messages: &Vec<(String, i32)>) -> (r: Vec<RemoteIndexInfo>)
    ensures
        r@ == snapshots_among(messages@),
{
    let mut found: Vec<RemoteIndexInfo> = Vec::new();
    let mut i: usize = 0;
    assert(messages@.subrange(0, 0) =~= Seq::<(String, i32)>::empty());
    while i < messages.len()
        invariant
            i <= messages@.len(),
            found@ == snapshots_among(messages@.subrange(0, i as int)),
        decreases messages@.len() - i,
    {
        proof {
            let next = messages@.subrange(0, i + 1);
            assert(next.drop_last() =~= messages@.subrange(0, i as int));
        }
        if let Some(info) = remote_index_info(messages[i].0.as_str(), messages[i].1) {
            found.push(info);
        }
        i += 1;
    }
    assert(messages@.subrange(0, i as int) =~= messages@);
    found
}

/// The messages of snapshots other than the one to keep, in order.
pub open spec fn others(found: Seq<RemoteIndexInfo>, keep: i32) -> Seq<i32>
    decreases found.len(),
{
    if found.len() == 0 {
        Seq::empty()
    } else {
        let front = others(found.drop_last(), keep);
        if found.last().msg_id == keep {
            front
        } else {
            front.push(found.last().msg_id)
        }
    }
}

/// Picks the snapshots to unpin: all but the one to keep.
pub fn unpin_previous(found: &Vec<RemoteIndexInfo>, keep: i32) -> (r: Vec<i32>)
    ensures
        r@ == others(found@, keep),
{
    let mut list: Vec<i32> = Vec::new();
    let mut i: usize = 0;
    assert(found@.subrange(0, 0) =~= Seq::<RemoteIndexInfo>::empty());
    while i < found.len()
        invariant
            i <= found@.len(),
            list@ == others(found@.subrange(0, i as int), keep),
        decreases found@.len() - i,
    {
        proof {
            let next = found@.subrange(0, i + 1);
            assert(next.drop_last() =~= found@.subrange(0, i as int));
        }
        if found[i].msg_id != keep {
            list.push(found[i].msg_id);
        }
        i += 1;
    }
    assert(found@.subrange(0, i as int) =~= found@);
    list
}

/// What is unpinned are the other snapshots, all of them, and never the one to keep.
pub proof fn one_pin_stays(found: Seq<RemoteIndexInfo>, keep: i32)
    ensures
        !others(found, keep).contains(keep),
        forall|i: int|
            0 <= i < found.len() && (#[trigger] found[i]).msg_id != keep ==> others(
                found,
                keep,
            ).contains(found[i].msg_id),
        forall|id: i32| #[trigger]
            others(found, keep).contains(id) ==> exists|i: int|
                0 <= i < found.len() && (#[trigger] found[i]).msg_id == id,
    decreases found.len(),
{
    let all = others(found, keep);
    if found.len() > 0 {
        let front = found.drop_last();
        let before = others(front, keep);
        one_pin_stays(front, keep);
        let last = found.last().msg_id;
        assert forall|id: i32| #[trigger] all.contains(id) implies before.contains(id) || (id
            == last && last != keep) by {
            let k = choose|k: int| 0 <= k < all.len() && all[k] == id;
            if k < before.len() {
                assert(before[k] == id);
            }
        }
        assert forall|i: int|
            0 <= i < found.len() && (#[trigger] found[i]).msg_id != keep implies all.contains(
            found[i].msg_id,
        ) by {
            if i < front.len() {
                assert(front[i] == found[i]);
                let k = choose|k: int| 0 <= k < before.len() && before[k] == found[i].msg_id;
                assert(all[k] == found[i].msg_id);
            } else {
                assert(all[all.len() - 1] == last);
            }
        }
        assert forall|id: i32| #[trigger] all.contains(id) implies exists|i: int|
            0 <= i < found.len() && (#[trigger] found[i]).msg_id == id by {
            if before.contains(id) {
                let i = choose|i: int| 0 <= i < front.len() && (#[trigger] front[i]).msg_id == id;
                assert(found[i].msg_id == id);
            } else {
                assert(found[found.len() - 1].msg_id == id);
            }
        }
    }
}

/// A step of moving the pin to a new snapshot.
#[derive(Debug, Clone, Copy, PartialEq, Eq, Structural)]
pub enum PinStep {
    /// Pin a message.
    Pin(i32),
    /// List the pinned snapshots.
    List,
    /// Unpin a message.
    Unpin(i32),
    /// Nothing is left to do.
    Done,
}

/// The pinned messages after a step.
pub open spec fn pins_after(pins: Set<i32>, step: PinStep) -> Set<i32> {
    match step {
        PinStep::Pin(id) => pins.insert(id),
        PinStep::Unpin(id) => pins.remove(id),
        _ => pins,
    }
}

/// How far the move of the pin is.
pub ghost struct PinView {
    /// The new snapshot.
    pub keep: i32,
    /// Whether the new snapshot is pinned.
    pub pinned: bool,
    /// Once the pinned snapshots are known, those still to be unpinned.
    pub left: Option<Seq<i32>>,
}

impl PinView {
    /// The next step: the new snapshot is pinned before any other is unpinned.
    pub open spec fn step(self) -> PinStep {
        if !self.pinned {
            PinStep::Pin(self.keep)
        } else {
            match self.left {
                None => PinStep::List,
                Some(left) => if left.len() == 0 {
                    PinStep::Done
                } else {
                    PinStep::Unpin(left[0])
                },
            }
        }
    }

    /// What always holds: the new snapshot is not among those to be unpinned.
    pub open spec fn wf(self) -> bool {
        &&& self.left is Some ==> self.pinned && !self.left->0.contains(self.keep)
    }

    /// Whether the move goes with the pinned messages: the new snapshot is among them once it is
    /// pinned.
    pub open spec fn fits(self, pins: Set<i32>) -> bool {
        self.wf() && (self.pinned ==> pins.contains(self.keep))
    }

    /// The move after a pin or unpin was done.
    pub open spec fn done(self) -> PinView {
        match self.step() {
            PinStep::Pin(_) => PinView { pinned: true, ..self },
            PinStep::Unpin(_) => PinView { left: Some(self.left->0.drop_first()), ..self },
            _ => self,
        }
    }
}

/// The move of the pin from earlier snapshots to a new one.
pub struct PinMove {
    keep: i32,
    pinned: bool,
    others: Option<Vec<i32>>,
    next: usize,
}

impl View for PinMove {
    type V = PinView;

    closed spec fn view(&self) -> PinView {
        PinView {
            keep: self.keep,
            pinned: self.pinned,
            left: match self.others {
                Some(list) => Some(list@.subrange(self.next as int, list@.len() as int)),
                None => None,
            },
        }
    }
}

impl PinMove {
    /// The invariant of a move.
    pub closed spec fn wf(&self) -> bool {
        &&& self@.wf()
        &&& self.others is Some ==> self.next <= self.others->0@.len()
    }

    /// Begins the move to a new snapshot.
    pub fn new(keep: i32) -> (r: Self)
        ensures
            r.wf(),
            r@ == (PinView { keep, pinned: false, left: None }),
            forall|pins: Set<i32>| #[trigger] r@.fits(pins),
    {
        PinMove { keep, pinned: false, others: None, next: 0 }
    }

    /// The next step. The new snapshot is pinned first, so that an interruption can only leave
    /// pins too many behind, never none.
    pub fn step(&self) -> (r: PinStep)
        requires
            self.wf(),
        ensures
            r == self@.step(),
            forall|pins: Set<i32>| #[trigger]
                self@.fits(pins) && self@.pinned ==> pins_after(pins, r).contains(self@.keep),
    {
        if !self.pinned {
            return PinStep::Pin(self.keep);
        }
        match &self.others {
            None => PinStep::List,
            Some(list) => {
                if self.next < list.len() {
                    assert(self@.left->0[0] == list@[self.next as int]);
                    assert(self@.left->0.contains(self@.left->0[0]));
                    PinStep::Unpin(list[self.next])
                } else {
                    PinStep::Done
                }
            },
        }
    }

    /// Notes that the step, a pin or unpin, was done.
    pub fn step_done(&mut self)
        requires
            old(self).wf(),
        ensures
            final(self).wf(),
            final(self)@ == old(self)@.done(),
            forall|pins: Set<i32>| #[trigger]
                old(self)@.fits(pins) ==> final(self)@.fits(pins_after(pins, old(self)@.step())),
    {
        let ghost left = self@.left;
        if !self.pinned {
            self.pinned = true;
            return;
        }
        if let Some(list) = &self.others {
            if self.next < list.len() {
                proof {
                    let rest = left->0.drop_first();
                    assert(list@.subrange(self.next + 1, list@.len() as int) =~= rest);
                    assert forall|id: i32| rest.contains(id) implies left->0.contains(id) by {
                        let i = choose|i: int| 0 <= i < rest.len() && rest[i] == id;
                        assert(left->0[i + 1] == id);
                    }
                    assert(left->0.contains(left->0[0]));
                }
                self.next = self.next + 1;
            }
        }
    }

    /// Takes the list of the pinned snapshots: all but the new one are to be unpinned.
    pub fn listed(&mut self, found: &Vec<RemoteIndexInfo>)
        requires
            old(self).wf(),
            old(self)@.pinned,
        ensures
            final(self).wf(),
            final(self)@ == (PinView { left: Some(others(found@, old(self)@.keep)), ..old(self)@ }),
            forall|pins: Set<i32>| #[trigger] old(self)@.fits(pins) ==> final(self)@.fits(pins),
    {
        let list = unpin_previous(found, self.keep);
        proof {
            one_pin_stays(found@, self.keep);
            assert(list@.subrange(0, list@.len() as int) =~= list@);
        }
        self.others = Some(list);
        self.next = 0;
    }
}

/// The pinned messages after the new snapshot was pinned and the first `n` others unpinned.
pub open spec fn pins_at(before: Set<i32>, found: Seq<RemoteIndexInfo>, keep: i32, n: int) -> Set<
    i32,
>
    decreases n,
{
    if n <= 0 {
        before.insert(keep)
    } else {
        pins_at(before, found, keep, n - 1).remove(others(found, keep)[n - 1])
    }
}

/// At every moment from the first pin on, the new snapshot is pinned; before that the pins are as
/// they were. In the end none of the other snapshots that were listed is pinned.
pub proof fn a_pin_is_always_there(
    before: Set<i32>,
    found: Seq<RemoteIndexInfo>,
    keep: i32,
    n: int,
)
    requires
        0 <= n <= others(found, keep).len(),
    ensures
        pins_at(before, found, keep, n).contains(keep),
        forall|i: int|
            0 <= i < n ==> !pins_at(before, found, keep, n).contains(
                #[trigger] others(found, keep)[i],
            ),
        n == others(found, keep).len() ==> forall|i: int|
            0 <= i < found.len() && (#[trigger] found[i]).msg_id != keep ==> !pins_at(
                before,
                found,
                keep,
                n,
            ).contains(found[i].msg_id),
    decreases n,
{
    let list = others(found, keep);
    one_pin_stays(found, keep);
    if n > 0 {
        a_pin_is_always_there(before, found, keep, n - 1);
        assert(list.contains(list[n - 1]));
    }
    if n == list.len() {
        assert forall|i: int|
            0 <= i < found.len() && (#[trigger] found[i]).msg_id != keep implies !pins_at(
            before,
            found,
            keep,
            n,
        ).contains(found[i].msg_id) by {
            let k = choose|k: int| 0 <= k < list.len() && list[k] == found[i].msg_id;
            assert(list[k] == found[i].msg_id);
        }
    }
}

/// The name of a snapshot document.
pub open spec fn snapshot_name_text(version: u64, encrypted: bool) -> Seq<char> {
    "tgfs-index-v"@ + decimal(version as nat) + ".json.zst"@ + if encrypted {
        ".enc"@
    } else {
        Seq::<char>::empty()
    }
}

/// The name of a snapshot document.
pub fn snapshot_name(version: u64, encrypted: bool) -> (r: String)
    ensures
        r@ == snapshot_name_text(version, encrypted),
{
    let mut name = "tgfs-index-v".to_owned();
    push_decimal(&mut name, version);
    name.append(".json.zst");
    if encrypted {
        name.append(".enc");
    }
    assert(name@ =~= snapshot_name_text(version, encrypted));
    name
}

/// Whether `raw` is the stored form of a compressed snapshot: the snapshot itself, or a sealed
/// container of it.
pub open spec fn stores(raw: Seq<u8>, compressed: Seq<u8>, keys: Option<CryptoKeys>) -> bool {
    match keys {
        Some(keys) => blob_opens_to(keys, compressed, raw),
        None => raw == compressed,
    }
}

/// Whether bytes begin as compressed data does.
pub open spec fn is_compressed(bytes: Seq<u8>) -> bool {
    bytes.len() >= 4 && bytes[0] == 0x28 && bytes[1] == 0xb5 && bytes[2] == 0x2f && bytes[3] == 0xfd
}

/// Seals a compressed snapshot, if the repository is encrypted. The context of the container is
/// the hash of what it holds.
pub fn seal_snapshot(compressed: Vec<u8>, crypto: Option<&Crypto>) -> (r: Result<
    Vec<u8>,
    SnapshotError,
>)
    ensures
        r is Ok,
        match crypto {
            Some(c) => {
                &&& stores(r->Ok_0@, compressed@, Some(c@))
                &&& has_magic(r->Ok_0@)
                &&& r->Ok_0@.len() >= 40
                &&& r->Ok_0@.subrange(8, 40) == blake3_digest(None, compressed@)
            },
            None => r->Ok_0@ == compressed@,
        },
{
    match crypto {
        Some(crypto) => {
            let context = digest_of(compressed.as_slice());
            match crypto.seal_blob(&context, compressed.as_slice()) {
                Ok(sealed) => {
                    assert(blob_opens_to(crypto@, compressed@, sealed@));
                    assert(sealed@.subrange(8, 40) =~= context@);
                    Ok(sealed)
                },
                Err(error) => Err(SnapshotError::Crypto(error)),
            }
        },
        None => Ok(compressed),
    }
}

/// Whether `raw` is how a snapshot is stored in the channel, given its serialized form: compressed
/// and, where there are keys, sealed with the hash of the compressed form as context.
pub open spec fn is_encoded(raw: Seq<u8>, json: Seq<u8>, keys: Option<CryptoKeys>) -> bool {
    let compressed = zstd_stream(json, COMPRESSION_LEVEL);
    &&& zstd_decoded(compressed) == Some(json)
    &&& is_compressed(compressed)
    &&& stores(raw, compressed, keys)
    &&& keys is Some ==> raw.subrange(8, 40) == blake3_digest(None, compressed)
}

/// Encodes a snapshot for the channel: compresses it, and seals it if the repository is
/// encrypted.
pub fn encode_snapshot(json: &[u8], crypto: Option<&Crypto>) -> (r: Result<Vec<u8>, SnapshotError>)
    ensures
        r is Ok,
        is_encoded(
            r->Ok_0@,
            json@,
            match crypto {
                Some(c) => Some(c@),
                None => None,
            },
        ),
{
    match zstd_encode(json, COMPRESSION_LEVEL) {
        Ok(compressed) => seal_snapshot(compressed, crypto),
        Err(_) => Err(SnapshotError::Compress),
    }
}

/// A snapshot that is ready to be uploaded.
#[derive(Debug)]
pub struct Publication {
    pub name: String,
    pub caption: String,
    pub bytes: Vec<u8>,
}

/// Prepares the publication of a snapshot, given its serialized form: what the document is named,
/// what its caption says, and what it holds.
pub fn publish(dump: &Snapshot, json: &[u8], crypto: Option<&Crypto>) -> (r: Result<
    Publication,
    SnapshotError,
>)
    ensures
        r is Ok,
        ({
            let p = r->Ok_0;
            &&& p.name@ == snapshot_name_text(dump.version, crypto is Some)
            &&& p.caption@ == caption_text(
                dump.version,
                dump.files@.len() as usize,
                dump.chunks@.len() as usize,
                dump.created_at,
            )
            &&& caption_version(p.caption@) == Some(dump.version)
            &&& is_encoded(
                p.bytes@,
                json@,
                match crypto {
                    Some(c) => Some(c@),
                    None => None,
                },
            )
        }),
{
    let bytes = match encode_snapshot(json, crypto) {
        Ok(bytes) => bytes,
        Err(error) => {
            return Err(error);
        },
    };
    Ok(
        Publication {
            name: snapshot_name(dump.version, crypto.is_some()),
            caption: caption(
                dump.version,
                dump.files.len(),
                dump.chunks.len(),
                dump.created_at,
            ),
            bytes,
        },
    )
}

/// Opens a downloaded snapshot: decrypts it if it is sealed.
pub fn open_snapshot(info: RemoteIndexInfo, raw: Vec<u8>, key: Option<&[u8; 32]>) -> (r: Result<
    FetchedSnapshot,
    SnapshotError,
>)
    ensures
        !has_magic(raw@) ==> r is Ok && r->Ok_0.info == info && r->Ok_0.plain@ == raw@
            && !r->Ok_0.encrypted,
        has_magic(raw@) && key is None ==> r is Err && r->Err_0 == SnapshotError::KeyRequired,
        has_magic(raw@) && key is Some ==> {
            let keys = derived_keys(key->0@);
            &&& r is Ok ==> r->Ok_0.info == info && r->Ok_0.encrypted && blob_opens_to(
                keys,
                r->Ok_0.plain@,
                raw@,
            )
            &&& forall|plain: Seq<u8>| #[trigger]
                blob_opens_to(keys, plain, raw@) ==> r is Ok && r->Ok_0.plain@ == plain
            &&& r is Err ==> r->Err_0 is Crypto
            &&& raw@.len() < 40 <==> r is Err && r->Err_0 == SnapshotError::Crypto(
                CryptoError::TruncatedBlob,
            )
        },
{
    if !Crypto::is_sealed_blob(raw.as_slice()) {
        return Ok(FetchedSnapshot { info, plain: raw, encrypted: false });
    }
    let key = match key {
        Some(key) => key,
        None => {
            return Err(SnapshotError::KeyRequired);
        },
    };
    match Crypto::new(key).open_blob(raw.as_slice()) {
        Ok(plain) => Ok(FetchedSnapshot { info, plain, encrypted: true }),
        Err(error) => Err(SnapshotError::Crypto(error)),
    }
}

/// A stored snapshot can be told apart: it is sealed just if there were keys, so that opening it
/// with the key of the repository gives the compressed snapshot back.
pub proof fn stored_snapshot_is_recognized(
    raw: Seq<u8>,
    compressed: Seq<u8>,
    keys: Option<CryptoKeys>,
)
    requires
        is_compressed(compressed),
        stores(raw, compressed, keys),
    ensures
        has_magic(raw) <==> keys is Some,
{
    if keys is None && has_magic(raw) {
        assert(raw.subrange(0, 8)[0] == SNAPSHOT_MAGIC@[0]);
    }
}

/// Decompresses an opened snapshot.
pub fn decode_snapshot(plain: &[u8]) -> (r: Result<Vec<u8>, SnapshotError>)
    ensures
        match zstd_decoded(plain@) {
            Some(json) => r is Ok && r->Ok_0@ == json,
            None => r == Err::<Vec<u8>, SnapshotError>(SnapshotError::NotZstd),
        },
{
    match zstd_decode(plain) {
        Ok(json) => Ok(json),
        Err(_) => Err(SnapshotError::NotZstd),
    }
}

/// Records that the snapshot of the index was published with a message.
pub fn record_published(index: &mut Index, dump: &Snapshot, msg_id: i32)
    requires
        old(index).wf(),
    ensures
        final(index).wf(),
        final(index)@ == (IndexView {
            snapshots: old(index)@.snapshots.push(
                SnapshotRecord { version: dump.version, created_at: dump.created_at, msg_id },
            ),
            ..old(index)@
        }),
{
    index.record_snapshot(dump.version, dump.created_at, msg_id);
}

/// Replaces the local index by a snapshot, whose version must be the one that its caption says.
pub fn import(index: &mut Index, snapshot: &Snapshot, remote: RemoteIndexInfo) -> (r: Result<
    (),
    SnapshotError,
>)
    requires
        old(index).wf(),
    ensures
        final(index).wf(),
        if snapshot.version != remote.version {
            &&& r == Err::<(), SnapshotError>(
                SnapshotError::VersionMismatch {
                    caption: remote.version,
                    snapshot: snapshot.version,
                },
            )
            &&& final(index)@ == old(index)@
        } else if !is_complete(snapshot@) {
            &&& r == Err::<(), SnapshotError>(SnapshotError::Incomplete)
            &&& final(index)@ == old(index)@
        } else {
            &&& r is Ok
            &&& final(index)@ == (IndexView {
                snapshots: old(index)@.snapshots.push(
                    SnapshotRecord {
                        version: snapshot.version,
                        created_at: snapshot.created_at,
                        msg_id: remote.msg_id,
                    },
                ),
                ..old(index)@.imported(snapshot@)
            })
        },
{
    if snapshot.version != remote.version {
        return Err(
            SnapshotError::VersionMismatch {
                caption: remote.version,
                snapshot: snapshot.version,
            },
        );
    }
    match index.import(snapshot) {
        Ok(()) => {},
        Err(_) => {
            return Err(SnapshotError::Incomplete);
        },
    }
    index.record_snapshot(snapshot.version, snapshot.created_at, remote.msg_id);
    Ok(())
}

/// A message is taken for a snapshot just if its caption begins as those do and a number that 64
/// bits hold follows; that number is the version.
pub proof fn captions_are_told_apart(text: Seq<char>, n: int)
    requires
        0 <= n,
        12 + n <= text.len(),
        forall|i: int| 12 <= i < 12 + n ==> '0' <= #[trigger] text[i] <= '9',
        12 + n < text.len() ==> !('0' <= text[12 + n] <= '9'),
    ensures
        ({
            let begins = text.subrange(0, 12) == "tgfs-index v"@;
            let value = decimal_value(text.subrange(12, 12 + n));
            &&& caption_version(text) is Some <==> begins && n > 0 && value <= u64::MAX
            &&& caption_version(text) is Some ==> caption_version(text)->0 == value
        }),
{
    reveal_strlit("tgfs-index v");
    let prefix = "tgfs-index v"@;
    assert(prefix.len() == 12);
    assert(prefix.is_prefix_of(text) <==> text.subrange(0, 12) == prefix);
    let rest = text.subrange(12, text.len() as int);
    assert forall|i: int| 0 <= i < n implies '0' <= #[trigger] rest[i] <= '9' by {
        assert(rest[i] == text[12 + i]);
    }
    leading_number_is_of_all_digits(rest, n);
    assert(rest.subrange(0, n) =~= text.subrange(12, 12 + n));
}

/// A shorter text than the beginning of a caption is none.
pub proof fn short_texts_are_no_captions(text: Seq<char>)
    requires
        text.len() <= 12,
    ensures
        caption_version(text) is None,
{
    reveal_strlit("tgfs-index v");
    if "tgfs-index v"@.is_prefix_of(text) {
        let rest = text.subrange(12, text.len() as int);
        leading_number_is_of_all_digits(rest, 0);
    }
}

/// The pinned snapshots are the pinned messages with such a caption, in their order, each with the
/// version of its caption and the number of its message.
pub proof fn snapshots_are_found_in_order(messages: Seq<(String, i32)>)
    ensures
        snapshots_among(messages) == messages.filter(
            |m: (String, i32)| caption_version(m.0@) is Some,
        ).map_values(
            |m: (String, i32)|
                RemoteIndexInfo { version: caption_version(m.0@)->0, msg_id: m.1 },
        ),
    decreases messages.len(),
{
    reveal(Seq::filter);
    let keep = |m: (String, i32)| caption_version(m.0@) is Some;
    let info = |m: (String, i32)|
        RemoteIndexInfo { version: caption_version(m.0@)->0, msg_id: m.1 };
    if messages.len() > 0 {
        let front = messages.drop_last();
        snapshots_are_found_in_order(front);
        assert(front.filter(keep).push(messages.last()).map_values(info) =~= front.filter(
            keep,
        ).map_values(info).push(info(messages.last())));
        assert(snapshots_among(messages) =~= messages.filter(keep).map_values(info));
    } else {
        assert(messages.filter(keep).map_values(info) =~= Seq::<RemoteIndexInfo>::empty());
    }
}

/// A snapshot that was made of an index's text is what opens to that text again: its sealed form
/// opens with the keys that sealed it to a compressed form, or it is the compressed form itself;
/// and the compressed form decompresses to the text. Which of the two it is can be told.
pub proof fn encoded_snapshot_opens_again(
    raw: Seq<u8>,
    json: Seq<u8>,
    keys: Option<CryptoKeys>,
)
    requires
        is_encoded(raw, json, keys),
    ensures
        has_magic(raw) <==> keys is Some,
        keys is None ==> zstd_decoded(raw) == Some(json),
        keys is Some ==> raw.len() >= 40 && exists|compressed: Seq<u8>|
            {
                &&& #[trigger] zstd_decoded(compressed) == Some(json)
                &&& seals_stream(
                    keys->0,
                    raw.subrange(8, 40),
                    compressed,
                    raw.subrange(40, raw.len() as int),
                )
                &&& raw.subrange(8, 40) == blake3_digest(None, compressed)
            },
{
    let compressed = zstd_stream(json, COMPRESSION_LEVEL);
    stored_snapshot_is_recognized(raw, compressed, keys);
    assert(zstd_decoded(compressed) == Some(json));
}

/// The name of a snapshot's document has its version between fixed words, and tells whether it is
/// sealed by its end.
pub proof fn snapshot_names_have_the_version(version: u64)
    ensures
        snapshot_name_text(version, false) == "tgfs-index-v"@ + decimal(version as nat)
            + ".json.zst"@,
        snapshot_name_text(version, true) == snapshot_name_text(version, false) + ".enc"@,
{
    assert(snapshot_name_text(version, false) =~= "tgfs-index-v"@ + decimal(version as nat)
        + ".json.zst"@);
    assert(snapshot_name_text(version, true) =~= snapshot_name_text(version, false) + ".enc"@);
}

/// The new snapshot is pinned before anything else happens, the pins are listed next, and only then
/// the others are unpinned, the first of them first.
pub proof fn pin_goes_before_unpin(view: PinView)
    requires
        view.wf(),
    ensures
        !view.pinned <==> view.step() is Pin,
        !view.pinned ==> view.step() == PinStep::Pin(view.keep) && view.done().pinned,
        view.step() is List <==> view.pinned && view.left is None,
        view.step() is Unpin ==> view.pinned && view.left is Some && view.left->0.len() > 0
            && view.step() == PinStep::Unpin(view.left->0[0]) && view.done().left == Some(
            view.left->0.subrange(1, view.left->0.len() as int),
        ),
        view.step() is Unpin ==> view.step()->Unpin_0 != view.keep,
        view.step() is Done <==> view.pinned && view.left is Some && view.left->0.len() == 0,
        view.done().keep == view.keep,
{
    if view.step() is Unpin {
        assert(view.left->0.contains(view.left->0[0]));
    }
}

/// The caption of a snapshot has its version, then how many files and chunks it has, then when it
/// was made, each after its word.
pub proof fn captions_tell_version_and_counts(
    version: u64,
    files: usize,
    chunks: usize,
    created_at: i64,
)
    ensures
        ({
            let text = caption_text(version, files, chunks, created_at);
            let a = "tgfs-index v"@ + decimal(version as nat);
            let b = a + " files="@ + decimal(files as nat);
            let c = b + " chunks="@ + decimal(chunks as nat);
            let d = c + " created="@ + signed_decimal(created_at as int);
            &&& text == d
            &&& caption_version(text) == Some(version)
        }),
{
    caption_reads_back(version, files, chunks, created_at);
}

/// To pin adds one message to those that are pinned and to unpin takes one out; no other step
/// changes them.
pub proof fn steps_change_their_pin_alone(pins: Set<i32>, id: i32, other: i32)
    ensures
        pins_after(pins, PinStep::Pin(id)).contains(id),
        !pins_after(pins, PinStep::Unpin(id)).contains(id),
        other != id ==> pins_after(pins, PinStep::Pin(id)).contains(other) == pins.contains(other),
        other != id ==> pins_after(pins, PinStep::Unpin(id)).contains(other) == pins.contains(
            other,
        ),
        pins_after(pins, PinStep::List) == pins,
        pins_after(pins, PinStep::Done) == pins,
{
}

/// A snapshot that is not what its caption says is refused with both versions, that of the caption
/// first.
pub proof fn mismatches_name_the_versions(caption: u64, snapshot: u64)
    ensures
        ({
            let text = SnapshotError::VersionMismatch { caption, snapshot }.text();
            let start = "pinned caption says v"@;
            let middle = start + decimal(caption as nat) + " but snapshot contains v"@;
            &&& middle.is_prefix_of(text)
            &&& leading_u64(text.subrange(start.len() as int, text.len() as int)) == Some(caption)
            &&& leading_u64(text.subrange(middle.len() as int, text.len() as int)) == Some(
                snapshot,
            )
        }),
{
    let between = " but snapshot contains v"@;
    let end = " — refusing to import"@;
    reveal_strlit(" but snapshot contains v");
    reveal_strlit(" — refusing to import");
    let text = SnapshotError::VersionMismatch { caption, snapshot }.text();
    two_numbers_are_read("pinned caption says v"@, caption, between, snapshot, end, text);
}

} // verus!
