//! Moving documents to and from the storage channel: parts, retries, pacing and ranged reads.
use vstd::prelude::*;
use std::collections::BTreeSet;
use vstd::slice::slice_subrange;
use crate::bytes::append_bytes;
use crate::text::text_eq;

verus! {

/// Size of an upload part.
pub const PART_SIZE: u64 = 524_288;

/// Above this, documents are uploaded in resumable parts.
pub const BIG_FILE_THRESHOLD: u64 = 10_485_760;

/// Parts that are uploaded at the same time at first, and at most.
pub const INITIAL_UPLOAD_CONCURRENCY: usize = 4;

/// Milliseconds without throttling after which one more part may be uploaded at a time.
pub const UPLOAD_CONCURRENCY_RECOVERY_INTERVAL: u64 = 60_000;

/// How many jobs may wait for the uploader.
pub const UPLOAD_QUEUE_CAPACITY: usize = 64;

/// How often a failed job is tried again.
pub const MAX_UPLOAD_RETRIES: u32 = 5;

/// Longest wait, in seconds, that the server may ask for.
pub const MAX_FLOOD_WAIT: u64 = 1800;

/// What can go wrong in a transfer.
#[derive(Debug, Clone, Copy, PartialEq, Eq, Structural)]
pub enum TransferError {
    /// A range of bytes ends beyond the largest offset.
    RangeOverflow,
    /// A range of bytes ends beyond the end of the source.
    BeyondEnd,
    /// The bytes could not be read.
    ReadFailed,
    /// The bytes could not be sealed.
    SealFailed,
    /// An empty document was to be uploaded.
    EmptyDocument,
    /// A document was too large for an upload in one piece.
    SmallFileTooLarge,
    /// The channel refused a part.
    PartRejected { part: i32, total: i32 },
    /// An upload ended before all parts were confirmed.
    Incomplete { watermark: i32, total: i32 },
    /// A ranged download begins too far into a document.
    OffsetTooLarge,
}

/// A source of bytes that can be read at any place.
pub trait PartSource {
    /// The bytes of the source. Left open unless an implementation says what they are.
    open spec fn content(&self) -> Seq<u8> {
        arbitrary()
    }

    /// The bytes that reads reach: those of the source, and in some kinds what lies behind them.
    /// Left open unless an implementation says what they are.
    open spec fn reach(&self) -> Seq<u8> {
        arbitrary()
    }

    /// What a successful read shows of the byte at a place, besides its value.
    open spec fn shown(&self, pos: int) -> bool {
        true
    }

    /// Whether a read within the source always succeeds. Not unless an implementation says so.
    open spec fn dependable(&self) -> bool {
        false
    }

    /// What holds of every source of this kind.
    open spec fn valid(&self) -> bool {
        true
    }

    /// The number of bytes.
    fn len(&self) -> (r: u64)
        requires
            self.valid(),
        ensures
            r == self.content().len(),
    ;

    /// Fills `buf` with the bytes that begin at `offset`.
    fn read_at(&self, offset: u64, buf: &mut [u8]) -> (r: Result<(), TransferError>)
        requires
            self.valid(),
        ensures
            final(buf)@.len() == old(buf)@.len(),
            r is Ok && old(buf)@.len() > 0 ==> {
                &&& offset + old(buf)@.len() <= self.reach().len()
                &&& final(buf)@ == self.reach().subrange(offset as int, offset + old(buf)@.len())
            },
            r is Ok && offset + old(buf)@.len() <= self.content().len() ==> final(buf)@
                == self.content().subrange(offset as int, offset + old(buf)@.len()),
            r is Ok ==> forall|pos: int|
                offset <= pos < offset + old(buf)@.len() ==> #[trigger] self.shown(pos),
            self.dependable() && offset + old(buf)@.len() <= self.content().len() ==> r is Ok,
            self.dependable() && offset + old(buf)@.len() <= self.reach().len() ==> r is Ok,
    ;

    /// Whether there are no bytes.
    fn is_empty(&self) -> (r: bool)
        requires
            self.valid(),
        ensures
            r == (self.content().len() == 0),
    {
        self.len() == 0
    }

    /// Reads the part with a number, the last of which may be shorter.
    fn read_part(&self, part: i32) -> (r: Result<Vec<u8>, TransferError>)
        requires
            self.valid(),
            part >= 0,
            part * PART_SIZE <= self.content().len(),
        ensures
            r is Ok ==> r->Ok_0@ == part_of(self.content(), part as int),
            r is Ok ==> forall|pos: int|
                in_part(part as int, pos) && pos < self.content().len() ==> #[trigger] self.shown(
                    pos,
                ),
            self.dependable() ==> r is Ok,
    {
        let offset: u64 = part as u64 * PART_SIZE;
        let left: u64 = self.len() - offset;
        let len: usize = if left < PART_SIZE { left as usize } else { PART_SIZE as usize };
        let mut buf: Vec<u8> = vec![0u8; len];
        match self.read_at(offset, buf.as_mut_slice()) {
            Ok(()) => Ok(buf),
            Err(error) => Err(error),
        }
    }
}

/// The part with a number of a document.
pub open spec fn part_of(content: Seq<u8>, part: int) -> Seq<u8> {
    content.subrange(
        part * PART_SIZE,
        if (part + 1) * PART_SIZE <= content.len() {
            (part + 1) * PART_SIZE
        } else {
            content.len() as int
        },
    )
}

/// Whether a place lies in the part with a number.
pub open spec fn in_part(part: int, pos: int) -> bool {
    part * PART_SIZE <= pos < (part + 1) * PART_SIZE
}

/// How many parts `len` bytes fill.
pub open spec fn parts_of_len(len: int) -> int {
    (len + 524_287) / 524_288
}

/// A number reduced to 32 bits, with sign.
pub open spec fn wrapped_i32(n: int) -> int {
    let low = n % 0x1_0000_0000;
    if low < 0x8000_0000 {
        low
    } else {
        low - 0x1_0000_0000
    }
}

/// The number of parts of a document of `len` bytes, in 32 bits.
pub fn total_parts(len: u64) -> (r: i32)
    ensures
        r == wrapped_i32(parts_of_len(len as int)),
        parts_of_len(len as int) <= i32::MAX ==> r == parts_of_len(len as int),
{
    let partial: u64 = if len % PART_SIZE == 0 { 0 } else { 1 };
    let n: u64 = len / 524_288 + partial;
    let low: u64 = n % 0x1_0000_0000;
    if low < 0x8000_0000 {
        low as i32
    } else {
        (low as i64 - 0x1_0000_0000) as i32
    }
}

/// The first parts of a document in a row.
pub open spec fn first_parts(content: Seq<u8>, n: int) -> Seq<u8>
    decreases n,
{
    if n <= 0 {
        Seq::empty()
    } else {
        first_parts(content, n - 1) + part_of(content, n - 1)
    }
}

/// The first parts of a document are its front.
proof fn first_parts_are_front(content: Seq<u8>, n: int)
    requires
        0 <= n <= parts_of_len(content.len() as int),
    ensures
        first_parts(content, n) == content.subrange(
            0,
            if n * PART_SIZE <= content.len() {
                n * PART_SIZE
            } else {
                content.len() as int
            },
        ),
    decreases n,
{
    if n > 0 {
        first_parts_are_front(content, n - 1);
        assert(first_parts(content, n) =~= content.subrange(
            0,
            if n * PART_SIZE <= content.len() {
                n * PART_SIZE
            } else {
                content.len() as int
            },
        ));
    } else {
        assert(first_parts(content, n) =~= content.subrange(0, 0));
    }
}

/// The parts of a document, in the order of their numbers, make up the document.
pub proof fn parts_make_up_document(content: Seq<u8>)
    ensures
        first_parts(content, parts_of_len(content.len() as int)) == content,
{
    let n = parts_of_len(content.len() as int);
    first_parts_are_front(content, n);
    assert(content.subrange(0, content.len() as int) =~= content);
}

/// Reading every part of a source shows every byte of it.
pub proof fn parts_show_all<S: PartSource>(source: &S)
    requires
        forall|part: int, pos: int|
            0 <= part < parts_of_len(source.content().len() as int) && #[trigger] in_part(part, pos)
                && pos < source.content().len() ==> source.shown(pos),
    ensures
        forall|pos: int| 0 <= pos < source.content().len() ==> #[trigger] source.shown(pos),
{
    assert forall|pos: int| 0 <= pos < source.content().len() implies #[trigger] source.shown(
        pos,
    ) by {
        assert(in_part(pos / 524_288, pos));
    }
}

/// A document in memory.
pub struct MemorySource {
    pub bytes: Vec<u8>,
}

impl PartSource for MemorySource {
    open spec fn content(&self) -> Seq<u8> {
        self.bytes@
    }

    open spec fn reach(&self) -> Seq<u8> {
        self.bytes@
    }

    open spec fn shown(&self, pos: int) -> bool {
        true
    }

    open spec fn dependable(&self) -> bool {
        true
    }

    open spec fn valid(&self) -> bool {
        true
    }

    fn len(&self) -> (r: u64) {
        self.bytes.len() as u64
    }

    fn read_at(&self, offset: u64, buf: &mut [u8]) -> (r: Result<(), TransferError>)
        ensures
            r is Ok <==> offset + old(buf)@.len() <= self.bytes@.len(),
            r is Err ==> final(buf)@ == old(buf)@ && r->Err_0 == if offset + old(buf)@.len()
                > usize::MAX {
                TransferError::RangeOverflow
            } else {
                TransferError::BeyondEnd
            },
    {
        let wanted: usize = buf.len();
        let total: usize = self.bytes.len();
        if offset > (usize::MAX - wanted) as u64 {
            return Err(TransferError::RangeOverflow);
        }
        let start: usize = offset as usize;
        if start + wanted > total {
            return Err(TransferError::BeyondEnd);
        }
        copy_into(buf, 0, self.bytes.as_slice(), start, wanted);
        assert(buf@ =~= self.bytes@.subrange(start as int, start + wanted));
        assert(self.reach() == self.bytes@);
        Ok(())
    }
}

/// Copies `len` bytes of `from`, which begin at `start`, to the place `at` of `buf`.
pub(crate) fn copy_into(buf: &mut [u8], at: usize, from: &[u8], start: usize, len: usize)
    requires
        at + len <= old(buf)@.len(),
        start + len <= from@.len(),
    ensures
        final(buf)@ == old(buf)@.subrange(0, at as int) + from@.subrange(start as int, start + len)
            + old(buf)@.subrange(at + len, old(buf)@.len() as int),
{
    let room: usize = buf.len();
    let available: usize = from.len();
    let mut i: usize = 0;
    while i < len
        invariant
            i <= len,
            room == buf@.len(),
            available == from@.len(),
            at + len <= buf@.len(),
            start + len <= from@.len(),
            buf@.len() == old(buf)@.len(),
            forall|j: int| 0 <= j < at ==> buf@[j] == old(buf)@[j],
            forall|j: int| at + len <= j < buf@.len() ==> buf@[j] == old(buf)@[j],
            forall|j: int| at <= j < at + i ==> buf@[j] == from@[start + (j - at)],
        decreases len - i,
    {
        buf[at + i] = from[start + i];
        i += 1;
    }
    assert(buf@ =~= old(buf)@.subrange(0, at as int) + from@.subrange(start as int, start + len)
        + old(buf)@.subrange(at + len, old(buf)@.len() as int));
}

/// Whether a number is in a set of part numbers.
pub open spec fn has_part(set: Set<i32>, n: int) -> bool {
    i32::MIN <= n <= i32::MAX && set.contains(n as i32)
}

/// The first number from `from` on that is not in a set of part numbers.
pub open spec fn first_gap(set: Set<i32>, from: int) -> int
    decreases 0x8000_0000 - from,
{
    if from < 0x8000_0000 && has_part(set, from) {
        first_gap(set, from + 1)
    } else {
        from
    }
}

/// Up to the first gap there is none, and there is one there.
pub proof fn first_gap_is_first(set: Set<i32>, from: int)
    ensures
        from <= first_gap(set, from),
        forall|n: int| from <= n < first_gap(set, from) ==> #[trigger] has_part(set, n),
        !has_part(set, first_gap(set, from)),
    decreases 0x8000_0000 - from,
{
    if from < 0x8000_0000 && has_part(set, from) {
        first_gap_is_first(set, from + 1);
    }
}

/// Records that a part arrived and advances the watermark over the parts that are there without
/// a gap. Returns whether it advanced.
pub fn confirm_part(part: i32, confirmed: &mut BTreeSet<i32>, watermark: &mut i32) -> (r: bool)
    requires
        first_gap(old(confirmed)@.insert(part), *old(watermark) + 0) <= i32::MAX,
    ensures
        *final(watermark) == first_gap(old(confirmed)@.insert(part), *old(watermark) + 0),
        final(confirmed)@ == old(confirmed)@.insert(part).filter(
            |p: i32| !(*old(watermark) <= p < *final(watermark)),
        ),
        r == (*final(watermark) > *old(watermark)),
{
    broadcast use vstd::laws_cmp::group_laws_cmp, vstd::std_specs::btree::group_btree_axioms;

    let start: i32 = *watermark;
    let _ = confirmed.insert(part);
    let ghost all = confirmed@;
    let ghost gap = first_gap(all, start + 0);
    let mut advanced: bool = false;
    proof {
        first_gap_is_first(all, start + 0);
        assert(confirmed@ =~= all.filter(|p: i32| !(start <= p < *watermark)));
    }
    loop
        invariant
            start <= *watermark <= gap <= i32::MAX,
            !has_part(all, gap),
            forall|n: int| start <= n < gap ==> #[trigger] has_part(all, n),
            confirmed@ == all.filter(|p: i32| !(start <= p < *watermark)),
            advanced == (*watermark > start),
        ensures
            *watermark == gap,
            confirmed@ == all.filter(|p: i32| !(start <= p < *watermark)),
            advanced == (*watermark > start),
        decreases gap - *watermark,
    {
        let found: bool = confirmed.remove(&*watermark);
        if !found {
            proof {
                assert(*watermark < gap ==> has_part(all, *watermark + 0));
                assert(confirmed@ =~= all.filter(|p: i32| !(start <= p < *watermark)));
            }
            break;
        }
        *watermark = *watermark + 1;
        advanced = true;
        proof {
            assert(confirmed@ =~= all.filter(|p: i32| !(start <= p < *watermark)));
        }
    }
    advanced
}

/// A number up to which there is no gap, and that is one, is the first gap.
proof fn first_gap_is_unique(set: Set<i32>, from: int, gap: int)
    requires
        from <= gap <= i32::MAX,
        forall|n: int| from <= n < gap ==> #[trigger] has_part(set, n),
        !has_part(set, gap),
    ensures
        first_gap(set, from) == gap,
    decreases gap - from,
{
    if from < gap {
        assert(has_part(set, from));
        first_gap_is_unique(set, from + 1, gap);
    }
}

/// `rand::random` draws a 64-bit number; nothing can be said of which. It panics where the system
/// has no randomness to give.
#[verifier::external_body]
fn random_file_id() -> (r: i64) {
    rand::random()
}

/// How a document is uploaded.
pub enum UploadPlan {
    /// In one piece.
    Small,
    /// In parts.
    Parts(PartUpload),
}

/// What is known of an upload in parts.
pub ghost struct PartUploadView {
    /// The number under which the server collects the parts.
    pub file_id: i64,
    /// How many parts there are.
    pub total: i32,
    /// The first part that this upload sends.
    pub start: i32,
    /// The next part to send.
    pub next: i32,
    /// The parts that this upload has had confirmed.
    pub done: Set<i32>,
    /// The first part that is not confirmed yet.
    pub watermark: i32,
}

impl PartUploadView {
    /// The next part to send, if one is left, and how far the upload is then.
    pub open spec fn handed(self) -> (Option<i32>, PartUploadView) {
        if self.next < self.total {
            (Some(self.next), PartUploadView { next: (self.next + 1) as i32, ..self })
        } else {
            (None, self)
        }
    }

    /// How far the upload is once a part is confirmed.
    pub open spec fn confirmed(self, part: i32) -> PartUploadView {
        PartUploadView {
            done: self.done.insert(part),
            watermark: first_gap(self.done.insert(part), self.start as int) as i32,
            ..self
        }
    }

    /// What always holds: the watermark is the first part of this upload that is missing.
    pub open spec fn wf(self) -> bool {
        &&& 0 <= self.start <= self.next
        &&& self.start <= self.total ==> self.next <= self.total
        &&& self.start > self.total ==> self.next == self.start
        &&& forall|p: i32| #[trigger]
            self.done.contains(p) ==> self.start <= p < self.total
        &&& self.watermark == first_gap(self.done, self.start as int)
    }
}

/// An upload in parts, which may be sent and confirmed in any order.
pub struct PartUpload {
    file_id: i64,
    total: i32,
    start: i32,
    next: i32,
    confirmed: BTreeSet<i32>,
    watermark: i32,
}

impl View for PartUpload {
    type V = PartUploadView;

    closed spec fn view(&self) -> PartUploadView {
        PartUploadView {
            file_id: self.file_id,
            total: self.total,
            start: self.start,
            next: self.next,
            done: Set::new(
                |p: i32| self.confirmed@.contains(p) || self.start <= p < self.watermark,
            ),
            watermark: self.watermark,
        }
    }
}

/// The state of an upload in parts that begins at part `start`.
pub open spec fn upload_from(file_id: i64, start: i32, total: i32) -> PartUploadView {
    PartUploadView { file_id, total, start, next: start, done: Set::empty(), watermark: start }
}

/// Plans the upload of `len` bytes: in one piece if they are few, else in parts. An interrupted
/// upload goes on with its number and the parts it had done; a new one begins with `fresh_id`.
pub fn plan_upload(len: u64, resume: Option<(i64, i32)>, fresh_id: i64) -> (r: Result<
    UploadPlan,
    TransferError,
>)
    requires
        resume is Some ==> (resume->0).1 >= 0,
    ensures
        len == 0 <==> r == Err::<UploadPlan, TransferError>(TransferError::EmptyDocument),
        len == 0 <==> r is Err,
        0 < len <= BIG_FILE_THRESHOLD ==> r == Ok::<UploadPlan, TransferError>(UploadPlan::Small),
        len > BIG_FILE_THRESHOLD ==> {
            &&& r is Ok
            &&& r->Ok_0 is Parts
            &&& r->Ok_0->Parts_0@ == upload_of(len as int, resume, fresh_id)
            &&& r->Ok_0->Parts_0.wf()
        },
{
    if len == 0 {
        return Err(TransferError::EmptyDocument);
    }
    if len <= BIG_FILE_THRESHOLD {
        return Ok(UploadPlan::Small);
    }
    let total: i32 = total_parts(len);
    let (file_id, start) = match resume {
        Some((id, done)) => (id, done),
        None => (fresh_id, 0),
    };
    let upload = PartUpload {
        file_id,
        total,
        start,
        next: start,
        confirmed: BTreeSet::new(),
        watermark: start,
    };
    assert(upload@.done =~= Set::<i32>::empty());
    Ok(UploadPlan::Parts(upload))
}

/// Plans an upload as `plan_upload` does, with a number drawn at random for a new one.
pub fn begin_upload(len: u64, resume: Option<(i64, i32)>) -> (r: Result<UploadPlan, TransferError>)
    requires
        resume is Some ==> (resume->0).1 >= 0,
    ensures
        len == 0 <==> r == Err::<UploadPlan, TransferError>(TransferError::EmptyDocument),
        len == 0 <==> r is Err,
        0 < len <= BIG_FILE_THRESHOLD ==> r == Ok::<UploadPlan, TransferError>(UploadPlan::Small),
        len > BIG_FILE_THRESHOLD ==> {
            &&& r is Ok
            &&& r->Ok_0 is Parts
            &&& r->Ok_0->Parts_0.wf()
            &&& r->Ok_0->Parts_0@ == upload_of(len as int, resume, r->Ok_0->Parts_0@.file_id)
        },
{
    plan_upload(len, resume, random_file_id())
}

impl PartUpload {
    /// The invariant of an upload in parts.
    pub closed spec fn wf(&self) -> bool {
        &&& self@.wf()
        &&& self.start <= self.watermark
        &&& forall|p: i32| #[trigger] self.confirmed@.contains(p) ==> p >= self.watermark
    }

    /// What the invariant says.
    pub proof fn is_valid(&self)
        requires
            self.wf(),
        ensures
            self@.wf(),
    {
    }

    /// The number under which the server collects the parts.
    pub fn file_id(&self) -> (r: i64)
        ensures
            r == self@.file_id,
    {
        self.file_id
    }

    /// How many parts there are.
    pub fn total(&self) -> (r: i32)
        ensures
            r == self@.total,
    {
        self.total
    }

    /// The first part that is not confirmed yet.
    pub fn watermark(&self) -> (r: i32)
        ensures
            r == self@.watermark,
    {
        self.watermark
    }

    /// Hands out the next part to send, each one once, in order.
    pub fn next_part(&mut self) -> (r: Option<i32>)
        requires
            old(self).wf(),
        ensures
            final(self).wf(),
            (r, final(self)@) == old(self)@.handed(),
            r is Some <==> old(self)@.next < old(self)@.total,
            r is Some ==> r->0 == old(self)@.next,
    {
        if self.next >= self.total {
            return None;
        }
        let part: i32 = self.next;
        self.next = self.next + 1;
        assert(self@.done =~= old(self)@.done);
        Some(part)
    }

    /// Records that the server has a part. Returns the new watermark if it advanced.
    pub fn confirm(&mut self, part: i32) -> (r: Option<i32>)
        requires
            old(self).wf(),
            old(self)@.start <= part < old(self)@.next,
        ensures
            final(self).wf(),
            final(self)@ == old(self)@.confirmed(part),
            r == if final(self)@.watermark > old(self)@.watermark {
                Some(final(self)@.watermark)
            } else {
                None
            },
            old(self)@.watermark <= final(self)@.watermark <= final(self)@.total,
    {
        let ghost before = *self;
        let ghost all = self.confirmed@.insert(part);
        let ghost gap = first_gap(all, self.watermark as int);
        proof {
            first_gap_is_first(before@.done, self.start as int);
            first_gap_is_first(all, self.watermark as int);
            if self.watermark > self.total {
                assert(has_part(before@.done, self.total as int));
            }
            if gap > self.total {
                assert(has_part(all, self.total as int));
                assert(before@.done.contains(self.total));
            }
        }
        if part < self.watermark {
            proof {
                assert(before@.done.insert(part) =~= before@.done);
            }
            return None;
        }
        let advanced: bool = confirm_part(part, &mut self.confirmed, &mut self.watermark);
        proof {
            assert(self@.done =~= before@.done.insert(part)) by {
                assert forall|p: i32|
                    self@.done.contains(p) <==> #[trigger] before@.done.insert(part).contains(
                        p,
                    ) by {
                    if before.watermark <= p < self.watermark {
                        assert(has_part(all, p as int));
                    }
                }
            }
            assert forall|n: int| self.start <= n < gap implies #[trigger] has_part(
                self@.done,
                n,
            ) by {
                if n >= before.watermark {
                    assert(has_part(all, n));
                } else {
                    assert(has_part(before@.done, n));
                }
            }
            assert(!has_part(self@.done, gap));
            first_gap_is_unique(self@.done, self.start as int, gap);
        }
        if advanced {
            Some(self.watermark)
        } else {
            None
        }
    }

    /// Ends the upload: it is complete if every part from the first one on was confirmed.
    pub fn finish(&self) -> (r: Result<i32, TransferError>)
        requires
            self.wf(),
        ensures
            r == if self@.watermark == self@.total {
                Ok::<i32, TransferError>(self@.total)
            } else {
                Err::<i32, TransferError>(
                    TransferError::Incomplete {
                        watermark: self@.watermark,
                        total: self@.total,
                    },
                )
            },
            r is Ok <==> self@.start <= self@.total && forall|n: int|
                self@.start <= n < self@.total ==> #[trigger] has_part(self@.done, n),
    {
        proof {
            first_gap_is_first(self@.done, self.start as int);
            if self.start <= self.total && (forall|n: int|
                self@.start <= n < self@.total ==> #[trigger] has_part(self@.done, n)) {
                assert(!has_part(self@.done, self.total as int));
                first_gap_is_unique(self@.done, self.start as int, self.total as int);
            }
        }
        if self.watermark != self.total {
            return Err(
                TransferError::Incomplete { watermark: self.watermark, total: self.total },
            );
        }
        Ok(self.total)
    }
}

/// The part that the server misses, by the name and number of its error: the error
/// `FILE_PART_X_MISSING` comes as a name without the number, and the number.
pub open spec fn named_part(name: Seq<char>, value: Option<u32>) -> Option<i32> {
    if name == "FILE_PART_MISSING"@ && value is Some && value->0 <= i32::MAX {
        Some(value->0 as i32)
    } else {
        None
    }
}

/// The part that the server misses, by the name and number of its error.
pub fn missing_part(name: &str, value: Option<u32>) -> (r: Option<i32>)
    ensures
        r == named_part(name@, value),
{
    if !text_eq(name, "FILE_PART_MISSING") {
        return None;
    }
    match value {
        Some(part) => {
            if part <= i32::MAX as u32 {
                Some(part as i32)
            } else {
                None
            }
        },
        None => None,
    }
}

/// What to do when the server refuses to make a document of the parts it has.
#[derive(Debug, Clone, Copy, PartialEq, Eq, Structural)]
pub enum RepairStep {
    /// Send a part once more under the same number, then try again.
    Resend(i32),
    /// Send all parts once more under a fresh number.
    Restart,
    /// Give up.
    GiveUp,
}

/// What was done so far to make a document of its parts.
#[derive(Debug, Clone, Copy, PartialEq, Eq, Structural)]
pub struct Finalization {
    /// The first part that this upload has sent; those before it are known from the journal alone.
    pub start: i32,
    /// How many parts there are.
    pub total: i32,
    /// Whether a part was sent once more.
    pub repaired: bool,
    /// Whether the upload was restarted.
    pub restarted: bool,
}

impl Finalization {
    /// Whether a missing part can be sent once more: it is one that this upload has sent, and none
    /// was sent once more before.
    pub open spec fn repairs(self, part: i32) -> bool {
        !self.repaired && self.start <= part < self.total
    }

    /// What to do about a refusal: one missing part is sent once more; a part that only the
    /// journal knew, or a second missing one, restarts the upload once; anything else ends it.
    pub open spec fn decided(self, missing: Option<i32>) -> (RepairStep, Finalization) {
        match missing {
            Some(part) => if self.repairs(part) {
                (RepairStep::Resend(part), Finalization { repaired: true, ..self })
            } else if !self.restarted {
                (
                    RepairStep::Restart,
                    Finalization { start: 0, repaired: false, restarted: true, ..self },
                )
            } else {
                (RepairStep::GiveUp, self)
            },
            None => (RepairStep::GiveUp, self),
        }
    }

    /// How many more refusals can be answered by other than giving up.
    pub open spec fn patience(self) -> int {
        (if self.restarted { 0int } else { 2int }) + (if self.repaired { 0int } else { 1int })
    }

    /// Begins to make a document of the parts of an upload.
    pub fn new(upload: &PartUpload) -> (r: Self)
        ensures
            r == (Finalization {
                start: upload@.start,
                total: upload@.total,
                repaired: false,
                restarted: false,
            }),
    {
        Finalization {
            start: upload.start,
            total: upload.total,
            repaired: false,
            restarted: false,
        }
    }

    /// Decides what to do about a refusal. `missing` is the part that the server misses, if that
    /// is why it refused. Three refusals at most are answered by other than giving up.
    pub fn refused(&mut self, missing: Option<i32>) -> (r: RepairStep)
        ensures
            (r, *final(self)) == old(self).decided(missing),
            r is GiveUp || final(self).patience() < old(self).patience(),
    {
        match missing {
            Some(part) => {
                if !self.repaired && self.start <= part && part < self.total {
                    self.repaired = true;
                    return RepairStep::Resend(part);
                }
                if !self.restarted {
                    self.start = 0;
                    self.repaired = false;
                    self.restarted = true;
                    return RepairStep::Restart;
                }
                RepairStep::GiveUp
            },
            None => RepairStep::GiveUp,
        }
    }
}

impl Finalization {
    /// Takes the answer to an attempt to make a document of the parts: the message that holds it,
    /// or a refusal, for which it decides what to do.
    pub fn replied(&mut self, reply: Result<i32, Option<i32>>) -> (r: Result<i32, RepairStep>)
        ensures
            match reply {
                Ok(msg_id) => r == Ok::<i32, RepairStep>(msg_id) && *final(self) == *old(self),
                Err(missing) => {
                    &&& r is Err
                    &&& (r->Err_0, *final(self)) == old(self).decided(missing)
                    &&& r->Err_0 is GiveUp || final(self).patience() < old(self).patience()
                },
            },
    {
        match reply {
            Ok(msg_id) => Ok(msg_id),
            Err(missing) => Err(self.refused(missing)),
        }
    }
}

/// Of an upload that was not resumed, one missing part, whichever it is, is sent once more under
/// the same number. A second one restarts the upload, and after that and another repair a further
/// one ends it. Of a resumed upload, a missing part that only the journal knew restarts it.
pub proof fn missing_parts_are_repaired(start: i32, total: i32, part: i32, second: i32)
    requires
        0 <= start,
        0 <= part < total,
        0 <= second < total,
    ensures
        ({
            let fresh = Finalization { start, total, repaired: false, restarted: false };
            let (step, repaired) = fresh.decided(Some(part));
            let (next, restarted) = repaired.decided(Some(second));
            let (again, last) = restarted.decided(Some(second));
            &&& part >= start ==> step == RepairStep::Resend(part)
            &&& part >= start ==> next == RepairStep::Restart
            &&& part >= start ==> again == RepairStep::Resend(second)
            &&& part >= start ==> last.decided(Some(part)).0 == RepairStep::GiveUp
            &&& part < start ==> step == RepairStep::Restart
        }),
{
}

/// What refusals in a row lead to.
pub open spec fn decided_all(state: Finalization, refusals: Seq<Option<i32>>) -> Seq<RepairStep>
    decreases refusals.len(),
{
    if refusals.len() == 0 {
        Seq::empty()
    } else {
        let (step, next) = state.decided(refusals[0]);
        seq![step] + decided_all(next, refusals.drop_first())
    }
}

/// Repair ends: of any refusals in a row, those after the first few are answered by giving up, and
/// the upload is restarted once at most.
pub proof fn repair_ends(state: Finalization, refusals: Seq<Option<i32>>)
    ensures
        decided_all(state, refusals).len() == refusals.len(),
        decided_all(state, refusals).filter(|step: RepairStep| !(step is GiveUp)).len()
            <= state.patience(),
        decided_all(state, refusals).filter(|step: RepairStep| step is Restart).len() <= (
        if state.restarted {
            0int
        } else {
            1int
        }),
    decreases refusals.len(),
{
    let tries = |step: RepairStep| !(step is GiveUp);
    let restarts = |step: RepairStep| step is Restart;
    let all = decided_all(state, refusals);
    if refusals.len() == 0 {
        reveal(Seq::filter);
    } else {
        let (step, next) = state.decided(refusals[0]);
        let rest = decided_all(next, refusals.drop_first());
        repair_ends(next, refusals.drop_first());
        filter_of_front(step, rest, tries);
        filter_of_front(step, rest, restarts);
    }
}

/// Filtering a sequence filters its first element and its rest.
proof fn filter_of_front(
    first: RepairStep,
    rest: Seq<RepairStep>,
    keep: spec_fn(RepairStep) -> bool,
)
    ensures
        (seq![first] + rest).filter(keep).len() == rest.filter(keep).len() + if keep(first) {
            1int
        } else {
            0int
        },
{
    Seq::filter_distributes_over_add(seq![first], rest, keep);
    reveal(Seq::filter);
    assert(seq![first].drop_last() =~= Seq::<RepairStep>::empty());
    assert(seq![first].drop_last().filter(keep) =~= Seq::<RepairStep>::empty());
    assert(seq![first].last() == first);
}

/// What a ranged download still has to do.
pub ghost struct RangeState {
    /// Bytes still to be left out.
    pub leading: int,
    /// Bytes still to be taken.
    pub remaining: int,
    /// Bytes taken so far.
    pub written: int,
}

/// What a piece of a document does to a ranged download: the state after it, and the bytes of
/// the piece that belong to the range.
pub open spec fn range_fed(state: RangeState, piece: Seq<u8>) -> (RangeState, Seq<u8>) {
    if state.leading >= piece.len() {
        (RangeState { leading: state.leading - piece.len(), ..state }, Seq::empty())
    } else {
        let available = piece.len() - state.leading;
        let take = if state.remaining < available { state.remaining } else { available };
        (
            RangeState {
                leading: 0,
                remaining: state.remaining - take,
                written: state.written + take,
            },
            piece.subrange(state.leading, state.leading + take),
        )
    }
}

/// What pieces of a document, one after the other, do to a ranged download.
pub open spec fn range_fed_all(state: RangeState, pieces: Seq<Seq<u8>>) -> (RangeState, Seq<u8>)
    decreases pieces.len(),
{
    if pieces.len() == 0 {
        (state, Seq::empty())
    } else {
        let (before, out) = range_fed_all(state, pieces.drop_last());
        let (after, more) = range_fed(before, pieces.last());
        (after, out + more)
    }
}

/// Pieces in a row.
pub open spec fn joined(pieces: Seq<Seq<u8>>) -> Seq<u8>
    decreases pieces.len(),
{
    if pieces.len() == 0 {
        Seq::empty()
    } else {
        joined(pieces.drop_last()) + pieces.last()
    }
}

/// The first pieces in a row are the front of all of them in a row.
pub proof fn joined_front(pieces: Seq<Seq<u8>>, n: int)
    requires
        0 <= n <= pieces.len(),
    ensures
        joined(pieces.subrange(0, n)).len() <= joined(pieces).len(),
        joined(pieces.subrange(0, n)) == joined(pieces).subrange(
            0,
            joined(pieces.subrange(0, n)).len() as int,
        ),
    decreases pieces.len() - n,
{
    let front = joined(pieces.subrange(0, n));
    let all = joined(pieces);
    if n == pieces.len() {
        assert(pieces.subrange(0, n) =~= pieces);
        assert(all.subrange(0, all.len() as int) =~= all);
    } else {
        joined_front(pieces, n + 1);
        let more = pieces.subrange(0, n + 1);
        assert(more.drop_last() =~= pieces.subrange(0, n));
        assert(joined(more) == front + pieces[n]);
        assert(front =~= all.subrange(0, front.len() as int));
    }
}

/// However a document is cut into pieces, a ranged download takes exactly the bytes of its range
/// that the pieces hold, in order.
pub proof fn range_is_exact(leading: int, len: int, pieces: Seq<Seq<u8>>)
    requires
        0 <= leading,
        0 <= len,
    ensures
        ({
            let data = joined(pieces);
            let from = if leading <= data.len() { leading } else { data.len() as int };
            let to = if leading + len <= data.len() { leading + len } else { data.len() as int };
            let (after, out) = range_fed_all(
                RangeState { leading, remaining: len, written: 0 },
                pieces,
            );
            &&& out == data.subrange(from, to)
            &&& after.leading == leading - from
            &&& after.remaining == len - (to - from)
            &&& after.written == to - from
        }),
    decreases pieces.len(),
{
    let start = RangeState { leading, remaining: len, written: 0 };
    let data = joined(pieces);
    if pieces.len() == 0 {
        assert(data.subrange(0, 0) =~= Seq::<u8>::empty());
    } else {
        range_is_exact(leading, len, pieces.drop_last());
        let front = joined(pieces.drop_last());
        let last = pieces.last();
        let (before, out) = range_fed_all(start, pieces.drop_last());
        let (after, more) = range_fed(before, last);
        let from = if leading <= data.len() { leading } else { data.len() as int };
        let to = if leading + len <= data.len() { leading + len } else { data.len() as int };
        assert(data == front + last);
        assert(out + more =~= data.subrange(from, to));
    }
}

/// A ranged download that begins at part `offset / PART_SIZE` of a document and is fed the rest
/// of it takes exactly the `len` bytes at `offset`, or what there is of them.
pub proof fn range_of_document(document: Seq<u8>, offset: int, len: int, pieces: Seq<Seq<u8>>)
    requires
        0 <= offset <= document.len(),
        0 <= len,
        joined(pieces) == document.subrange(
            (offset / 524_288) * 524_288,
            document.len() as int,
        ),
    ensures
        range_fed_all(range_from(offset, len), pieces).1 == document.subrange(
            offset,
            if offset + len <= document.len() {
                offset + len
            } else {
                document.len() as int
            },
        ),
{
    let leading = offset % 524_288;
    range_is_exact(leading, len, pieces);
    let data = joined(pieces);
    let base = (offset / 524_288) * 524_288;
    let to = if leading + len <= data.len() { leading + len } else { data.len() as int };
    assert(data.subrange(leading, to) =~= document.subrange(offset, base + to));
}

/// A download of a range of a document.
#[derive(Debug)]
pub struct RangeReader {
    leading: usize,
    remaining: u64,
    written: u64,
}

impl View for RangeReader {
    type V = RangeState;

    closed spec fn view(&self) -> RangeState {
        RangeState {
            leading: self.leading as int,
            remaining: self.remaining as int,
            written: self.written as int,
        }
    }
}

impl RangeReader {
    /// Whether the counts of a reader fit.
    pub open spec fn wf(&self) -> bool {
        0 <= self@.leading && 0 <= self@.remaining && 0 <= self@.written && self@.remaining
            + self@.written <= u64::MAX
    }

    /// A download of `len` bytes at `offset`, and the number of the part to begin with.
    pub fn new(offset: u64, len: u64) -> (r: Result<(RangeReader, i32), TransferError>)
        ensures
            offset + len > u64::MAX <==> r == Err::<(RangeReader, i32), TransferError>(
                TransferError::RangeOverflow,
            ),
            (offset + len <= u64::MAX && offset / PART_SIZE > i32::MAX) <==> r == Err::<
                (RangeReader, i32),
                TransferError,
            >(TransferError::OffsetTooLarge),
            offset + len <= u64::MAX && offset / PART_SIZE <= i32::MAX ==> {
                &&& r is Ok
                &&& (r->Ok_0).1 == offset / PART_SIZE
                &&& (r->Ok_0).0@ == range_from(offset as int, len as int)
                &&& (r->Ok_0).0.wf()
            },
    {
        if offset.checked_add(len).is_none() {
            return Err(TransferError::RangeOverflow);
        }
        if offset / PART_SIZE > i32::MAX as u64 {
            return Err(TransferError::OffsetTooLarge);
        }
        Ok(
            (
                RangeReader {
                    leading: (offset % PART_SIZE) as usize,
                    remaining: len,
                    written: 0,
                },
                (offset / PART_SIZE) as i32,
            ),
        )
    }

    /// Whether the range is not complete yet.
    pub fn wants_more(&self) -> (r: bool)
        ensures
            r == (self@.remaining > 0),
    {
        self.remaining > 0
    }

    /// How many bytes of the range have been taken.
    pub fn written(&self) -> (r: u64)
        ensures
            r == self@.written,
    {
        self.written
    }

    /// Takes the bytes of the next piece that belong to the range and appends them to `out`.
    pub fn feed(&mut self, piece: &[u8], out: &mut Vec<u8>)
        requires
            old(self).wf(),
        ensures
            final(self).wf(),
            final(self)@ == range_fed(old(self)@, piece@).0,
            final(out)@ == old(out)@ + range_fed(old(self)@, piece@).1,
    {
        if self.leading >= piece.len() {
            self.leading = self.leading - piece.len();
            assert(old(out)@ + Seq::<u8>::empty() =~= old(out)@);
            return;
        }
        let available: usize = piece.len() - self.leading;
        let take: usize = if self.remaining < available as u64 {
            self.remaining as usize
        } else {
            available
        };
        append_bytes(out, slice_subrange(piece, self.leading, self.leading + take));
        self.leading = 0;
        self.remaining = self.remaining - take as u64;
        self.written = self.written + take as u64;
    }
}

/// The part with a number is the bytes from that many times 512 KiB on, 512 KiB of them or what
/// there is; and as many parts are counted as are needed to hold a document, none of them empty.
pub proof fn parts_are_cut_evenly(content: Seq<u8>, part: int)
    requires
        0 <= part < parts_of_len(content.len() as int),
    ensures
        ({
            let start = part * 524_288;
            let end = if start + 524_288 <= content.len() {
                start + 524_288
            } else {
                content.len() as int
            };
            &&& start < end
            &&& part_of(content, part) == content.subrange(start, end)
        }),
        parts_of_len(content.len() as int) * 524_288 >= content.len(),
        (parts_of_len(content.len() as int) - 1) * 524_288 < content.len(),
{
    assert(PART_SIZE == 524_288);
}

/// A document of any length that 32 bits can number the parts of has that number of parts, and each
/// place of it lies in just one of them.
pub proof fn places_lie_in_one_part(len: int, pos: int, part: int, other: int)
    requires
        0 <= pos < len,
        parts_of_len(len) <= i32::MAX,
        in_part(part, pos),
        in_part(other, pos),
    ensures
        part == other,
        0 <= part < parts_of_len(len),
        wrapped_i32(parts_of_len(len)) == parts_of_len(len),
        part * 524_288 <= pos < part * 524_288 + 524_288,
{
    assert(PART_SIZE == 524_288);
}

/// An upload that is taken up sends exactly the parts that were not done: it begins with the first
/// of them, holds none for confirmed, and keeps its number and its number of parts.
pub proof fn upload_sends_what_is_not_done(file_id: i64, done: i32, total: i32)
    requires
        0 <= done,
    ensures
        ({
            let upload = upload_from(file_id, done, total);
            &&& upload.next == done
            &&& upload.start == done
            &&& upload.watermark == done
            &&& upload.total == total
            &&& upload.file_id == file_id
            &&& forall|part: i32| !#[trigger] upload.done.contains(part)
            &&& done <= total ==> upload.wf()
        }),
{
}

/// A missing part is the one that the error names: there is one just if the error has the name of
/// that refusal and a number that parts can have.
pub proof fn missing_part_is_the_named_one(name: Seq<char>, value: Option<u32>)
    ensures
        named_part(name, value) is Some <==> name == "FILE_PART_MISSING"@ && value is Some
            && value->0 < 0x8000_0000,
        named_part(name, value) is Some ==> named_part(name, value)->0 == value->0,
{
}

/// What is done about a refusal: without a missing part nothing can be; a part is only ever sent
/// again if it is the missing one, was sent by this upload, and none was before; a restart begins
/// with the first part; and after a restart there is no other.
pub proof fn repair_is_justified(state: Finalization, missing: Option<i32>)
    ensures
        ({
            let (step, after) = state.decided(missing);
            &&& missing is None ==> step is GiveUp
            &&& step is Resend ==> missing == Some(step->Resend_0) && state.start
                <= step->Resend_0 < state.total && !state.repaired && after.repaired
                && after.start == state.start && after.restarted == state.restarted
            &&& missing is Some && !state.repaired && state.start <= missing->0 < state.total
                ==> step is Resend
            &&& step is Restart ==> !state.restarted && after.restarted && after.start == 0
                && !after.repaired
            &&& missing is Some && !state.restarted ==> !(step is GiveUp)
            &&& after.total == state.total
            &&& step is GiveUp ==> after == state
        }),
{
}

/// The limits that parts and uploads keep to.
pub proof fn limits_of_the_service()
    ensures
        PART_SIZE == 512 * 1024,
        BIG_FILE_THRESHOLD == 10 * 1024 * 1024,
        INITIAL_UPLOAD_CONCURRENCY == 4,
        UPLOAD_CONCURRENCY_RECOVERY_INTERVAL == 60 * 1000,
        MAX_UPLOAD_RETRIES == 5,
        MAX_FLOOD_WAIT == 30 * 60,
{
}

/// How far an upload is when it was asked for parts some times in a row.
pub open spec fn after_handing(upload: PartUploadView, n: nat) -> PartUploadView
    decreases n,
{
    if n == 0 {
        upload
    } else {
        after_handing(upload, (n - 1) as nat).handed().1
    }
}

/// An upload hands out each part from the first that was not done to the last, once each and in
/// order, and then no more.
pub proof fn every_part_is_handed_out_once(file_id: i64, done: i32, total: i32, n: nat)
    requires
        0 <= done,
    ensures
        ({
            let now = after_handing(upload_from(file_id, done, total), n);
            &&& done + n < total ==> now.handed().0 == Some((done + n) as i32)
            &&& done + n >= total ==> now.handed().0 is None
            &&& now.next == if done + n < total {
                done + n
            } else if done < total {
                total as int
            } else {
                done as int
            }
            &&& now.total == total && now.start == done && now.file_id == file_id
                && now.done == Set::<i32>::empty() && now.watermark == done
        }),
    decreases n,
{
    if n > 0 {
        every_part_is_handed_out_once(file_id, done, total, (n - 1) as nat);
    }
}

/// The watermark stands at the first part that is not confirmed: all from the start of the upload
/// up to it are, and no confirmation is forgotten.
pub proof fn watermark_is_at_the_first_gap(upload: PartUploadView, part: i32)
    requires
        upload.wf(),
        upload.start <= part < upload.total,
    ensures
        ({
            let after = upload.confirmed(part);
            &&& after.done.contains(part)
            &&& forall|p: i32|
                p != part ==> #[trigger] after.done.contains(p) == upload.done.contains(p)
            &&& upload.start <= after.watermark <= upload.total
            &&& forall|p: i32|
                upload.start <= p < after.watermark ==> #[trigger] after.done.contains(p)
            &&& !after.done.contains(after.watermark)
            &&& after.total == upload.total && after.next == upload.next && after.start
                == upload.start && after.file_id == upload.file_id
        }),
{
    let done = upload.done.insert(part);
    first_gap_is_first(done, upload.start as int);
    let gap = first_gap(done, upload.start as int);
    assert(gap <= upload.total) by {
        if gap > upload.total {
            assert(has_part(done, upload.total as int));
        }
    }
    assert forall|p: i32| upload.start <= p < gap implies #[trigger] done.contains(p) by {
        assert(has_part(done, p as int));
    }
    assert(!has_part(done, gap));
}

/// The upload of a document in parts: a fresh one under a new number, or one that goes on.
pub open spec fn upload_of(len: int, resume: Option<(i64, i32)>, fresh_id: i64) -> PartUploadView {
    upload_from(
        match resume {
            Some((id, _)) => id,
            None => fresh_id,
        },
        match resume {
            Some((_, done)) => done,
            None => 0,
        },
        wrapped_i32(parts_of_len(len)) as i32,
    )
}

/// An upload that goes on keeps its number and hands out the first part that was not done next; a
/// fresh one begins with the first part. Either has as many parts as the document takes, and none
/// of them is confirmed yet.
pub proof fn uploads_go_on_where_they_stopped(
    len: int,
    resume: Option<(i64, i32)>,
    fresh_id: i64,
    total: i32,
)
    requires
        (total - 1) * 524_288 < len <= total * 524_288,
        0 < total,
    ensures
        ({
            let upload = upload_of(len, resume, fresh_id);
            &&& upload.total == total
            &&& upload.done == Set::<i32>::empty()
            &&& resume is None ==> upload.file_id == fresh_id && upload.handed().0 == Some(0i32)
            &&& resume is Some ==> upload.file_id == (resume->0).0 && upload.start == (resume->0).1
                && upload.watermark == (resume->0).1
            &&& resume is Some && (resume->0).1 < total ==> upload.handed().0 == Some((resume->0).1)
            &&& resume is Some && (resume->0).1 >= total ==> upload.handed().0 is None
        }),
{
    assert(parts_of_len(len) == total);
}

/// A range before any piece of it has come: the pieces begin with the part that holds its first
/// byte.
pub open spec fn range_from(offset: int, len: int) -> RangeState {
    RangeState { leading: offset % 524_288, remaining: len, written: 0 }
}

} // verus!
