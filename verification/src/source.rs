//! The byte sources of uploads: chunks of files, plain or sealed, and packs of small chunks.
use vstd::prelude::*;
use vstd::utf8::encode_utf8;
use crate::crypto::{
    plain_segments, range_piece, sealed_len_of, sealed_range, sealed_segment_of, seals_stream,
    tagged, tagged_range_is_stream, Crypto, CryptoKeys, SEGMENT_SIZE,
};
use crate::telegram_transfer::{
    copy_into, joined, range_fed_all, range_of_document, PartSource, RangeState, TransferError,
};

verus! {

/// The `len` bytes at `base` of some data.
pub open spec fn plain_range(data: Seq<u8>, base: int, len: int) -> Seq<u8> {
    Seq::new(len as nat, |j: int| data[base + j])
}

/// A range of a file. Reads may go on behind it, to the end of the file.
pub struct PlainChunkSource<S: PartSource> {
    pub file: S,
    pub base: u64,
    pub len: u64,
}

/// What reads of a file reach from `base` on.
pub open spec fn reach_from(data: Seq<u8>, base: int) -> Seq<u8> {
    if base <= data.len() {
        data.subrange(base, data.len() as int)
    } else {
        Seq::empty()
    }
}

/// Fills `buf` with the bytes of a file at `offset` from `base` on.
fn read_plain<S: PartSource>(file: &S, base: u64, offset: u64, buf: &mut [u8]) -> (r: Result<
    (),
    TransferError,
>)
    requires
        file.valid(),
    ensures
        final(buf)@.len() == old(buf)@.len(),
        r is Ok && old(buf)@.len() > 0 ==> {
            &&& base + offset + old(buf)@.len() <= file.reach().len()
            &&& final(buf)@ == reach_from(file.reach(), base as int).subrange(
                offset as int,
                offset + old(buf)@.len(),
            )
        },
        file.dependable() && base + offset + old(buf)@.len() <= file.reach().len() && base + offset
            <= u64::MAX ==> r is Ok,
        base + offset > u64::MAX ==> r == Err::<(), TransferError>(TransferError::RangeOverflow)
            && final(buf)@ == old(buf)@,
{
    match base.checked_add(offset) {
        Some(start) => match file.read_at(start, buf) {
            Ok(()) => {
                proof {
                    if old(buf)@.len() > 0 {
                        assert(buf@ =~= reach_from(file.reach(), base as int).subrange(
                            offset as int,
                            offset + old(buf)@.len(),
                        ));
                    }
                }
                Ok(())
            },
            Err(error) => Err(error),
        },
        None => Err(TransferError::RangeOverflow),
    }
}

impl<S: PartSource> PartSource for PlainChunkSource<S> {
    open spec fn content(&self) -> Seq<u8> {
        plain_range(self.file.reach(), self.base as int, self.len as int)
    }

    open spec fn reach(&self) -> Seq<u8> {
        reach_from(self.file.reach(), self.base as int)
    }

    open spec fn shown(&self, pos: int) -> bool {
        self.base + pos < self.file.reach().len()
    }

    open spec fn dependable(&self) -> bool {
        self.file.dependable() && self.base + self.len <= self.file.reach().len() <= u64::MAX
    }

    open spec fn valid(&self) -> bool {
        self.file.valid() && self.base + self.len <= u64::MAX
    }

    fn len(&self) -> (r: u64) {
        self.len
    }

    /// A read succeeds within the file, also where it goes on behind the range.
    fn read_at(&self, offset: u64, buf: &mut [u8]) -> (r: Result<(), TransferError>)
        ensures
            self.file.dependable() && self.base + offset + old(buf)@.len()
                <= self.file.reach().len() && self.base + offset <= u64::MAX ==> r is Ok,
            self.base + offset > u64::MAX ==> r == Err::<(), TransferError>(
                TransferError::RangeOverflow,
            ) && final(buf)@ == old(buf)@,
    {
        let r = read_plain(&self.file, self.base, offset, buf);
        proof {
            assert(self.reach() == reach_from(self.file.reach(), self.base as int));
            if r is Ok && offset + old(buf)@.len() <= self.len {
                assert(buf@ =~= self.content().subrange(
                    offset as int,
                    offset + old(buf)@.len(),
                ));
            }
        }
        r
    }
}

/// The sealed form of a range of a file. Segments are sealed anew on demand; their nonces do not
/// change, so every read sees the same bytes.
pub struct EncryptedChunkSource<S: PartSource> {
    pub file: S,
    pub base: u64,
    pub plain_len: u64,
    pub crypto: Crypto,
    /// The chunk's plaintext hash.
    pub context: String,
}

/// Whether a context leaves room for the segment number that is hashed after it.
pub open spec fn context_fits(context: Seq<char>) -> bool {
    encode_utf8(context).len() + 8 <= u64::MAX
}

/// Reads and seals one segment of a range of a file.
fn seal_piece<S: PartSource>(
    file: &S,
    base: u64,
    plain_len: u64,
    crypto: &Crypto,
    context: &str,
    seg: u64,
) -> (r: Result<Vec<u8>, TransferError>)
    requires
        file.valid(),
        base + plain_len <= u64::MAX,
        context_fits(context@),
        seg < plain_segments(plain_len as int),
    ensures
        r is Ok ==> {
            &&& r->Ok_0@ == sealed_segment_of(
                crypto@,
                encode_utf8(context@),
                file.reach(),
                base as int,
                plain_len as int,
                seg as int,
            )
            &&& tagged(
                crypto@,
                encode_utf8(context@),
                file.reach(),
                base as int,
                plain_len as int,
                seg as int,
            )
        },
        file.dependable() && base + plain_len <= file.reach().len() ==> r is Ok,
{
    let plain_off: u64 = seg * 1_048_576;
    let left: u64 = plain_len - plain_off;
    let plain_take: usize = if left < SEGMENT_SIZE {
        left as usize
    } else {
        SEGMENT_SIZE as usize
    };
    let mut plain: Vec<u8> = vec![0u8; plain_take];
    match file.read_at(base + plain_off, plain.as_mut_slice()) {
        Ok(()) => {},
        Err(error) => {
            return Err(error);
        },
    }
    assert(plain@ =~= range_piece(
        file.reach(),
        base as int,
        plain_len as int,
        seg as int,
    ));
    match crypto.seal_segment(context.as_bytes(), seg, plain.as_slice()) {
        Ok(sealed) => Ok(sealed),
        Err(_) => Err(TransferError::SealFailed),
    }
}

/// The bytes of a sealed range within one segment are those of the sealed segment.
proof fn part_of_segment(
    keys: CryptoKeys,
    context: Seq<u8>,
    data: Seq<u8>,
    base: int,
    plain_len: int,
    pos: int,
    take: int,
)
    requires
        0 <= plain_len,
        0 <= pos,
        0 <= take,
        pos + take <= sealed_len_of(plain_len),
        pos % 1_048_592 + take <= 1_048_592,
        pos % 1_048_592 + take <= sealed_segment_of(
            keys,
            context,
            data,
            base,
            plain_len,
            pos / 1_048_592,
        ).len(),
    ensures
        sealed_range(keys, context, data, base, plain_len).subrange(pos, pos + take)
            == sealed_segment_of(
            keys,
            context,
            data,
            base,
            plain_len,
            pos / 1_048_592,
        ).subrange(pos % 1_048_592, pos % 1_048_592 + take),
{
    let seg = pos / 1_048_592;
    let in_seg = pos % 1_048_592;
    let full = sealed_range(keys, context, data, base, plain_len);
    let one = sealed_segment_of(keys, context, data, base, plain_len, seg);
    let fresh = full.subrange(pos, pos + take);
    assert forall|j: int| 0 <= j < take implies #[trigger] fresh[j] == one[in_seg + j] by {
        assert((pos + j) / 1_048_592 == seg);
        assert((pos + j) % 1_048_592 == in_seg + j);
    }
    assert(fresh =~= one.subrange(in_seg, in_seg + take));
}

/// Whether the segment that holds a place of the sealed form of a range is tagged.
pub open spec fn tagged_at(
    keys: CryptoKeys,
    context: Seq<u8>,
    data: Seq<u8>,
    base: int,
    plain_len: int,
    pos: int,
) -> bool {
    tagged(keys, context, data, base, plain_len, pos / 1_048_592)
}

/// Fills `buf` with the bytes at `offset` of the sealed form of a range of a file.
fn read_sealed<S: PartSource>(
    file: &S,
    base: u64,
    plain_len: u64,
    crypto: &Crypto,
    context: &str,
    offset: u64,
    buf: &mut [u8],
) -> (r: Result<(), TransferError>)
    requires
        file.valid(),
        base + plain_len <= u64::MAX,
        sealed_len_of(plain_len as int) <= u64::MAX,
        context_fits(context@),
    ensures
        final(buf)@.len() == old(buf)@.len(),
        old(buf)@.len() == 0 ==> r is Ok,
        r is Ok && old(buf)@.len() > 0 ==> {
            &&& offset + old(buf)@.len() <= sealed_len_of(plain_len as int)
            &&& final(buf)@ == sealed_range(
                crypto@,
                encode_utf8(context@),
                file.reach(),
                base as int,
                plain_len as int,
            ).subrange(offset as int, offset + old(buf)@.len())
        },
        r is Ok ==> forall|pos: int|
            offset <= pos < offset + old(buf)@.len() ==> #[trigger] tagged_at(
                crypto@,
                encode_utf8(context@),
                file.reach(),
                base as int,
                plain_len as int,
                pos,
            ),
        file.dependable() && offset + old(buf)@.len() <= sealed_len_of(plain_len as int) && base
            + plain_len <= file.reach().len() ==> r is Ok,
        old(buf)@.len() > 0 && offset + old(buf)@.len() > sealed_len_of(plain_len as int) ==> r
            == Err::<(), TransferError>(TransferError::BeyondEnd) && final(buf)@ == old(buf)@,
{
    let total: u64 = Crypto::sealed_len(plain_len);
    let wanted: usize = buf.len();
    if wanted > 0 && (offset > total || wanted as u64 > total - offset) {
        return Err(TransferError::BeyondEnd);
    }
    let ghost keys = crypto@;
    let ghost ctx = encode_utf8(context@);
    let ghost data = file.reach();
    let ghost full = sealed_range(keys, ctx, data, base as int, plain_len as int);
    let mut written: usize = 0;
    proof {
        if wanted > 0 {
            assert(buf@.subrange(0, 0) =~= full.subrange(offset as int, offset as int));
        }
    }
    while written < wanted
        invariant
            file.valid(),
            base + plain_len <= u64::MAX,
            context_fits(context@),
            total == sealed_len_of(plain_len as int),
            written <= wanted,
            wanted == buf@.len(),
            wanted == old(buf)@.len(),
            wanted > 0 ==> offset + wanted <= total,
            keys == crypto@,
            ctx == encode_utf8(context@),
            data == file.reach(),
            full == sealed_range(keys, ctx, data, base as int, plain_len as int),
            wanted > 0 ==> buf@.subrange(0, written as int) == full.subrange(
                offset as int,
                offset + written,
            ),
            forall|pos: int|
                offset <= pos < offset + written ==> #[trigger] tagged_at(
                    keys,
                    ctx,
                    data,
                    base as int,
                    plain_len as int,
                    pos,
                ),
        decreases wanted - written,
    {
        let pos: u64 = offset + written as u64;
        let seg: u64 = pos / 1_048_592;
        let in_seg: usize = (pos % 1_048_592) as usize;
        let sealed = match seal_piece(file, base, plain_len, crypto, context, seg) {
            Ok(sealed) => sealed,
            Err(error) => {
                return Err(error);
            },
        };
        let room: usize = wanted - written;
        let take: usize = if sealed.len() - in_seg < room { sealed.len() - in_seg } else { room };
        let ghost before = buf@;
        copy_into(buf, written, sealed.as_slice(), in_seg, take);
        proof {
            part_of_segment(
                keys,
                ctx,
                data,
                base as int,
                plain_len as int,
                pos as int,
                take as int,
            );
            assert(buf@.subrange(0, written + take) =~= before.subrange(0, written as int)
                + sealed@.subrange(in_seg as int, in_seg + take));
            assert(full.subrange(offset as int, offset + written) + full.subrange(
                pos as int,
                pos + take,
            ) =~= full.subrange(offset as int, offset + written + take));
            assert forall|at: int| offset <= at < offset + written + take implies #[trigger]
                tagged_at(keys, ctx, data, base as int, plain_len as int, at) by {
                if at >= pos {
                    assert(at / 1_048_592 == seg as int);
                }
            }
        }
        written += take;
    }
    assert(buf@.subrange(0, written as int) =~= buf@);
    Ok(())
}

/// Where every place is tagged, the sealed form of a range is a sealed stream of it.
proof fn tagged_places_are_stream(
    keys: CryptoKeys,
    context: Seq<u8>,
    data: Seq<u8>,
    base: int,
    plain_len: int,
)
    requires
        0 <= base,
        0 <= plain_len <= u64::MAX,
        plain_len == 0 ==> base <= data.len(),
        forall|pos: int|
            0 <= pos < sealed_len_of(plain_len) ==> #[trigger] tagged_at(
                keys,
                context,
                data,
                base,
                plain_len,
                pos,
            ),
    ensures
        base + plain_len <= data.len(),
        seals_stream(
            keys,
            context,
            data.subrange(base, base + plain_len),
            sealed_range(keys, context, data, base, plain_len),
        ),
{
    assert forall|i: int| 0 <= i < plain_segments(plain_len) implies #[trigger] tagged(
        keys,
        context,
        data,
        base,
        plain_len,
        i,
    ) by {
        assert(tagged_at(keys, context, data, base, plain_len, i * 1_048_592));
    }
    tagged_range_is_stream(keys, context, data, base, plain_len);
}

impl<S: PartSource> PartSource for EncryptedChunkSource<S> {
    open spec fn content(&self) -> Seq<u8> {
        sealed_range(
            self.crypto@,
            encode_utf8(self.context@),
            self.file.reach(),
            self.base as int,
            self.plain_len as int,
        )
    }

    open spec fn reach(&self) -> Seq<u8> {
        self.content()
    }

    open spec fn shown(&self, pos: int) -> bool {
        tagged_at(
            self.crypto@,
            encode_utf8(self.context@),
            self.file.reach(),
            self.base as int,
            self.plain_len as int,
            pos,
        )
    }

    open spec fn dependable(&self) -> bool {
        self.file.dependable() && self.base + self.plain_len <= self.file.reach().len()
    }

    open spec fn valid(&self) -> bool {
        &&& self.file.valid()
        &&& self.base + self.plain_len <= u64::MAX
        &&& sealed_len_of(self.plain_len as int) <= u64::MAX
        &&& context_fits(self.context@)
    }

    fn len(&self) -> (r: u64) {
        Crypto::sealed_len(self.plain_len)
    }

    /// A read shows that the segments which it touches are tagged. It is refused beyond the end,
    /// unless nothing is asked for.
    fn read_at(&self, offset: u64, buf: &mut [u8]) -> (r: Result<(), TransferError>)
        ensures
            old(buf)@.len() == 0 ==> r is Ok,
            old(buf)@.len() > 0 && offset + old(buf)@.len() > sealed_len_of(self.plain_len as int)
                ==> r == Err::<(), TransferError>(TransferError::BeyondEnd) && final(buf)@
                == old(buf)@,
    {
        let r = read_sealed(
            &self.file,
            self.base,
            self.plain_len,
            &self.crypto,
            self.context.as_str(),
            offset,
            buf,
        );
        proof {
            assert(self.reach() == self.content());
            if old(buf)@.len() == 0 && offset <= self.content().len() {
                assert(buf@ =~= self.content().subrange(offset as int, offset as int));
            }
        }
        r
    }
}

/// A sealed source of which every byte was read is a sealed stream of its range, however the reads
/// were cut.
pub proof fn sealed_source_is_stream<S: PartSource>(source: &EncryptedChunkSource<S>)
    requires
        source.valid(),
        source.plain_len == 0 ==> source.base <= source.file.reach().len(),
        forall|pos: int| 0 <= pos < source.content().len() ==> #[trigger] source.shown(pos),
    ensures
        source.base + source.plain_len <= source.file.reach().len(),
        seals_stream(
            source.crypto@,
            encode_utf8(source.context@),
            source.file.reach().subrange(source.base as int, source.base + source.plain_len),
            source.content(),
        ),
{
    let keys = source.crypto@;
    let ctx = encode_utf8(source.context@);
    let data = source.file.reach();
    let base = source.base as int;
    let plain_len = source.plain_len as int;
    assert forall|pos: int| 0 <= pos < sealed_len_of(plain_len) implies #[trigger] tagged_at(
        keys,
        ctx,
        data,
        base,
        plain_len,
        pos,
    ) by {
        assert(source.shown(pos));
    }
    tagged_places_are_stream(keys, ctx, data, base, plain_len);
}

/// A plain source of which every byte was read is its range of the file.
pub proof fn plain_source_is_range<S: PartSource>(source: &PlainChunkSource<S>)
    requires
        source.len == 0 ==> source.base <= source.file.reach().len(),
        forall|pos: int| 0 <= pos < source.content().len() ==> #[trigger] source.shown(pos),
    ensures
        source.base + source.len <= source.file.reach().len(),
        source.content() == source.file.reach().subrange(
            source.base as int,
            source.base + source.len,
        ),
{
    if source.len > 0 {
        assert(source.shown(source.len - 1));
    }
    assert(source.content() =~= source.file.reach().subrange(
        source.base as int,
        source.base + source.len,
    ));
}

/// A distinct chunk that goes into a pack. Its file is opened only when its bytes are read.
#[derive(Debug)]
pub struct PackMember {
    pub hash: String,
    pub abs_path: String,
    /// Plaintext length.
    pub size: u64,
    /// Where its stored bytes begin within the pack.
    pub offset: u64,
    /// How many stored bytes it has.
    pub stored_len: u64,
}

/// Length of the stored form of `size` bytes.
pub open spec fn stored_len_of(size: int, encrypted: bool) -> int {
    if encrypted {
        sealed_len_of(size)
    } else {
        size
    }
}

/// Length of the stored form of `size` bytes.
pub fn stored_len(size: u64, encrypted: bool) -> (r: u64)
    requires
        stored_len_of(size as int, encrypted) <= u64::MAX,
    ensures
        r == stored_len_of(size as int, encrypted),
{
    if encrypted {
        Crypto::sealed_len(size)
    } else {
        size
    }
}

impl PackMember {
    /// A member at a place of a pack.
    pub fn new(hash: String, abs_path: String, size: u64, offset: u64, encrypted: bool) -> (r: Self)
        requires
            stored_len_of(size as int, encrypted) <= u64::MAX,
        ensures
            r == (PackMember {
                hash,
                abs_path,
                size,
                offset,
                stored_len: stored_len_of(size as int, encrypted) as u64,
            }),
    {
        PackMember { hash, abs_path, size, offset, stored_len: stored_len(size, encrypted) }
    }
}

impl Clone for PackMember {
    fn clone(&self) -> (r: Self)
        ensures
            r == *self,
    {
        PackMember {
            hash: self.hash.clone(),
            abs_path: self.abs_path.clone(),
            size: self.size,
            offset: self.offset,
            stored_len: self.stored_len,
        }
    }
}

/// What is wrong with the members of a pack.
#[derive(Debug, Clone, Copy, PartialEq, Eq, Structural)]
pub enum PackError {
    /// There are none.
    Empty,
    FirstOffset,
    LengthOverflow,
    NotContiguous,
}

impl PackError {
    /// A sentence for the user.
    pub fn message(&self) -> (r: String)
        ensures
            r@ == (match *self {
                PackError::Empty => "refusing to upload an empty pack"@,
                PackError::FirstOffset => "first pack member does not start at offset zero"@,
                PackError::LengthOverflow => "pack length overflow"@,
                PackError::NotContiguous => "pack members are not contiguous"@,
            }),
    {
        match self {
            PackError::Empty => "refusing to upload an empty pack".to_owned(),
            PackError::FirstOffset => "first pack member does not start at offset zero".to_owned(),
            PackError::LengthOverflow => "pack length overflow".to_owned(),
            PackError::NotContiguous => "pack members are not contiguous".to_owned(),
        }
    }
}

/// Whether the member with a number begins where the one before it ends.
pub open spec fn follows(members: Seq<PackMember>, i: int) -> bool {
    members[i].offset == members[i - 1].offset + members[i - 1].stored_len
}

/// Whether the members follow one another from offset zero on.
pub open spec fn contiguous(members: Seq<PackMember>) -> bool {
    &&& members.len() > 0 ==> members[0].offset == 0
    &&& forall|i: int| 0 < i < members.len() ==> #[trigger] follows(members, i)
}

/// Where the last member ends.
pub open spec fn pack_len(members: Seq<PackMember>) -> int {
    if members.len() == 0 {
        0
    } else {
        members.last().offset + members.last().stored_len
    }
}

/// The first thing that is wrong with the members of a pack, if anything is.
pub open spec fn members_fault(members: Seq<PackMember>) -> Option<PackError> {
    if members.len() > 0 && members[0].offset != 0 {
        Some(PackError::FirstOffset)
    } else if pack_len(members) > u64::MAX {
        Some(PackError::LengthOverflow)
    } else if !contiguous(members) {
        Some(PackError::NotContiguous)
    } else {
        None
    }
}

/// The stored bytes of a member, given the bytes of its file.
pub open spec fn member_bytes(
    member: PackMember,
    data: Seq<u8>,
    keys: Option<CryptoKeys>,
) -> Seq<u8> {
    match keys {
        Some(keys) => sealed_range(
            keys,
            encode_utf8(member.hash@),
            data,
            0,
            member.size as int,
        ),
        None => plain_range(data, 0, member.size as int),
    }
}

/// The stored bytes of the first `n` members in a row.
pub open spec fn packed(
    members: Seq<PackMember>,
    data: spec_fn(int) -> Seq<u8>,
    keys: Option<CryptoKeys>,
    n: int,
) -> Seq<u8>
    decreases n,
{
    if n <= 0 {
        Seq::empty()
    } else {
        packed(members, data, keys, n - 1) + member_bytes(members[n - 1], data(n - 1), keys)
    }
}

/// Whether each member's stored length is that of its bytes.
pub open spec fn lengths_agree(members: Seq<PackMember>, encrypted: bool) -> bool {
    forall|i: int|
        0 <= i < members.len() ==> (#[trigger] members[i]).stored_len == stored_len_of(
            members[i].size as int,
            encrypted,
        )
}

/// A member of a contiguous pack ends before a later one begins.
proof fn members_apart(members: Seq<PackMember>, i: int, j: int)
    requires
        contiguous(members),
        0 <= i < j < members.len(),
    ensures
        members[i].offset + members[i].stored_len <= members[j].offset,
    decreases j - i,
{
    assert(follows(members, j));
    if i < j - 1 {
        members_apart(members, i, j - 1);
    }
}

/// What a successful read shows of a place of a member's stored bytes: its segment is tagged, or
/// its byte is there.
pub open spec fn member_shown(
    member: PackMember,
    data: Seq<u8>,
    keys: Option<CryptoKeys>,
    pos: int,
) -> bool {
    match keys {
        Some(keys) => tagged_at(keys, encode_utf8(member.hash@), data, 0, member.size as int, pos),
        None => pos < data.len(),
    }
}

/// The first members of a contiguous pack fill it up to where the last of them ends.
proof fn packed_len(
    members: Seq<PackMember>,
    data: spec_fn(int) -> Seq<u8>,
    keys: Option<CryptoKeys>,
    n: int,
)
    requires
        contiguous(members),
        lengths_agree(members, keys is Some),
        0 <= n <= members.len(),
    ensures
        packed(members, data, keys, n).len() == if n == 0 {
            0
        } else {
            members[n - 1].offset + members[n - 1].stored_len
        },
    decreases n,
{
    if n > 0 {
        packed_len(members, data, keys, n - 1);
        if n > 1 {
            assert(follows(members, n - 1));
        }
    }
}

/// Each member stands in the pack at its offset exactly as it would be stored alone.
pub proof fn member_is_standalone(
    members: Seq<PackMember>,
    data: spec_fn(int) -> Seq<u8>,
    keys: Option<CryptoKeys>,
    n: int,
    i: int,
)
    requires
        contiguous(members),
        lengths_agree(members, keys is Some),
        0 <= i < n <= members.len(),
    ensures
        members[i].offset + members[i].stored_len <= packed(members, data, keys, n).len(),
        packed(members, data, keys, n).subrange(
            members[i].offset as int,
            members[i].offset + members[i].stored_len,
        ) == member_bytes(members[i], data(i), keys),
    decreases n,
{
    let all = packed(members, data, keys, n);
    let before = packed(members, data, keys, n - 1);
    packed_len(members, data, keys, n - 1);
    if n > 1 {
        assert(follows(members, n - 1));
    }
    if i == n - 1 {
        assert(all.subrange(
            members[i].offset as int,
            members[i].offset + members[i].stored_len,
        ) =~= member_bytes(members[i], data(i), keys));
    } else {
        member_is_standalone(members, data, keys, n - 1, i);
        assert(all.subrange(members[i].offset as int, members[i].offset + members[i].stored_len)
            =~= before.subrange(
            members[i].offset as int,
            members[i].offset + members[i].stored_len,
        ));
    }
}

/// A ranged download of a member's stored bytes out of the pack, cut into pieces in any way, gives
/// exactly what the member would be stored as alone.
pub proof fn member_downloads(
    members: Seq<PackMember>,
    data: spec_fn(int) -> Seq<u8>,
    keys: Option<CryptoKeys>,
    i: int,
    pieces: Seq<Seq<u8>>,
)
    requires
        contiguous(members),
        lengths_agree(members, keys is Some),
        0 <= i < members.len(),
        ({
            let pack = packed(members, data, keys, members.len() as int);
            joined(pieces) == pack.subrange(
                (members[i].offset as int / 524_288) * 524_288,
                pack.len() as int,
            )
        }),
    ensures
        range_fed_all(
            RangeState {
                leading: members[i].offset as int % 524_288,
                remaining: members[i].stored_len as int,
                written: 0,
            },
            pieces,
        ).1 == member_bytes(members[i], data(i), keys),
{
    let pack = packed(members, data, keys, members.len() as int);
    member_is_standalone(members, data, keys, members.len() as int, i);
    range_of_document(pack, members[i].offset as int, members[i].stored_len as int, pieces);
}

/// Checks that members follow one another from offset zero. Returns the length of the pack.
pub fn check_members(members: &Vec<PackMember>) -> (r: Result<u64, PackError>)
    ensures
        match members_fault(members@) {
            Some(fault) => r == Err::<u64, PackError>(fault),
            None => r is Ok && r->Ok_0 == pack_len(members@),
        },
{
    let count: usize = members.len();
    if count > 0 && members[0].offset != 0 {
        return Err(PackError::FirstOffset);
    }
    let len: u64 = if count > 0 {
        match members[count - 1].offset.checked_add(members[count - 1].stored_len) {
            Some(len) => len,
            None => {
                return Err(PackError::LengthOverflow);
            },
        }
    } else {
        0
    };
    let mut i: usize = 1;
    while i < count
        invariant
            1 <= i,
            count == members@.len(),
            count > 0 ==> i <= count,
            count > 0 ==> members@[0].offset == 0,
            pack_len(members@) <= u64::MAX,
            forall|j: int| 0 < j < i && j < count ==> #[trigger] follows(members@, j),
        decreases count - i,
    {
        let end: Option<u64> = members[i - 1].offset.checked_add(members[i - 1].stored_len);
        let fits: bool = match end {
            Some(end) => members[i].offset == end,
            None => false,
        };
        if !fits {
            assert(!follows(members@, i as int));
            return Err(PackError::NotContiguous);
        }
        i += 1;
    }
    Ok(len)
}

/// The stored forms of several chunks in a row, each of which can be found on its own. Reads may
/// span members.
pub struct PackSource<S: PartSource> {
    members: Vec<PackMember>,
    files: Vec<S>,
    len: u64,
    crypto: Option<Crypto>,
}

impl<S: PartSource> PackSource<S> {
    /// The members in order.
    pub closed spec fn members(&self) -> Seq<PackMember> {
        self.members@
    }

    /// The files of the members.
    pub closed spec fn files(&self) -> Seq<S> {
        self.files@
    }

    /// The keys with which the members are sealed, if they are.
    pub closed spec fn keys(&self) -> Option<CryptoKeys> {
        match self.crypto {
            Some(crypto) => Some(crypto@),
            None => None,
        }
    }

    /// A pack of members and their files. The members must follow one another from offset zero.
    pub fn new(members: Vec<PackMember>, files: Vec<S>, crypto: Option<Crypto>) -> (r: Result<
        Self,
        PackError,
    >)
        requires
            files@.len() == members@.len(),
            lengths_agree(members@, crypto is Some),
            forall|i: int| 0 <= i < files@.len() ==> (#[trigger] files@[i]).valid(),
            forall|i: int| 0 <= i < members@.len() ==> context_fits((#[trigger] members@[i]).hash@),
        ensures
            match members_fault(members@) {
                Some(fault) => r is Err && r->Err_0 == fault,
                None => r is Ok && r->Ok_0.valid() && r->Ok_0.members() == members@
                    && r->Ok_0.files() == files@ && r->Ok_0.keys() == match crypto {
                    Some(c) => Some(c@),
                    None => None,
                } && r->Ok_0.content().len() == pack_len(members@),
            },
    {
        let len: u64 = match check_members(&members) {
            Ok(len) => len,
            Err(error) => {
                return Err(error);
            },
        };
        let r = PackSource { members, files, len, crypto };
        proof {
            packed_len(r.members@, r.data(), r.keys(), r.members@.len() as int);
        }
        Ok(r)
    }

    /// The bytes of the files.
    pub open spec fn data(&self) -> spec_fn(int) -> Seq<u8> {
        |i: int| self.files()[i].reach()
    }

    /// The number of the member that holds a place.
    fn member_at(&self, pos: u64) -> (r: usize)
        requires
            self.valid(),
            pos < self.content().len(),
        ensures
            r < self.members@.len(),
            self.members@[r as int].offset <= pos < self.members@[r as int].offset
                + self.members@[r as int].stored_len,
    {
        let mut low: usize = 0;
        let mut high: usize = self.members.len();
        proof {
            packed_len(self.members@, self.data(), self.keys(), self.members@.len() as int);
        }
        while high - low > 1
            invariant
                self.valid(),
                pos < self.len,
                0 <= low < high <= self.members@.len(),
                self.members@[low as int].offset <= pos,
                high < self.members@.len() ==> pos < self.members@[high as int].offset,
            decreases high - low,
        {
            let mid: usize = low + (high - low) / 2;
            if self.members[mid].offset <= pos {
                low = mid;
            } else {
                high = mid;
            }
        }
        proof {
            if high < self.members@.len() {
                assert(follows(self.members@, high as int));
            }
        }
        low
    }

    /// What is shown of a place within one member is shown of the pack.
    proof fn shown_within(&self, index: int, at: int)
        requires
            self.valid(),
            0 <= index < self.members@.len(),
            self.members@[index].offset <= at < self.members@[index].offset
                + self.members@[index].stored_len,
            member_shown(
                self.members@[index],
                self.files@[index].reach(),
                self.keys(),
                at - self.members@[index].offset,
            ),
        ensures
            self.shown(at),
    {
        assert forall|i: int|
            0 <= i < self.members().len() && (#[trigger] self.members()[i]).offset <= at
                < self.members()[i].offset + self.members()[i].stored_len implies member_shown(
            self.members()[i],
            self.data()(i),
            self.keys(),
            at - self.members()[i].offset,
        ) by {
            if i < index {
                members_apart(self.members@, i, index);
            }
            if index < i {
                members_apart(self.members@, index, i);
            }
        }
    }

    /// A read within one member.
    fn read_member(&self, index: usize, offset: u64, buf: &mut [u8]) -> (r: Result<
        (),
        TransferError,
    >)
        requires
            self.valid(),
            index < self.members@.len(),
            old(buf)@.len() > 0,
            offset + old(buf)@.len() <= self.members@[index as int].stored_len,
        ensures
            final(buf)@.len() == old(buf)@.len(),
            r is Ok ==> {
                &&& final(buf)@ == member_bytes(
                    self.members@[index as int],
                    self.files@[index as int].reach(),
                    self.keys(),
                ).subrange(offset as int, offset + old(buf)@.len())
                &&& forall|pos: int|
                    offset <= pos < offset + old(buf)@.len() ==> #[trigger] member_shown(
                        self.members@[index as int],
                        self.files@[index as int].reach(),
                        self.keys(),
                        pos,
                    )
            },
            self.dependable() ==> r is Ok,
    {
        let member = &self.members[index];
        let file = &self.files[index];
        assert(self.members()[index as int] == *member);
        match &self.crypto {
            Some(crypto) => read_sealed(
                file,
                0,
                member.size,
                crypto,
                member.hash.as_str(),
                offset,
                buf,
            ),
            None => {
                let r = read_plain(file, 0, offset, buf);
                assert(r is Ok ==> buf@ =~= plain_range(
                    file.reach(),
                    0,
                    member.size as int,
                ).subrange(offset as int, offset + old(buf)@.len()));
                r
            },
        }
    }
}

impl<S: PartSource> PartSource for PackSource<S> {
    open spec fn content(&self) -> Seq<u8> {
        packed(self.members(), self.data(), self.keys(), self.members().len() as int)
    }

    open spec fn reach(&self) -> Seq<u8> {
        self.content()
    }

    open spec fn shown(&self, pos: int) -> bool {
        forall|i: int|
            0 <= i < self.members().len() && (#[trigger] self.members()[i]).offset <= pos
                < self.members()[i].offset + self.members()[i].stored_len ==> member_shown(
                self.members()[i],
                self.data()(i),
                self.keys(),
                pos - self.members()[i].offset,
            )
    }

    open spec fn dependable(&self) -> bool {
        forall|i: int|
            0 <= i < self.members().len() ==> self.files()[i].dependable() && (
            #[trigger] self.members()[i]).size <= self.files()[i].reach().len()
    }

    closed spec fn valid(&self) -> bool {
        &&& contiguous(self.members@)
        &&& lengths_agree(self.members@, self.crypto is Some)
        &&& pack_len(self.members@) == self.len
        &&& self.files@.len() == self.members@.len()
        &&& forall|i: int| 0 <= i < self.files@.len() ==> (#[trigger] self.files@[i]).valid()
        &&& forall|i: int|
            0 <= i < self.members@.len() ==> context_fits((#[trigger] self.members@[i]).hash@)
    }

    fn len(&self) -> (r: u64) {
        proof {
            packed_len(self.members@, self.data(), self.keys(), self.members@.len() as int);
        }
        self.len
    }

    fn read_at(&self, offset: u64, buf: &mut [u8]) -> (r: Result<(), TransferError>)
        ensures
            offset + old(buf)@.len() > u64::MAX ==> r == Err::<(), TransferError>(
                TransferError::RangeOverflow,
            ),
            self.content().len() < offset + old(buf)@.len() <= u64::MAX ==> r == Err::<
                (),
                TransferError,
            >(TransferError::BeyondEnd),
            self.content().len() < offset + old(buf)@.len() ==> final(buf)@ == old(buf)@,
    {
        proof {
            packed_len(self.members@, self.data(), self.keys(), self.members@.len() as int);
        }
        let ghost all = self.content();
        let wanted: usize = buf.len();
        match offset.checked_add(wanted as u64) {
            Some(end) => {
                if end > self.len {
                    return Err(TransferError::BeyondEnd);
                }
            },
            None => {
                return Err(TransferError::RangeOverflow);
            },
        }
        let mut written: usize = 0;
        assert(buf@.subrange(0, 0) =~= all.subrange(offset as int, offset as int));
        while written < wanted
            invariant
                self.valid(),
                all == self.content(),
                all.len() == self.len,
                written <= wanted,
                wanted == buf@.len(),
                wanted == old(buf)@.len(),
                offset + wanted <= self.len,
                buf@.subrange(0, written as int) == all.subrange(offset as int, offset + written),
                forall|at: int| offset <= at < offset + written ==> #[trigger] self.shown(at),
            decreases wanted - written,
        {
            let pos: u64 = offset + written as u64;
            let index: usize = self.member_at(pos);
            let member_offset: u64 = pos - self.members[index].offset;
            let rest: u64 = self.members[index].stored_len - member_offset;
            let room: usize = wanted - written;
            let take: usize = if rest < room as u64 { rest as usize } else { room };
            let mut piece: Vec<u8> = vec![0u8; take];
            match self.read_member(index, member_offset, piece.as_mut_slice()) {
                Ok(()) => {},
                Err(error) => {
                    return Err(error);
                },
            }
            let ghost before = buf@;
            copy_into(buf, written, piece.as_slice(), 0, take);
            proof {
                let m = self.members@[index as int];
                member_is_standalone(
                    self.members@,
                    self.data(),
                    self.keys(),
                    self.members@.len() as int,
                    index as int,
                );
                let own = all.subrange(m.offset as int, m.offset + m.stored_len);
                assert(own.subrange(member_offset as int, member_offset + take) =~= all.subrange(
                    pos as int,
                    pos + take,
                ));
                assert(buf@.subrange(0, written + take) =~= before.subrange(0, written as int)
                    + piece@.subrange(0, take as int));
                assert(piece@.subrange(0, take as int) =~= piece@);
                assert(all.subrange(offset as int, offset + written) + all.subrange(
                    pos as int,
                    pos + take,
                ) =~= all.subrange(offset as int, offset + written + take));
                assert forall|at: int| offset <= at < offset + written + take implies
                    #[trigger] self.shown(at) by {
                    if at >= pos {
                        self.shown_within(index as int, at);
                    }
                }
            }
            written += take;
        }
        assert(buf@.subrange(0, written as int) =~= buf@);
        assert(self.reach() == self.content());
        Ok(())
    }
}

/// A member of a pack of which every byte was read, however the reads were cut, stands in it at its
/// offset as the stored form of its file: a sealed stream, or the plain bytes.
pub proof fn pack_holds_member<S: PartSource>(pack: &PackSource<S>, i: int)
    requires
        pack.valid(),
        0 <= i < pack.members().len(),
        forall|pos: int| 0 <= pos < pack.content().len() ==> #[trigger] pack.shown(pos),
    ensures
        ({
            let member = pack.members()[i];
            let data = pack.data()(i);
            let stored = pack.content().subrange(
                member.offset as int,
                member.offset + member.stored_len,
            );
            &&& member.stored_len == stored_len_of(member.size as int, pack.keys() is Some)
            &&& member.offset + member.stored_len <= pack.content().len()
            &&& member.size <= data.len()
            &&& match pack.keys() {
                Some(keys) => seals_stream(
                    keys,
                    encode_utf8(member.hash@),
                    data.subrange(0, member.size as int),
                    stored,
                ),
                None => stored == data.subrange(0, member.size as int),
            }
        }),
{
    let members = pack.members();
    let member = members[i];
    let data = pack.data()(i);
    let size = member.size as int;
    member_is_standalone(members, pack.data(), pack.keys(), members.len() as int, i);
    assert forall|pos: int| 0 <= pos < member.stored_len implies #[trigger] member_shown(
        member,
        data,
        pack.keys(),
        pos,
    ) by {
        assert(pack.shown(member.offset + pos));
        assert(pack.members()[i].offset <= member.offset + pos);
    }
    match pack.keys() {
        Some(keys) => {
            let ctx = encode_utf8(member.hash@);
            assert forall|pos: int| 0 <= pos < sealed_len_of(size) implies #[trigger] tagged_at(
                keys,
                ctx,
                data,
                0,
                size,
                pos,
            ) by {
                assert(member_shown(member, data, pack.keys(), pos));
            }
            tagged_places_are_stream(keys, ctx, data, 0, size);
        },
        None => {
            if size > 0 {
                assert(member_shown(member, data, pack.keys(), size - 1));
            }
            assert(plain_range(data, 0, size) =~= data.subrange(0, size));
        },
    }
}

/// Members are accepted as a pack just if the first begins at zero, each other begins where the one
/// before it ends, and the end can be counted. What is wrong is said by the first of these that
/// fails: the beginning, the end, then the places between.
pub proof fn packs_are_checked(members: Seq<PackMember>)
    ensures
        ({
            let fault = members_fault(members);
            let begins = members.len() == 0 || members[0].offset == 0;
            let ends = members.len() == 0 || members[members.len() - 1].offset
                + members[members.len() - 1].stored_len <= u64::MAX;
            let follow = forall|i: int|
                0 < i < members.len() ==> #[trigger] members[i].offset == members[i - 1].offset
                    + members[i - 1].stored_len;
            &&& fault is None <==> begins && ends && follow
            &&& !begins <==> fault == Some(PackError::FirstOffset)
            &&& begins && !ends <==> fault == Some(PackError::LengthOverflow)
            &&& begins && ends && !follow <==> fault == Some(PackError::NotContiguous)
        }),
{
    let follow = forall|i: int|
        0 < i < members.len() ==> #[trigger] members[i].offset == members[i - 1].offset + members[i
            - 1].stored_len;
    if follow {
        assert forall|i: int| 0 < i < members.len() implies #[trigger] follows(members, i) by {
            assert(members[i].offset == members[i - 1].offset + members[i - 1].stored_len);
        }
    }
    if forall|i: int| 0 < i < members.len() ==> #[trigger] follows(members, i) {
        assert forall|i: int| 0 < i < members.len() implies #[trigger] members[i].offset
            == members[i - 1].offset + members[i - 1].stored_len by {
            assert(follows(members, i));
        }
    }
}

/// The length of a pack is the sum of what its members store.
pub proof fn pack_is_as_long_as_its_members(members: Seq<PackMember>, n: int)
    requires
        contiguous(members),
        0 <= n <= members.len(),
    ensures
        pack_len(members.subrange(0, n)) == stored_lens(members.subrange(0, n)),
    decreases n,
{
    let front = members.subrange(0, n);
    if n > 0 {
        pack_is_as_long_as_its_members(members, n - 1);
        assert(front.drop_last() =~= members.subrange(0, n - 1));
        assert(front.last() == members[n - 1]);
        if n > 1 {
            assert(follows(members, n - 1));
            assert(front.drop_last().last() == members[n - 2]);
        }
    }
}

/// What members store together.
pub open spec fn stored_lens(members: Seq<PackMember>) -> int
    decreases members.len(),
{
    if members.len() == 0 {
        0
    } else {
        stored_lens(members.drop_last()) + members.last().stored_len
    }
}

/// What is stored of a file is as long as the file, and sixteen bytes longer for each mebibyte that
/// is begun where it is sealed.
pub proof fn stored_length_is_that_of_the_file(size: int, n: int)
    requires
        0 <= n,
        0 <= size <= n * 1_048_576,
        n > 0 ==> size > (n - 1) * 1_048_576,
    ensures
        stored_len_of(size, false) == size,
        stored_len_of(size, true) == size + 16 * n,
{
}

/// Reads of a range of a file give the file's bytes from where the range begins, and the range is
/// as long as it says.
pub proof fn ranges_are_of_the_file(data: Seq<u8>, base: int, len: int, i: int)
    requires
        0 <= base,
        0 <= i < len,
        base + len <= data.len(),
    ensures
        plain_range(data, base, len).len() == len,
        plain_range(data, base, len)[i] == data[base + i],
        reach_from(data, base).len() == data.len() - base,
        reach_from(data, base)[i] == data[base + i],
{
}

} // verus!
