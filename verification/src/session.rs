//! The login session: data centers, cached peers and update state, as rows and as values.
use vstd::prelude::*;
use grammers_session::types::PeerId as DialogId;
use crate::numbers::NumTable;
use crate::text::{decimal, push_decimal, push_signed, signed_decimal};

verus! {

/// Version of the tables that this program reads and writes.
pub const VERSION: i64 = 1;

/// Bit of the logged-in user.
pub const USER_SELF: i64 = 1;

/// Bit of a bot.
pub const USER_BOT: i64 = 2;

/// Bit of a group.
pub const MEGAGROUP: i64 = 4;

/// Bit of a broadcast channel.
pub const BROADCAST: i64 = 8;

/// Bits of a broadcast group.
pub const GIGAGROUP: i64 = 12;

/// Length of an authorization key.
pub const AUTH_KEY_LEN: usize = 256;

/// What is wrong with a session.
#[derive(Debug, Clone, Copy, PartialEq, Eq, Structural)]
pub enum FileSessionError {
    /// An authorization key has another length than it should.
    InvalidAuthKeyLength(usize),
    /// The tables have a version that is not known.
    UnsupportedVersion(i64),
    /// A state names a channel twice.
    DuplicateChannel(i64),
}

impl FileSessionError {
    /// A sentence for the user.
    pub open spec fn text(self) -> Seq<char> {
        match self {
            FileSessionError::InvalidAuthKeyLength(length) =>
                "invalid auth key length: expected 256, got "@ + decimal(length as nat),
            FileSessionError::UnsupportedVersion(version) =>
                "unsupported session database version "@ + signed_decimal(version as int),
            FileSessionError::DuplicateChannel(id) => "duplicate state of channel "@
                + signed_decimal(id as int),
        }
    }

    /// A sentence for the user.
    pub fn message(&self) -> (r: String)
        ensures
            r@ == self.text(),
    {
        match self {
            FileSessionError::InvalidAuthKeyLength(length) => {
                let mut s = "invalid auth key length: expected 256, got ".to_owned();
                push_decimal(&mut s, *length as u64);
                s
            },
            FileSessionError::UnsupportedVersion(version) => {
                let mut s = "unsupported session database version ".to_owned();
                push_signed(&mut s, *version);
                s
            },
            FileSessionError::DuplicateChannel(id) => {
                let mut s = "duplicate state of channel ".to_owned();
                push_signed(&mut s, *id);
                s
            },
        }
    }
}

/// What to do with a session's tables.
#[derive(Debug, Clone, Copy, PartialEq, Eq, Structural)]
pub enum SchemaAction {
    /// They are there.
    Ready,
    /// They have to be created.
    Create,
}

/// Decides what to do with the tables of a session, by the version that is stored in it.
pub fn initialize(version: i64) -> (r: Result<SchemaAction, FileSessionError>)
    ensures
        r == if version == VERSION {
            Ok::<SchemaAction, FileSessionError>(SchemaAction::Ready)
        } else if version == 0 {
            Ok::<SchemaAction, FileSessionError>(SchemaAction::Create)
        } else {
            Err::<SchemaAction, FileSessionError>(FileSessionError::UnsupportedVersion(version))
        },
{
    if version == VERSION {
        Ok(SchemaAction::Ready)
    } else if version == 0 {
        Ok(SchemaAction::Create)
    } else {
        Err(FileSessionError::UnsupportedVersion(version))
    }
}

/// Whether a number can be that of a user.
pub open spec fn is_user_id(id: i64) -> bool {
    1 <= id <= 0xff_ffff_ffff
}

/// Whether a number can be that of a chat.
pub open spec fn is_chat_id(id: i64) -> bool {
    1 <= id <= 999_999_999_999
}

/// Whether a number can be that of a channel.
pub open spec fn is_channel_id(id: i64) -> bool {
    1 <= id <= 997_852_516_352 || 1_002_147_483_649 <= id <= 3_000_000_000_000
}

/// `grammers_session::types::PeerId::user`, in the dialog format that `bot_api_dialog_id` gives:
/// the number itself, if it can be that of a user.
#[verifier::external_body]
fn user_dialog(id: i64) -> (r: Option<i64>)
    ensures
        r == if is_user_id(id) {
            Some(id)
        } else {
            None
        },
{
    DialogId::user(id)?.bot_api_dialog_id()
}

/// `grammers_session::types::PeerId::chat`, in the dialog format that `bot_api_dialog_id` gives:
/// the negated number, if it can be that of a chat.
#[verifier::external_body]
fn chat_dialog(id: i64) -> (r: Option<i64>)
    ensures
        r == if is_chat_id(id) {
            Some((-id) as i64)
        } else {
            None
        },
{
    DialogId::chat(id)?.bot_api_dialog_id()
}

/// `grammers_session::types::PeerId::channel`, in the dialog format that `bot_api_dialog_id`
/// gives: the number behind a prefix, negated, if it can be that of a channel.
#[verifier::external_body]
fn channel_dialog(id: i64) -> (r: Option<i64>)
    ensures
        r == if is_channel_id(id) {
            Some((-1_000_000_000_000 - id) as i64)
        } else {
            None
        },
{
    DialogId::channel(id)?.bot_api_dialog_id()
}

/// The identity of a peer: its kind and number, or whoever is logged in.
#[derive(Debug, Clone, Copy, PartialEq, Eq, Structural)]
pub enum PeerId {
    SelfUser,
    User(i64),
    Chat(i64),
    Channel(i64),
}

impl PeerId {
    /// The key of a peer's row; `None` for whoever is logged in, and for a number out of range.
    pub open spec fn dialog(self) -> Option<i64> {
        match self {
            PeerId::SelfUser => None,
            PeerId::User(id) => if is_user_id(id) {
                Some(id)
            } else {
                None
            },
            PeerId::Chat(id) => if is_chat_id(id) {
                Some((-id) as i64)
            } else {
                None
            },
            PeerId::Channel(id) => if is_channel_id(id) {
                Some((-1_000_000_000_000 - id) as i64)
            } else {
                None
            },
        }
    }

    /// The key of a peer's row.
    pub fn dialog_id(&self) -> (r: Option<i64>)
        ensures
            r == self.dialog(),
    {
        match self {
            PeerId::SelfUser => None,
            PeerId::User(id) => user_dialog(*id),
            PeerId::Chat(id) => chat_dialog(*id),
            PeerId::Channel(id) => channel_dialog(*id),
        }
    }
}

/// Different peers have different keys.
pub proof fn dialogs_are_distinct(a: PeerId, b: PeerId)
    requires
        a.dialog() is Some,
        a.dialog() == b.dialog(),
    ensures
        a == b,
{
}

/// What kind of channel a channel is.
#[derive(Debug, Clone, Copy, PartialEq, Eq, Structural)]
pub enum ChannelKind {
    Broadcast,
    Megagroup,
    Gigagroup,
}

/// What is known of a peer.
#[derive(Debug, Clone, Copy)]
pub enum PeerInfo {
    User { id: i64, auth: Option<i64>, bot: Option<bool>, is_self: Option<bool> },
    Chat { id: i64 },
    Channel { id: i64, auth: Option<i64>, kind: Option<ChannelKind> },
}

/// The first of two values that is known.
pub open spec fn either<T>(a: Option<T>, b: Option<T>) -> Option<T> {
    match a {
        Some(value) => Some(value),
        None => b,
    }
}

impl PeerInfo {
    /// The identity of the peer.
    pub open spec fn peer(self) -> PeerId {
        match self {
            PeerInfo::User { id, .. } => PeerId::User(id),
            PeerInfo::Chat { id } => PeerId::Chat(id),
            PeerInfo::Channel { id, .. } => PeerId::Channel(id),
        }
    }

    /// The identity of the peer.
    pub fn id(&self) -> (r: PeerId)
        ensures
            r == self.peer(),
    {
        match self {
            PeerInfo::User { id, .. } => PeerId::User(*id),
            PeerInfo::Chat { id } => PeerId::Chat(*id),
            PeerInfo::Channel { id, .. } => PeerId::Channel(*id),
        }
    }

    /// What is known of a peer, with the gaps filled by what else is known of the same peer.
    pub open spec fn extended(self, other: PeerInfo) -> PeerInfo {
        match (self, other) {
            (
                PeerInfo::User { id, auth, bot, is_self },
                PeerInfo::User { id: same, auth: more_auth, bot: more_bot, is_self: more_self },
            ) => if id == same {
                PeerInfo::User {
                    id,
                    auth: either(auth, more_auth),
                    bot: either(bot, more_bot),
                    is_self: either(is_self, more_self),
                }
            } else {
                self
            },
            (
                PeerInfo::Channel { id, auth, kind },
                PeerInfo::Channel { id: same, auth: more_auth, kind: more_kind },
            ) => if id == same {
                PeerInfo::Channel {
                    id,
                    auth: either(auth, more_auth),
                    kind: either(kind, more_kind),
                }
            } else {
                self
            },
            _ => self,
        }
    }

    /// Fills the gaps by what else is known of the same peer. Returns whether it was the same.
    pub fn extend_info(&mut self, other: &PeerInfo) -> (r: bool)
        ensures
            *final(self) == old(self).extended(*other),
            r == (old(self).peer() == other.peer()),
    {
        match (*self, *other) {
            (
                PeerInfo::User { id, auth, bot, is_self },
                PeerInfo::User { id: same, auth: more_auth, bot: more_bot, is_self: more_self },
            ) => {
                if id != same {
                    return false;
                }
                *self = PeerInfo::User {
                    id,
                    auth: if auth.is_some() { auth } else { more_auth },
                    bot: if bot.is_some() { bot } else { more_bot },
                    is_self: if is_self.is_some() { is_self } else { more_self },
                };
                true
            },
            (PeerInfo::Chat { id }, PeerInfo::Chat { id: same }) => id == same,
            (
                PeerInfo::Channel { id, auth, kind },
                PeerInfo::Channel { id: same, auth: more_auth, kind: more_kind },
            ) => {
                if id != same {
                    return false;
                }
                *self = PeerInfo::Channel {
                    id,
                    auth: if auth.is_some() { auth } else { more_auth },
                    kind: if kind.is_some() { kind } else { more_kind },
                };
                true
            },
            _ => false,
        }
    }
}

/// A row of the peer table, but for its key.
#[derive(Debug, Clone, Copy)]
pub struct PeerRow {
    pub hash: Option<i64>,
    pub subtype: Option<i64>,
}

/// The bit of a flag that is set.
pub open spec fn flag_bit(flag: Option<bool>, bit: i64) -> int {
    if flag == Some(true) {
        bit as int
    } else {
        0
    }
}

/// The row of a peer.
pub open spec fn encoded(info: PeerInfo) -> PeerRow {
    match info {
        PeerInfo::User { auth, bot, is_self, .. } => PeerRow {
            hash: auth,
            subtype: if bot is None && is_self is None {
                None
            } else {
                Some((flag_bit(bot, USER_BOT) + flag_bit(is_self, USER_SELF)) as i64)
            },
        },
        PeerInfo::Chat { .. } => PeerRow { hash: None, subtype: None },
        PeerInfo::Channel { auth, kind, .. } => PeerRow {
            hash: auth,
            subtype: match kind {
                Some(ChannelKind::Megagroup) => Some(MEGAGROUP),
                Some(ChannelKind::Broadcast) => Some(BROADCAST),
                Some(ChannelKind::Gigagroup) => Some(GIGAGROUP),
                None => None,
            },
        },
    }
}

/// The kind of channel that bits stand for.
pub open spec fn decoded_kind(value: i64) -> Option<ChannelKind> {
    if value & GIGAGROUP == GIGAGROUP {
        Some(ChannelKind::Gigagroup)
    } else if value & BROADCAST != 0 {
        Some(ChannelKind::Broadcast)
    } else if value & MEGAGROUP != 0 {
        Some(ChannelKind::Megagroup)
    } else {
        None
    }
}

/// The user that a row describes.
pub open spec fn decoded_user(id: i64, row: PeerRow) -> PeerInfo {
    PeerInfo::User {
        id,
        auth: row.hash,
        bot: match row.subtype {
            Some(value) => Some(value & USER_BOT != 0),
            None => None,
        },
        is_self: match row.subtype {
            Some(value) => Some(value & USER_SELF != 0),
            None => None,
        },
    }
}

/// The peer that a row under a key describes.
pub open spec fn decoded(peer: PeerId, row: PeerRow, key: i64) -> PeerInfo {
    match peer {
        PeerId::SelfUser => decoded_user(key, row),
        PeerId::User(id) => decoded_user(id, row),
        PeerId::Chat(id) => PeerInfo::Chat { id },
        PeerId::Channel(id) => PeerInfo::Channel {
            id,
            auth: row.hash,
            kind: match row.subtype {
                Some(value) => decoded_kind(value),
                None => None,
            },
        },
    }
}

/// The row of a peer.
pub fn encode_peer(info: &PeerInfo) -> (r: PeerRow)
    ensures
        r == encoded(*info),
{
    match info {
        PeerInfo::User { auth, bot, is_self, .. } => {
            if bot.is_none() && is_self.is_none() {
                return PeerRow { hash: *auth, subtype: None };
            }
            let bot_bit: i64 = match bot {
                Some(true) => USER_BOT,
                _ => 0,
            };
            let self_bit: i64 = match is_self {
                Some(true) => USER_SELF,
                _ => 0,
            };
            PeerRow { hash: *auth, subtype: Some(bot_bit + self_bit) }
        },
        PeerInfo::Chat { .. } => PeerRow { hash: None, subtype: None },
        PeerInfo::Channel { auth, kind, .. } => PeerRow {
            hash: *auth,
            subtype: match kind {
                Some(ChannelKind::Megagroup) => Some(MEGAGROUP),
                Some(ChannelKind::Broadcast) => Some(BROADCAST),
                Some(ChannelKind::Gigagroup) => Some(GIGAGROUP),
                None => None,
            },
        },
    }
}

/// The kind of channel that bits stand for.
fn channel_kind(value: i64) -> (r: Option<ChannelKind>)
    ensures
        r == decoded_kind(value),
{
    if value & GIGAGROUP == GIGAGROUP {
        Some(ChannelKind::Gigagroup)
    } else if value & BROADCAST != 0 {
        Some(ChannelKind::Broadcast)
    } else if value & MEGAGROUP != 0 {
        Some(ChannelKind::Megagroup)
    } else {
        None
    }
}

/// The peer that a row under a key describes.
pub fn decode_peer(peer: PeerId, row: &PeerRow, key: i64) -> (r: PeerInfo)
    ensures
        r == decoded(peer, *row, key),
{
    match peer {
        PeerId::Chat(id) => PeerInfo::Chat { id },
        PeerId::Channel(id) => PeerInfo::Channel {
            id,
            auth: row.hash,
            kind: match row.subtype {
                Some(value) => channel_kind(value),
                None => None,
            },
        },
        PeerId::User(_) | PeerId::SelfUser => {
            let id: i64 = match peer {
                PeerId::User(id) => id,
                _ => key,
            };
            let (bot, is_self) = match row.subtype {
                Some(value) => (Some(value & USER_BOT != 0), Some(value & USER_SELF != 0)),
                None => (None, None),
            };
            PeerInfo::User { id, auth: row.hash, bot, is_self }
        },
    }
}

/// What a row keeps of a peer: where one flag of a user is known, the other counts as not set if
/// it is not known.
pub open spec fn settled(info: PeerInfo) -> PeerInfo {
    match info {
        PeerInfo::User { id, auth, bot, is_self } => if bot is None && is_self is None {
            info
        } else {
            PeerInfo::User {
                id,
                auth,
                bot: Some(bot == Some(true)),
                is_self: Some(is_self == Some(true)),
            }
        },
        _ => info,
    }
}

/// A peer can be read back from its row, up to flags that are half known.
pub proof fn peer_reads_back(info: PeerInfo, key: i64)
    ensures
        decoded(info.peer(), encoded(info), key) == settled(info),
{
    assert(0i64 & 2 == 0 && 1i64 & 2 == 0 && 2i64 & 2 == 2 && 3i64 & 2 == 2) by (bit_vector);
    assert(0i64 & 1 == 0 && 1i64 & 1 == 1 && 2i64 & 1 == 0 && 3i64 & 1 == 1) by (bit_vector);
    assert(12i64 & 12 == 12 && 8i64 & 12 == 8 && 4i64 & 12 == 4) by (bit_vector);
    assert(8i64 & 8 == 8 && 4i64 & 8 == 0 && 4i64 & 4 == 4) by (bit_vector);
}

/// A peer whose flags are both known, or both unknown, is read back exactly.
pub proof fn known_peer_reads_back(info: PeerInfo, key: i64)
    requires
        match info {
            PeerInfo::User { bot, is_self, .. } => bot is Some <==> is_self is Some,
            _ => true,
        },
    ensures
        decoded(info.peer(), encoded(info), key) == info,
{
    peer_reads_back(info, key);
    match info {
        PeerInfo::User { bot, is_self, .. } => {
            if bot is Some {
                assert(bot == Some(bot->0) && is_self == Some(is_self->0));
                assert((bot == Some(true)) == bot->0);
                assert((is_self == Some(true)) == is_self->0);
            }
        },
        _ => {},
    }
}

/// A data center: where it is, and the key agreed on with it.
#[derive(Debug)]
pub struct DcOption {
    pub id: i32,
    pub ipv4: String,
    pub ipv6: String,
    pub auth_key: Option<Vec<u8>>,
}

/// Checks that the key of a data center, if there is one, has the right length.
pub fn check_dc_option(option: &DcOption) -> (r: Result<(), FileSessionError>)
    ensures
        r == match option.auth_key {
            Some(key) => if key@.len() == AUTH_KEY_LEN {
                Ok::<(), FileSessionError>(())
            } else {
                Err::<(), FileSessionError>(
                    FileSessionError::InvalidAuthKeyLength(key@.len() as usize),
                )
            },
            None => Ok::<(), FileSessionError>(()),
        },
{
    match &option.auth_key {
        Some(key) => {
            if key.len() != AUTH_KEY_LEN {
                return Err(FileSessionError::InvalidAuthKeyLength(key.len()));
            }
            Ok(())
        },
        None => Ok(()),
    }
}

/// The state of one channel's updates.
#[derive(Debug, Clone, Copy, PartialEq, Eq, Structural)]
pub struct ChannelState {
    pub id: i64,
    pub pts: i32,
}

/// The state of all updates.
#[derive(Debug)]
pub struct UpdatesState {
    pub pts: i32,
    pub qts: i32,
    pub date: i32,
    pub seq: i32,
    pub channels: Vec<ChannelState>,
}

/// A change of the state of updates.
#[derive(Debug)]
pub enum UpdateState {
    All(UpdatesState),
    Primary { pts: i32, date: i32, seq: i32 },
    Secondary { qts: i32 },
    Channel { id: i64, pts: i32 },
}

/// The counters of the account's updates.
#[derive(Debug, Clone, Copy, PartialEq, Eq, Structural)]
pub struct Counters {
    pub pts: i32,
    pub qts: i32,
    pub date: i32,
    pub seq: i32,
}

/// What a session holds.
pub ghost struct SessionView {
    pub home_dc: i32,
    pub dc_options: Map<i64, DcOption>,
    pub peers: Map<i64, PeerRow>,
    /// `None` until the state is first set.
    pub counters: Option<Counters>,
    pub channels: Map<i64, i32>,
}

/// A list of channels as a map; the later entry counts.
pub open spec fn channel_map(list: Seq<ChannelState>) -> Map<i64, i32>
    decreases list.len(),
{
    if list.len() == 0 {
        Map::empty()
    } else {
        channel_map(list.drop_last()).insert(list.last().id, list.last().pts)
    }
}

/// Whether no channel is in a list twice.
pub open spec fn distinct_channels(list: Seq<ChannelState>) -> bool {
    forall|i: int, j: int|
        #![trigger list[i], list[j]]
        0 <= i < j < list.len() ==> list[i].id != list[j].id
}

/// Whether a channel is the first of a list that the list has named before.
pub open spec fn first_repeat(list: Seq<ChannelState>, id: i64) -> bool {
    exists|j: int|
        {
            &&& 0 <= j < list.len()
            &&& (#[trigger] list[j]).id == id
            &&& distinct_channels(list.subrange(0, j))
            &&& !distinct_channels(list.subrange(0, j + 1))
        }
}

/// A list that names no channel twice is kept whole: every channel of it, and no other.
pub proof fn channel_map_is_exact(list: Seq<ChannelState>)
    requires
        distinct_channels(list),
    ensures
        forall|i: int|
            0 <= i < list.len() ==> channel_map(list).dom().contains((#[trigger] list[i]).id)
                && channel_map(list)[list[i].id] == list[i].pts,
        forall|id: i64| #[trigger]
            channel_map(list).dom().contains(id) ==> exists|i: int|
                0 <= i < list.len() && (#[trigger] list[i]).id == id,
    decreases list.len(),
{
    if list.len() > 0 {
        let front = list.drop_last();
        assert forall|a: int, b: int|
            #![trigger front[a], front[b]]
            0 <= a < b < front.len() implies front[a].id != front[b].id by {
            assert(list[a].id != list[b].id);
        }
        channel_map_is_exact(front);
        assert forall|i: int| 0 <= i < list.len() implies channel_map(list).dom().contains(
            (#[trigger] list[i]).id,
        ) && channel_map(list)[list[i].id] == list[i].pts by {
            if i < front.len() {
                assert(front[i] == list[i]);
                assert(list[i].id != list[list.len() - 1].id);
            }
        }
        assert forall|id: i64| #[trigger] channel_map(list).dom().contains(id) implies exists|
            i: int,
        |
            0 <= i < list.len() && (#[trigger] list[i]).id == id by {
            if id == list.last().id {
                assert(list[list.len() - 1].id == id);
            } else {
                assert(channel_map(front).dom().contains(id));
                let i = choose|i: int| 0 <= i < front.len() && (#[trigger] front[i]).id == id;
                assert(list[i].id == id);
            }
        }
    }
}

/// The counters that are stored, or zeros.
pub open spec fn counters_or_zero(counters: Option<Counters>) -> Counters {
    match counters {
        Some(counters) => counters,
        None => Counters { pts: 0, qts: 0, date: 0, seq: 0 },
    }
}

impl SessionView {
    /// What a change of the state does: all of it is replaced, or some counters, or one channel.
    /// Counters that were never set count as zero.
    pub open spec fn updated(self, update: UpdateState) -> SessionView {
        let counters = counters_or_zero(self.counters);
        match update {
            UpdateState::All(state) => SessionView {
                counters: Some(
                    Counters {
                        pts: state.pts,
                        qts: state.qts,
                        date: state.date,
                        seq: state.seq,
                    },
                ),
                channels: channel_map(state.channels@),
                ..self
            },
            UpdateState::Primary { pts, date, seq } => SessionView {
                counters: Some(Counters { pts, date, seq, ..counters }),
                ..self
            },
            UpdateState::Secondary { qts } => SessionView {
                counters: Some(Counters { qts, ..counters }),
                ..self
            },
            UpdateState::Channel { id, pts } => SessionView {
                channels: self.channels.insert(id, pts),
                ..self
            },
        }
    }

    /// Whether a key is that of the logged-in user.
    pub open spec fn is_self_key(self, key: i64) -> bool {
        &&& self.peers.dom().contains(key)
        &&& self.peers[key].subtype is Some
        &&& self.peers[key].subtype->0 & USER_SELF != 0
    }

    /// What is known of a peer. Whoever is logged in is the user with the lowest number that is
    /// marked so.
    pub open spec fn knows(self, peer: PeerId, info: Option<PeerInfo>) -> bool {
        match peer.dialog() {
            Some(key) => info == if self.peers.dom().contains(key) {
                Some(decoded(peer, self.peers[key], key))
            } else {
                None
            },
            None => match info {
                Some(known) => exists|key: i64| #[trigger]
                    self.is_self_key(key) && (forall|other: i64| #[trigger]
                        self.is_self_key(other) ==> key <= other) && known == decoded(
                        peer,
                        self.peers[key],
                        key,
                    ),
                None => forall|key: i64| !#[trigger] self.is_self_key(key),
            },
        }
    }

    /// What always holds: only users are marked as logged in.
    pub open spec fn sound(self) -> bool {
        forall|key: i64| #[trigger] self.is_self_key(key) ==> is_user_id(key)
    }
}

/// The data centers after those of a list were recorded one by one.
pub open spec fn with_options(
    options: Map<i64, DcOption>,
    list: Seq<DcOption>,
) -> Map<i64, DcOption>
    decreases list.len(),
{
    if list.len() == 0 {
        options
    } else {
        with_options(options, list.drop_last()).insert(list.last().id as i64, list.last())
    }
}

/// The place of the first data center from `from` on whose key has a wrong length.
pub open spec fn first_bad_key(list: Seq<DcOption>, from: int) -> int
    decreases list.len() - from,
{
    if from < list.len() && (list[from].auth_key is None || list[from].auth_key->0@.len()
        == AUTH_KEY_LEN) {
        first_bad_key(list, from + 1)
    } else {
        from
    }
}

/// A login session.
pub struct FileSession {
    home_dc: i32,
    dc_options: NumTable<DcOption>,
    peers: NumTable<PeerRow>,
    counters: Option<Counters>,
    channels: NumTable<i32>,
}

impl View for FileSession {
    type V = SessionView;

    closed spec fn view(&self) -> SessionView {
        SessionView {
            home_dc: self.home_dc,
            dc_options: self.dc_options@,
            peers: self.peers@,
            counters: self.counters,
            channels: self.channels@,
        }
    }
}

/// A row that holds no mark of the logged-in user marks nobody.
proof fn self_mark(info: PeerInfo)
    ensures
        encoded(info).subtype is Some && encoded(info).subtype->0 & USER_SELF != 0
            ==> info is User,
{
    assert(4i64 & 1 == 0 && 8i64 & 1 == 0 && 12i64 & 1 == 0) by (bit_vector);
}

impl FileSession {
    /// The invariant of a session.
    pub closed spec fn wf(&self) -> bool {
        &&& self.dc_options.wf()
        &&& self.peers.wf()
        &&& self.channels.wf()
        &&& self@.sound()
    }

    /// A session that knows nothing but its home.
    pub fn new(home_dc: i32) -> (r: Self)
        ensures
            r.wf(),
            r@ == (SessionView {
                home_dc,
                dc_options: Map::empty(),
                peers: Map::empty(),
                counters: None,
                channels: Map::empty(),
            }),
    {
        FileSession {
            home_dc,
            dc_options: NumTable::new(),
            peers: NumTable::new(),
            counters: None,
            channels: NumTable::new(),
        }
    }

    /// Opens a session: its home, if one is stored, and the stored data centers in place of those
    /// that are known by default. The first stored key of a wrong length is refused.
    pub fn open(
        default_home: i32,
        stored_home: Option<i32>,
        defaults: Vec<DcOption>,
        stored: Vec<DcOption>,
    ) -> (r: Result<Self, FileSessionError>)
        ensures
            ({
                let bad = first_bad_key(stored@, 0);
                if bad < stored@.len() {
                    &&& r is Err
                    &&& r->Err_0 == FileSessionError::InvalidAuthKeyLength(
                        stored@[bad].auth_key->0@.len() as usize,
                    )
                } else {
                    &&& r is Ok
                    &&& r->Ok_0.wf()
                    &&& r->Ok_0@ == (SessionView {
                        home_dc: match stored_home {
                            Some(home) => home,
                            None => default_home,
                        },
                        dc_options: with_options(
                            with_options(Map::empty(), defaults@),
                            stored@,
                        ),
                        peers: Map::empty(),
                        counters: None,
                        channels: Map::empty(),
                    })
                }
            }),
    {
        let home: i32 = match stored_home {
            Some(home) => home,
            None => default_home,
        };
        let mut session = FileSession::new(home);
        let ghost base = session@;
        let ghost known = defaults@;
        let mut left = defaults;
        let ghost mut taken: int = 0;
        assert(known.subrange(0, 0) =~= Seq::<DcOption>::empty());
        assert(known.subrange(0, known.len() as int) =~= known);
        while left.len() > 0
            invariant
                session.wf(),
                0 <= taken <= known.len(),
                left@ == known.subrange(taken, known.len() as int),
                session@ == (SessionView {
                    dc_options: with_options(Map::empty(), known.subrange(0, taken)),
                    ..base
                }),
            decreases left@.len(),
        {
            let option = left.remove(0);
            session.set_dc_option(option);
            proof {
                let next = known.subrange(0, taken + 1);
                assert(next.drop_last() =~= known.subrange(0, taken));
                assert(left@ =~= known.subrange(taken + 1, known.len() as int));
                taken = taken + 1;
            }
        }
        assert(known.subrange(0, taken) =~= known);
        let ghost start = session@;
        let ghost rows = stored@;
        let mut rest = stored;
        let ghost mut done: int = 0;
        assert(rows.subrange(0, 0) =~= Seq::<DcOption>::empty());
        assert(rows.subrange(0, rows.len() as int) =~= rows);
        while rest.len() > 0
            invariant
                session.wf(),
                rows == stored@,
                0 <= done <= rows.len(),
                rest@ == rows.subrange(done, rows.len() as int),
                first_bad_key(rows, 0) == first_bad_key(rows, done),
                session@ == (SessionView {
                    dc_options: with_options(start.dc_options, rows.subrange(0, done)),
                    ..start
                }),
            decreases rest@.len(),
        {
            let option = rest.remove(0);
            assert(option == rows[done]);
            match session.load_dc_option(option) {
                Ok(()) => {},
                Err(error) => {
                    return Err(error);
                },
            }
            proof {
                let next = rows.subrange(0, done + 1);
                assert(next.drop_last() =~= rows.subrange(0, done));
                assert(rest@ =~= rows.subrange(done + 1, rows.len() as int));
                done = done + 1;
            }
        }
        assert(rows.subrange(0, done) =~= rows);
        Ok(session)
    }

    /// The home data center.
    pub fn home_dc_id(&self) -> (r: i32)
        ensures
            r == self@.home_dc,
    {
        self.home_dc
    }

    /// Moves the home.
    pub fn set_home_dc_id(&mut self, dc_id: i32)
        requires
            old(self).wf(),
        ensures
            final(self).wf(),
            final(self)@ == (SessionView { home_dc: dc_id, ..old(self)@ }),
    {
        self.home_dc = dc_id;
        assert(self@.sound()) by {
            assert forall|key: i64| #[trigger] self@.is_self_key(key) implies is_user_id(key) by {
                assert(old(self)@.is_self_key(key));
            }
        }
    }

    /// A data center, if it is known.
    pub fn dc_option(&self, dc_id: i32) -> (r: Option<&DcOption>)
        requires
            self.wf(),
        ensures
            match r {
                Some(option) => self@.dc_options.dom().contains(dc_id as i64) && *option
                    == self@.dc_options[dc_id as i64],
                None => !self@.dc_options.dom().contains(dc_id as i64),
            },
    {
        self.dc_options.get(dc_id as i64)
    }

    /// Records a data center, in place of what was known of it.
    pub fn set_dc_option(&mut self, option: DcOption)
        requires
            old(self).wf(),
        ensures
            final(self).wf(),
            final(self)@ == (SessionView {
                dc_options: old(self)@.dc_options.insert(option.id as i64, option),
                ..old(self)@
            }),
    {
        let id: i64 = option.id as i64;
        self.dc_options.put(id, option);
        assert(self@.sound()) by {
            assert forall|key: i64| #[trigger] self@.is_self_key(key) implies is_user_id(key) by {
                assert(old(self)@.is_self_key(key));
            }
        }
    }

    /// Takes a stored data center, whose key must have the right length.
    pub fn load_dc_option(&mut self, option: DcOption) -> (r: Result<(), FileSessionError>)
        requires
            old(self).wf(),
        ensures
            final(self).wf(),
            match option.auth_key {
                Some(key) if key@.len() != AUTH_KEY_LEN => {
                    &&& r == Err::<(), FileSessionError>(
                        FileSessionError::InvalidAuthKeyLength(key@.len() as usize),
                    )
                    &&& final(self)@ == old(self)@
                },
                _ => {
                    &&& r is Ok
                    &&& final(self)@ == (SessionView {
                        dc_options: old(self)@.dc_options.insert(option.id as i64, option),
                        ..old(self)@
                    })
                },
            },
    {
        match check_dc_option(&option) {
            Ok(()) => {
                self.set_dc_option(option);
                Ok(())
            },
            Err(error) => Err(error),
        }
    }

    /// Takes a stored row of the peer table.
    pub fn load_peer(&mut self, key: i64, row: PeerRow)
        requires
            old(self).wf(),
            row.subtype is Some && row.subtype->0 & USER_SELF != 0 ==> is_user_id(key),
        ensures
            final(self).wf(),
            final(self)@ == (SessionView {
                peers: old(self)@.peers.insert(key, row),
                ..old(self)@
            }),
    {
        self.peers.put(key, row);
        assert(self@.sound()) by {
            assert forall|k: i64| #[trigger] self@.is_self_key(k) implies is_user_id(k) by {
                if k != key {
                    assert(old(self)@.is_self_key(k));
                }
            }
        }
    }

    /// The row of whoever is logged in.
    fn self_row(&self) -> (r: Option<(i64, PeerRow)>)
        requires
            self.wf(),
        ensures
            match r {
                Some((key, row)) => self@.is_self_key(key) && row == self@.peers[key] && (forall|
                    other: i64,
                | #[trigger]
                    self@.is_self_key(other) ==> key <= other),
                None => forall|key: i64| !#[trigger] self@.is_self_key(key),
            },
    {
        let ghost keys = self.peers.keys();
        proof {
            self.peers.keys_ascend();
        }
        let mut i: usize = 0;
        while i < self.peers.len()
            invariant
                self.wf(),
                keys == self.peers.keys(),
                i <= keys.len(),
                forall|j: int| 0 <= j < i ==> !self@.is_self_key(#[trigger] keys[j]),
            decreases keys.len() - i,
        {
            let row = self.peers.at(i);
            let key: i64 = self.peers.key_at(i);
            proof {
                self.peers.keys_ascend();
                assert(keys.contains(keys[i as int]));
            }
            let marked: bool = match row.subtype {
                Some(value) => value & USER_SELF != 0,
                None => false,
            };
            if marked {
                assert forall|other: i64| #[trigger] self@.is_self_key(other) implies key
                    <= other by {
                    assert(keys.contains(other));
                    let j = choose|j: int| 0 <= j < keys.len() && keys[j] == other;
                    if j < i {
                        assert(!self@.is_self_key(keys[j]));
                    } else if j > i {
                        assert(keys[i as int] < keys[j]);
                    }
                }
                return Some((key, *row));
            }
            i += 1;
        }
        assert forall|key: i64| !#[trigger] self@.is_self_key(key) by {
            if self@.is_self_key(key) {
                self.peers.keys_ascend();
                assert(keys.contains(key));
                let j = choose|j: int| 0 <= j < keys.len() && keys[j] == key;
                assert(!self@.is_self_key(keys[j]));
            }
        }
        None
    }

    /// What is known of a peer.
    pub fn peer(&self, peer: PeerId) -> (r: Option<PeerInfo>)
        requires
            self.wf(),
            peer.dialog() is Some || peer == PeerId::SelfUser,
        ensures
            self@.knows(peer, r),
    {
        match peer.dialog_id() {
            Some(key) => match self.peers.get(key) {
                Some(row) => Some(decode_peer(peer, row, key)),
                None => None,
            },
            None => match self.self_row() {
                Some((key, row)) => {
                    let r = Some(decode_peer(peer, &row, key));
                    assert(self@.is_self_key(key));
                    r
                },
                None => None,
            },
        }
    }

    /// Records what is known of a peer. What was known before stays; gaps are filled.
    pub fn cache_peer(&mut self, info: &PeerInfo)
        requires
            old(self).wf(),
            info.peer().dialog() is Some,
        ensures
            final(self).wf(),
            ({
                let key = info.peer().dialog()->0;
                let merged = if old(self)@.peers.dom().contains(key) {
                    decoded(info.peer(), old(self)@.peers[key], key).extended(*info)
                } else {
                    *info
                };
                &&& final(self)@ == (SessionView {
                    peers: old(self)@.peers.insert(key, encoded(merged)),
                    ..old(self)@
                })
                &&& merged.peer() == info.peer()
                &&& final(self)@.knows(info.peer(), Some(settled(merged)))
            }),
    {
        let peer = info.id();
        let mut merged = match self.peer(peer) {
            Some(known) => known,
            None => *info,
        };
        let ghost first = merged;
        let _ = merged.extend_info(info);
        if let Some(key) = peer.dialog_id() {
            let row = encode_peer(&merged);
            self.peers.put(key, row);
            proof {
                self_mark(merged);
                peer_reads_back(merged, key);
                assert(self@.sound()) by {
                    assert forall|k: i64| #[trigger] self@.is_self_key(k) implies is_user_id(
                        k,
                    ) by {
                        if k != key {
                            assert(old(self)@.is_self_key(k));
                        }
                    }
                }
            }
        }
    }

    /// The state of all updates. Counters that were never set are zero; the channels come in
    /// ascending order.
    pub fn updates_state(&self) -> (r: UpdatesState)
        requires
            self.wf(),
        ensures
            ({
                let counters = counters_or_zero(self@.counters);
                &&& r.pts == counters.pts
                &&& r.qts == counters.qts
                &&& r.date == counters.date
                &&& r.seq == counters.seq
            }),
            forall|i: int, j: int|
                #![trigger r.channels@[i], r.channels@[j]]
                0 <= i < j < r.channels@.len() ==> r.channels@[i].id < r.channels@[j].id,
            forall|i: int|
                0 <= i < r.channels@.len() ==> self@.channels.dom().contains(
                    (#[trigger] r.channels@[i]).id,
                ) && r.channels@[i].pts == self@.channels[r.channels@[i].id],
            forall|id: i64| #[trigger]
                self@.channels.dom().contains(id) ==> exists|i: int|
                    0 <= i < r.channels@.len() && (#[trigger] r.channels@[i]).id == id,
    {
        let counters = match self.counters {
            Some(counters) => counters,
            None => Counters { pts: 0, qts: 0, date: 0, seq: 0 },
        };
        let ghost keys = self.channels.keys();
        proof {
            self.channels.keys_ascend();
        }
        let mut channels: Vec<ChannelState> = Vec::new();
        let mut i: usize = 0;
        while i < self.channels.len()
            invariant
                self.wf(),
                keys == self.channels.keys(),
                i <= keys.len(),
                channels@.len() == i,
                forall|j: int|
                    0 <= j < i ==> (#[trigger] channels@[j]).id == keys[j] && channels@[j].pts
                        == self@.channels[keys[j]],
            decreases keys.len() - i,
        {
            channels.push(
                ChannelState { id: self.channels.key_at(i), pts: *self.channels.at(i) },
            );
            i += 1;
        }
        let r = UpdatesState {
            pts: counters.pts,
            qts: counters.qts,
            date: counters.date,
            seq: counters.seq,
            channels,
        };
        proof {
            let list = r.channels@;
            assert forall|j: int| 0 <= j < list.len() implies self@.channels.dom().contains(
                (#[trigger] list[j]).id,
            ) by {
                assert(keys.contains(keys[j]));
            }
            assert forall|a: int, b: int|
                #![trigger list[a], list[b]]
                0 <= a < b < list.len() implies list[a].id < list[b].id by {
                assert(keys[a] < keys[b]);
            }
            assert forall|id: i64| #[trigger] self@.channels.dom().contains(id) implies exists|
                k: int,
            |
                0 <= k < list.len() && (#[trigger] list[k]).id == id by {
                assert(self.channels@.dom().contains(id));
                assert(keys.contains(id));
                let j = choose|j: int| 0 <= j < keys.len() && keys[j] == id;
                assert(list[j].id == id);
            }
        }
        r
    }

    /// Changes the state of updates. Nothing changes if a whole state names a channel twice.
    pub fn set_update_state(&mut self, update: UpdateState) -> (r: Result<(), FileSessionError>)
        requires
            old(self).wf(),
        ensures
            final(self).wf(),
            match update {
                UpdateState::All(state) => if distinct_channels(state.channels@) {
                    r is Ok && final(self)@ == old(self)@.updated(update)
                } else {
                    &&& r is Err
                    &&& r->Err_0 is DuplicateChannel
                    &&& first_repeat(state.channels@, r->Err_0->DuplicateChannel_0)
                    &&& final(self)@ == old(self)@
                },
                _ => r is Ok && final(self)@ == old(self)@.updated(update),
            },
    {
        let current = match self.counters {
            Some(counters) => counters,
            None => Counters { pts: 0, qts: 0, date: 0, seq: 0 },
        };
        match update {
            UpdateState::All(state) => {
                let mut channels: NumTable<i32> = NumTable::new();
                let ghost list = state.channels@;
                let mut i: usize = 0;
                assert(list.subrange(0, 0) =~= Seq::<ChannelState>::empty());
                while i < state.channels.len()
                    invariant
                        *self == *old(self),
                        old(self).wf(),
                        update is All,
                        update->All_0.channels@ == list,
                        channels.wf(),
                        i <= list.len(),
                        list == state.channels@,
                        channels@ == channel_map(list.subrange(0, i as int)),
                        forall|id: i64| #[trigger]
                            channels@.dom().contains(id) <==> exists|j: int|
                                0 <= j < i && (#[trigger] list[j]).id == id,
                        distinct_channels(list.subrange(0, i as int)),
                    decreases list.len() - i,
                {
                    let channel = state.channels[i];
                    let ghost before = channels@;
                    if channels.get(channel.id).is_some() {
                        proof {
                            let j = choose|j: int| 0 <= j < i && (#[trigger] list[j]).id
                                == channel.id;
                            assert(list[j].id == list[i as int].id);
                            assert(!distinct_channels(list));
                            let upto = list.subrange(0, i + 1);
                            assert(upto[j].id == upto[i as int].id);
                            assert(!distinct_channels(upto));
                            assert(first_repeat(list, channel.id));
                        }
                        return Err(FileSessionError::DuplicateChannel(channel.id));
                    }
                    channels.put(channel.id, channel.pts);
                    proof {
                        let next = list.subrange(0, i + 1);
                        let front = list.subrange(0, i as int);
                        assert(next.drop_last() =~= front);
                        assert forall|id: i64| #[trigger]
                            channels@.dom().contains(id) <==> exists|j: int|
                                0 <= j < i + 1 && (#[trigger] list[j]).id == id by {
                            if before.dom().contains(id) {
                                let j = choose|j: int| 0 <= j < i && (#[trigger] list[j]).id == id;
                                assert(list[j].id == id);
                            }
                            assert(list[i as int].id == channel.id);
                        }
                        assert forall|a: int, b: int|
                            #![trigger next[a], next[b]]
                            0 <= a < b < next.len() implies next[a].id != next[b].id by {
                            if b < i {
                                assert(front[a].id != front[b].id);
                            } else {
                                assert(list[a].id == next[a].id);
                                assert(before.dom().contains(list[a].id));
                            }
                        }
                    }
                    i += 1;
                }
                proof {
                    assert(list.subrange(0, i as int) =~= list);
                }
                self.counters = Some(
                    Counters { pts: state.pts, qts: state.qts, date: state.date, seq: state.seq },
                );
                self.channels = channels;
            },
            UpdateState::Primary { pts, date, seq } => {
                self.counters = Some(Counters { pts, date, seq, ..current });
            },
            UpdateState::Secondary { qts } => {
                self.counters = Some(Counters { qts, ..current });
            },
            UpdateState::Channel { id, pts } => {
                self.channels.put(id, pts);
            },
        }
        assert(self@.sound()) by {
            assert forall|key: i64| #[trigger] self@.is_self_key(key) implies is_user_id(key) by {
                assert(old(self)@.is_self_key(key));
            }
        }
        Ok(())
    }
}

/// What is learned of a peer never replaces what is known of it, fills in what is not, and concerns
/// no other peer.
pub proof fn knowledge_of_a_peer_only_grows(known: PeerInfo, news: PeerInfo)
    ensures
        known.extended(news).peer() == known.peer(),
        known.peer() != news.peer() ==> known.extended(news) == known,
        known.peer() == news.peer() && known is User ==> {
            let after = known.extended(news);
            &&& after->User_auth == if known->User_auth is Some {
                known->User_auth
            } else {
                news->User_auth
            }
            &&& after->User_bot == if known->User_bot is Some {
                known->User_bot
            } else {
                news->User_bot
            }
            &&& after->User_is_self == if known->User_is_self is Some {
                known->User_is_self
            } else {
                news->User_is_self
            }
        },
        known.peer() == news.peer() && known is Channel ==> {
            let after = known.extended(news);
            &&& after->Channel_auth == if known->Channel_auth is Some {
                known->Channel_auth
            } else {
                news->Channel_auth
            }
            &&& after->Channel_kind == if known->Channel_kind is Some {
                known->Channel_kind
            } else {
                news->Channel_kind
            }
        },
        known.extended(known) == known,
{
}

/// An update of the state changes its part of it alone: the message counters, the secondary counter
/// or one channel; only a full state replaces all of them. Peers and data centers stay.
pub proof fn updates_change_their_part_alone(view: SessionView, update: UpdateState)
    ensures
        ({
            let after = view.updated(update);
            let before = counters_or_zero(view.counters);
            &&& after.peers == view.peers && after.dc_options == view.dc_options && after.home_dc
                == view.home_dc
            &&& update is Primary ==> after.counters is Some && after.channels == view.channels
                && after.counters->0.pts == update->Primary_pts && after.counters->0.date
                == update->Primary_date && after.counters->0.seq == update->Primary_seq
                && after.counters->0.qts == before.qts
            &&& update is Secondary ==> after.counters is Some && after.channels == view.channels
                && after.counters->0.qts == update->Secondary_qts && after.counters->0.pts
                == before.pts && after.counters->0.date == before.date && after.counters->0.seq
                == before.seq
            &&& update is Channel ==> after.counters == view.counters
                && after.channels.dom().contains(update->Channel_id)
                && after.channels[update->Channel_id] == update->Channel_pts
            &&& update is Channel ==> forall|id: i64|
                id != update->Channel_id ==> #[trigger] after.channels.dom().contains(id)
                    == view.channels.dom().contains(id) && (view.channels.dom().contains(id)
                    ==> after.channels[id] == view.channels[id])
            &&& update is All ==> after.counters is Some && after.counters->0.pts
                == update->All_0.pts && after.counters->0.qts == update->All_0.qts
                && after.counters->0.date == update->All_0.date && after.counters->0.seq
                == update->All_0.seq
        }),
        counters_or_zero(None).pts == 0 && counters_or_zero(None).qts == 0 && counters_or_zero(
            None,
        ).date == 0 && counters_or_zero(None).seq == 0,
        view.counters is Some ==> counters_or_zero(view.counters) == view.counters->0,
{
}

/// A peer is kept under the number by which dialogs are known: a user's own, a chat's negated, and
/// a channel's behind minus a million millions.
pub proof fn peers_are_kept_by_dialog(id: i64)
    ensures
        PeerId::User(id).dialog() is Some <==> 1 <= id <= 0xff_ffff_ffff,
        PeerId::User(id).dialog() is Some ==> PeerId::User(id).dialog()->0 == id,
        PeerId::Chat(id).dialog() is Some <==> 1 <= id <= 999_999_999_999,
        PeerId::Chat(id).dialog() is Some ==> PeerId::Chat(id).dialog()->0 == -id,
        PeerId::Channel(id).dialog() is Some ==> PeerId::Channel(id).dialog()->0
            == -1_000_000_000_000 - id,
        PeerId::SelfUser.dialog() is None,
{
}

/// Of data centers that are set one after the other, the last with a number counts; the others
/// stay.
pub proof fn last_option_counts(
    options: Map<i64, DcOption>,
    list: Seq<DcOption>,
    id: i64,
    i: int,
)
    requires
        -1 <= i < list.len(),
        i >= 0 ==> list[i].id == id,
        forall|j: int| i < j < list.len() ==> (#[trigger] list[j]).id != id,
    ensures
        i >= 0 ==> with_options(options, list).dom().contains(id) && with_options(
            options,
            list,
        )[id] == list[i],
        i < 0 ==> with_options(options, list).dom().contains(id) == options.dom().contains(id),
        i < 0 && options.dom().contains(id) ==> with_options(options, list)[id] == options[id],
    decreases list.len(),
{
    if list.len() > 0 && i < list.len() - 1 {
        let front = list.drop_last();
        assert(list[list.len() - 1].id != id);
        assert forall|j: int| i < j < front.len() implies (#[trigger] front[j]).id != id by {
            assert(front[j] == list[j]);
        }
        last_option_counts(options, front, id, i);
    }
}

/// The first stored key of a wrong length is the first whose length is not 256.
pub proof fn first_bad_key_is_first(list: Seq<DcOption>, from: int)
    requires
        0 <= from <= list.len(),
    ensures
        from <= first_bad_key(list, from) <= list.len(),
        forall|i: int|
            from <= i < first_bad_key(list, from) ==> (#[trigger] list[i]).auth_key is None
                || list[i].auth_key->0@.len() == 256,
        first_bad_key(list, from) < list.len() ==> list[first_bad_key(list, from)].auth_key is Some
            && list[first_bad_key(list, from)].auth_key->0@.len() != 256,
    decreases list.len() - from,
{
    if from < list.len() && (list[from].auth_key is None || list[from].auth_key->0@.len() == 256) {
        first_bad_key_is_first(list, from + 1);
    }
}

/// A row marks the logged-in user just if it is that of a user who is known to be them.
pub proof fn the_logged_in_user_is_marked(view: SessionView, info: PeerInfo, key: i64)
    requires
        view.peers.dom().contains(key),
        view.peers[key] == encoded(info),
    ensures
        view.is_self_key(key) <==> (info matches PeerInfo::User { is_self, .. } && is_self == Some(
            true,
        )),
{
    assert(0i64 & 1 == 0 && 1i64 & 1 == 1 && 2i64 & 1 == 0 && 3i64 & 1 == 1) by (bit_vector);
    assert(4i64 & 1 == 0 && 8i64 & 1 == 0 && 12i64 & 1 == 0) by (bit_vector);
}

/// What is known of a peer is what its row was made of; where there is no row nothing is known.
pub proof fn peers_are_known_from_their_rows(view: SessionView, info: PeerInfo, key: i64)
    requires
        info.peer().dialog() == Some(key),
    ensures
        view.peers.dom().contains(key) && view.peers[key] == encoded(info) ==> forall|
            known: Option<PeerInfo>,
        | #[trigger] view.knows(info.peer(), known) <==> known == Some(settled(info)),
        !view.peers.dom().contains(key) ==> forall|known: Option<PeerInfo>| #[trigger]
            view.knows(info.peer(), known) <==> known is None,
{
    peer_reads_back(info, key);
}

/// Who is logged in is known just if some row is marked so, and then from the marked row with the
/// lowest number.
pub proof fn the_lowest_marked_user_is_logged_in(
    view: SessionView,
    known: Option<PeerInfo>,
    key: i64,
)
    requires
        view.knows(PeerId::SelfUser, known),
        view.is_self_key(key),
    ensures
        known matches Some(PeerInfo::User { id, is_self, .. }) && id <= key && view.is_self_key(id)
            && is_self == Some(true) && known == Some(decoded_user(id, view.peers[id])),
{
    if known is None {
        assert(!view.is_self_key(key));
    } else {
        let lowest = choose|k: i64| #[trigger]
            view.is_self_key(k) && (forall|other: i64| #[trigger]
                view.is_self_key(other) ==> k <= other) && known->0 == decoded(
                PeerId::SelfUser,
                view.peers[k],
                k,
            );
        assert(view.is_self_key(lowest) && lowest <= key);
    }
}

/// A list is refused for the first channel that it names again, and for none where it names no
/// channel twice.
pub proof fn repeats_are_found(list: Seq<ChannelState>, id: i64)
    ensures
        first_repeat(list, id) ==> exists|a: int, b: int|
            {
                &&& 0 <= a < b < list.len()
                &&& (#[trigger] list[a]).id == id
                &&& (#[trigger] list[b]).id == id
                &&& distinct_channels(list.subrange(0, b))
            },
        (forall|a: int, b: int|
            #![trigger list[a], list[b]]
            0 <= a < b < list.len() ==> list[a].id != list[b].id) ==> !first_repeat(list, id),
{
    if first_repeat(list, id) {
        let j = choose|j: int|
            {
                &&& 0 <= j < list.len()
                &&& (#[trigger] list[j]).id == id
                &&& distinct_channels(list.subrange(0, j))
                &&& !distinct_channels(list.subrange(0, j + 1))
            };
        let front = list.subrange(0, j);
        let more = list.subrange(0, j + 1);
        let (a, b) = choose|a: int, b: int|
            #![trigger more[a], more[b]]
            0 <= a < b < more.len() && more[a].id == more[b].id;
        assert(more[a] == list[a] && more[b] == list[b]);
        if b < j {
            assert(front[a] == list[a] && front[b] == list[b]);
        }
        assert(b == j);
    }
}

} // verus!
