//! The storage channel: how requests are retried, how channels are found, and what captions say.
use vstd::prelude::*;
use crate::config::RepoConfig;
use crate::session::PeerId;
use crate::snapshot::{caption, caption_text, caption_version, parse_caption};
use crate::text::{text_eq, text_starts_with};
use crate::uploader::{backoff, backoff_seconds, flood_wait, RpcFailure};

pub use crate::snapshot::RemoteIndexInfo;
pub use crate::telegram_transfer::{total_parts, PartSource, BIG_FILE_THRESHOLD, PART_SIZE};

verus! {

/// Why a request failed.
#[derive(Debug, Clone, Copy, PartialEq, Eq, Structural)]
pub enum RequestFailure {
    /// The server reported an error.
    Rpc(RpcFailure),
    /// The connection failed.
    Io,
    /// Something else.
    Other,
}

/// How often a failed request is tried again.
pub const MAX_RETRIES: u32 = 5;

/// Longest wait, in seconds, that the server may ask for.
pub const MAX_WAIT: u64 = 1800;

/// How requests are retried in unattended backups: waits that the server asks for are slept out,
/// up to half an hour; broken connections are retried a few times, later each time.
#[derive(Debug, Clone, Copy, PartialEq, Eq, Structural)]
pub struct BackupRetry;

/// Seconds after which a request that has failed `fail_count` times is tried again, if it is.
pub open spec fn retry_after(failure: RequestFailure, fail_count: u32) -> Option<int> {
    match failure {
        RequestFailure::Rpc(rpc) => {
            let wait = match rpc.value {
                Some(seconds) => seconds as int,
                None => 1,
            };
            if rpc.code == 420 && fail_count <= MAX_RETRIES && wait <= MAX_WAIT {
                Some(wait + 1)
            } else {
                None
            }
        },
        RequestFailure::Io => if fail_count <= MAX_RETRIES {
            Some(backoff_seconds(fail_count) as int)
        } else {
            None
        },
        RequestFailure::Other => None,
    }
}

impl BackupRetry {
    /// Seconds after which a request that has failed `fail_count` times is tried again, if it is.
    pub fn should_retry(&self, failure: &RequestFailure, fail_count: u32) -> (r: Option<u64>)
        ensures
            match retry_after(*failure, fail_count) {
                Some(seconds) => r == Some(seconds as u64) && seconds <= MAX_WAIT + 1,
                None => r is None,
            },
    {
        match failure {
            RequestFailure::Rpc(rpc) => match flood_wait(rpc) {
                Some(wait) => {
                    if fail_count <= MAX_RETRIES && wait <= MAX_WAIT {
                        Some(wait + 1)
                    } else {
                        None
                    }
                },
                None => None,
            },
            RequestFailure::Io => {
                if fail_count <= MAX_RETRIES {
                    Some(backoff(fail_count))
                } else {
                    None
                }
            },
            RequestFailure::Other => None,
        }
    }
}

/// A channel of the account.
#[derive(Debug)]
pub struct ChannelInfo {
    pub id: i64,
    pub access_hash: i64,
    pub title: String,
}

impl Clone for ChannelInfo {
    fn clone(&self) -> (r: Self)
        ensures
            r == *self,
    {
        ChannelInfo { id: self.id, access_hash: self.access_hash, title: self.title.clone() }
    }
}

/// Those of some channels whose title begins with a prefix, in order.
pub open spec fn titled(channels: Seq<ChannelInfo>, prefix: Seq<char>) -> Seq<ChannelInfo>
    decreases channels.len(),
{
    if channels.len() == 0 {
        Seq::empty()
    } else {
        let front = titled(channels.drop_last(), prefix);
        if prefix.is_prefix_of(channels.last().title@) {
            front.push(channels.last())
        } else {
            front
        }
    }
}

/// Picks the channels whose title begins with a prefix.
pub fn list_channels(channels: &Vec<ChannelInfo>, prefix: &str) -> (r: Vec<ChannelInfo>)
    ensures
        r@ == titled(channels@, prefix@),
{
    let mut found: Vec<ChannelInfo> = Vec::new();
    let mut i: usize = 0;
    assert(channels@.subrange(0, 0) =~= Seq::<ChannelInfo>::empty());
    while i < channels.len()
        invariant
            i <= channels@.len(),
            found@ == titled(channels@.subrange(0, i as int), prefix@),
        decreases channels@.len() - i,
    {
        proof {
            let next = channels@.subrange(0, i + 1);
            assert(next.drop_last() =~= channels@.subrange(0, i as int));
        }
        if text_starts_with(channels[i].title.as_str(), prefix) {
            found.push(channels[i].clone());
        }
        i += 1;
    }
    assert(channels@.subrange(0, i as int) =~= channels@);
    found
}

/// Picks the first channel with exactly a title.
pub fn find_channel(channels: &Vec<ChannelInfo>, title: &str) -> (r: Option<ChannelInfo>)
    ensures
        match r {
            Some(found) => exists|i: int|
                0 <= i < channels@.len() && found == #[trigger] channels@[i] && found.title@
                    == title@ && forall|j: int|
                    0 <= j < i ==> (#[trigger] channels@[j]).title@ != title@,
            None => forall|i: int|
                0 <= i < channels@.len() ==> (#[trigger] channels@[i]).title@ != title@,
        },
{
    let mut i: usize = 0;
    while i < channels.len()
        invariant
            i <= channels@.len(),
            forall|j: int| 0 <= j < i ==> (#[trigger] channels@[j]).title@ != title@,
        decreases channels@.len() - i,
    {
        if text_eq(channels[i].title.as_str(), title) {
            let found = channels[i].clone();
            assert(found == channels@[i as int]);
            return Some(found);
        }
        i += 1;
    }
    None
}

/// The address of a channel: its identity, and the hash that grants access.
#[derive(Debug, Clone, Copy, PartialEq, Eq, Structural)]
pub struct ChannelPeer {
    /// The channel in the dialog format.
    pub dialog_id: i64,
    pub access_hash: i64,
}

/// The address of a channel; `None` if its number cannot be that of a channel.
pub fn peer_from(channel_id: i64, access_hash: i64) -> (r: Option<ChannelPeer>)
    ensures
        r == match PeerId::Channel(channel_id).dialog() {
            Some(dialog_id) => Some(ChannelPeer { dialog_id, access_hash }),
            None => None,
        },
{
    match PeerId::Channel(channel_id).dialog_id() {
        Some(dialog_id) => Some(ChannelPeer { dialog_id, access_hash }),
        None => None,
    }
}

/// The address of a repository's storage channel.
pub fn peer(config: &RepoConfig) -> (r: Option<ChannelPeer>)
    ensures
        r == match PeerId::Channel(config.channel_id).dialog() {
            Some(dialog_id) => Some(
                ChannelPeer { dialog_id, access_hash: config.channel_access_hash },
            ),
            None => None,
        },
{
    peer_from(config.channel_id, config.channel_access_hash)
}

/// The caption of a snapshot: `tgfs-index v<N> ...`.
pub fn index_caption(version: u64, files: usize, chunks: usize, created_at: i64) -> (r: String)
    ensures
        r@ == caption_text(version, files, chunks, created_at),
        caption_version(r@) == Some(version),
{
    caption(version, files, chunks, created_at)
}

/// Reads the version out of a caption.
pub fn parse_index_caption(text: &str) -> (r: Option<u64>)
    ensures
        r == caption_version(text@),
{
    parse_caption(text)
}

/// When a request is repeated: just after the server asked for a wait of half an hour at most, or
/// after the connection failed, and not after more than five failures. The pause is then longer
/// than what the server asked for, or doubles from failure to failure.
pub proof fn requests_are_repeated_with_patience(failure: RequestFailure, fail_count: u32)
    ensures
        ({
            let pause = retry_after(failure, fail_count);
            &&& pause is Some ==> fail_count <= 5 && pause->0 >= 1
            &&& failure is Other ==> pause is None
            &&& failure is Io ==> (pause is Some <==> fail_count <= 5)
            &&& failure is Io && pause is Some ==> pause->0 == backoff_seconds(fail_count)
            &&& failure is Rpc ==> {
                let wait = if failure->Rpc_0.value is Some {
                    failure->Rpc_0.value->0 as int
                } else {
                    1
                };
                &&& pause is Some <==> failure->Rpc_0.code == 420 && wait <= 1800 && fail_count
                    <= 5
                &&& pause is Some ==> pause->0 == wait + 1
            }
        }),
{
    reveal_with_fuel(crate::uploader::doubled, 7);
}

/// The channels that are listed are those whose title begins with the prefix, in their order.
pub proof fn listed_channels_have_the_prefix(channels: Seq<ChannelInfo>, prefix: Seq<char>)
    ensures
        titled(channels, prefix) == channels.filter(
            |channel: ChannelInfo|
                prefix.len() <= channel.title@.len() && channel.title@.subrange(
                    0,
                    prefix.len() as int,
                ) == prefix,
        ),
    decreases channels.len(),
{
    reveal(Seq::filter);
    if channels.len() > 0 {
        listed_channels_have_the_prefix(channels.drop_last(), prefix);
        let title = channels.last().title@;
        assert(prefix.is_prefix_of(title) <==> prefix.len() <= title.len() && title.subrange(
            0,
            prefix.len() as int,
        ) == prefix);
    }
}

} // verus!
