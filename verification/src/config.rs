//! Repository settings: account credentials, per-repository options, packing limits, and the
//! places where they are kept.
use vstd::prelude::*;
use crate::crypto::{sealed_len_of, Crypto};
use crate::text::{
    chars_of, decimal, leading_u64, push_decimal, string_of, text_starts_with, two_numbers_are_read,
};

verus! {

/// Name of the directory that marks a repository.
pub const REPO_DIR: &'static str = ".tgfs";

/// Default chunk size: one gibibyte.
pub const DEFAULT_CHUNK_SIZE: u64 = 1_073_741_824;

/// Largest document that the storage channel takes: two gibibytes.
pub const MAX_DOCUMENT_SIZE: u64 = 2_147_483_648;

/// When small files are packed together, and how large packs grow.
#[derive(Debug, Clone, Copy, PartialEq, Eq, Structural)]
pub struct PackConfig {
    /// Files smaller than this are packed. Zero disables packing.
    pub threshold: u64,
    /// Approximate stored size at which a pack is flushed.
    pub target_size: u64,
}

impl Default for PackConfig {
    fn default() -> (r: Self)
        ensures
            r.threshold == 8_388_608,
            r.target_size == 268_435_456,
    {
        PackConfig { threshold: 8_388_608, target_size: 268_435_456 }
    }
}

/// Account credentials of this machine.
#[derive(Debug, Clone)]
pub struct GlobalConfig {
    pub api_id: i32,
    pub api_hash: String,
}

/// Settings of one repository.
#[derive(Debug, Clone)]
pub struct RepoConfig {
    /// Bare id of the storage channel.
    pub channel_id: i64,
    /// Access hash of the storage channel.
    pub channel_access_hash: i64,
    pub chunk_size: u64,
    pub pack: PackConfig,
    /// Whether chunks and index snapshots are encrypted. The key itself is never kept.
    pub encrypted: bool,
    /// Verifier of the encryption key, with which a wrong key is rejected.
    pub key_verifier: Option<String>,
    /// Paths, in the notation of ignore files, that scans leave out.
    pub exclude: Vec<String>,
}

/// Settings as written down, where anything but the channel may be left out.
#[derive(Debug, Clone)]
pub struct RepoSettings {
    pub channel_id: i64,
    pub channel_access_hash: i64,
    pub chunk_size: Option<u64>,
    pub pack_threshold: Option<u64>,
    pub pack_target_size: Option<u64>,
    pub encrypted: Option<bool>,
    pub key_verifier: Option<String>,
    pub exclude: Option<Vec<String>>,
}

/// A repository: the folder that is backed up, and its settings.
#[derive(Debug, Clone)]
pub struct Repo {
    pub root: String,
    pub config: RepoConfig,
}

/// What is wrong with a repository or its settings.
#[derive(Debug, Clone, PartialEq, Eq)]
pub enum ConfigError {
    ThresholdOverChunkSize { threshold: u64, chunk_size: u64 },
    ThresholdOverTargetSize { threshold: u64, target_size: u64 },
    TargetSizeOverCap { target_size: u64 },
    SealedTargetSizeOverCap { sealed: u64 },
    /// No ancestor of the start directory holds a repository.
    NotARepo { start: String },
    /// The filesystem root has no folder name.
    FilesystemRoot,
    /// The platform names no configuration directory.
    NoConfigDir,
    /// The platform names no data directory.
    NoDataDir,
}

impl ConfigError {
    /// A sentence for the user.
    pub open spec fn text(self) -> Seq<char> {
        match self {
            ConfigError::ThresholdOverChunkSize { threshold, chunk_size } =>
                "invalid pack config: threshold ("@ + decimal(threshold as nat)
                    + ") exceeds chunk_size ("@ + decimal(chunk_size as nat) + ")"@,
            ConfigError::ThresholdOverTargetSize { threshold, target_size } =>
                "invalid pack config: threshold ("@ + decimal(threshold as nat)
                    + ") exceeds target_size ("@ + decimal(target_size as nat) + ")"@,
            ConfigError::TargetSizeOverCap { target_size } =>
                "invalid pack config: target_size ("@ + decimal(target_size as nat)
                    + ") exceeds Telegram's 2 GiB document cap"@,
            ConfigError::SealedTargetSizeOverCap { sealed } =>
                "invalid pack config: encrypted target_size ("@ + decimal(sealed as nat)
                    + ") exceeds Telegram's 2 GiB document cap"@,
            ConfigError::NotARepo { start } =>
                "not inside a tgfs repo (no .tgfs directory found from "@ + start@
                    + " upward) — run `tgfs init` in the folder you want to back up"@,
            ConfigError::FilesystemRoot => "cannot init the filesystem root"@,
            ConfigError::NoConfigDir => "cannot determine config directory"@,
            ConfigError::NoDataDir => "cannot determine data directory"@,
        }
    }

    /// A sentence for the user.
    pub fn message(&self) -> (r: String)
        ensures
            r@ == self.text(),
    {
        let mut s = String::new();
        match self {
            ConfigError::ThresholdOverChunkSize { threshold, chunk_size } => {
                s.append("invalid pack config: threshold (");
                push_decimal(&mut s, *threshold);
                s.append(") exceeds chunk_size (");
                push_decimal(&mut s, *chunk_size);
                s.append(")");
            },
            ConfigError::ThresholdOverTargetSize { threshold, target_size } => {
                s.append("invalid pack config: threshold (");
                push_decimal(&mut s, *threshold);
                s.append(") exceeds target_size (");
                push_decimal(&mut s, *target_size);
                s.append(")");
            },
            ConfigError::TargetSizeOverCap { target_size } => {
                s.append("invalid pack config: target_size (");
                push_decimal(&mut s, *target_size);
                s.append(") exceeds Telegram's 2 GiB document cap");
            },
            ConfigError::SealedTargetSizeOverCap { sealed } => {
                s.append("invalid pack config: encrypted target_size (");
                push_decimal(&mut s, *sealed);
                s.append(") exceeds Telegram's 2 GiB document cap");
            },
            ConfigError::NotARepo { start } => {
                s.append("not inside a tgfs repo (no .tgfs directory found from ");
                s.append(start.as_str());
                s.append(" upward) — run `tgfs init` in the folder you want to back up");
            },
            ConfigError::FilesystemRoot => {
                s.append("cannot init the filesystem root");
            },
            ConfigError::NoConfigDir => {
                s.append("cannot determine config directory");
            },
            ConfigError::NoDataDir => {
                s.append("cannot determine data directory");
            },
        }
        assert(s@ =~= self.text());
        s
    }
}

/// The chunk size of a repository that sets none.
pub fn default_chunk_size() -> (r: u64)
    ensures
        r == DEFAULT_CHUNK_SIZE,
{
    DEFAULT_CHUNK_SIZE
}

/// What a new repository leaves out of scans.
pub fn default_excludes() -> (r: Vec<String>)
    ensures
        r@.map_values(|s: String| s@) == seq![".git/"@, ".DS_Store"@, "Thumbs.db"@],
{
    let r = vec![".git/".to_owned(), ".DS_Store".to_owned(), "Thumbs.db".to_owned()];
    assert(r@.map_values(|s: String| s@) =~= seq![".git/"@, ".DS_Store"@, "Thumbs.db"@]);
    r
}

/// The first thing that is wrong with packing limits, if anything is.
pub open spec fn pack_fault(chunk_size: u64, pack: PackConfig) -> Option<ConfigError> {
    let sealed = sealed_len_of(pack.target_size as int);
    if pack.threshold > chunk_size {
        Some(ConfigError::ThresholdOverChunkSize { threshold: pack.threshold, chunk_size })
    } else if pack.threshold > pack.target_size {
        Some(
            ConfigError::ThresholdOverTargetSize {
                threshold: pack.threshold,
                target_size: pack.target_size,
            },
        )
    } else if pack.target_size > MAX_DOCUMENT_SIZE {
        Some(ConfigError::TargetSizeOverCap { target_size: pack.target_size })
    } else if sealed > MAX_DOCUMENT_SIZE {
        Some(ConfigError::SealedTargetSizeOverCap { sealed: sealed as u64 })
    } else {
        None
    }
}

impl RepoConfig {
    /// Whether the packing limits fit together and fit the channel.
    pub open spec fn valid(&self) -> bool {
        pack_fault(self.chunk_size, self.pack) is None
    }

    /// Checks the packing limits.
    pub fn validate(&self) -> (r: Result<(), ConfigError>)
        ensures
            r == match pack_fault(self.chunk_size, self.pack) {
                Some(fault) => Err::<(), ConfigError>(fault),
                None => Ok::<(), ConfigError>(()),
            },
            r is Ok <==> self.valid(),
            r is Ok ==> self.pack.threshold <= self.chunk_size && self.pack.threshold
                <= self.pack.target_size && sealed_len_of(self.pack.target_size as int)
                <= MAX_DOCUMENT_SIZE,
    {
        if self.pack.threshold > self.chunk_size {
            return Err(
                ConfigError::ThresholdOverChunkSize {
                    threshold: self.pack.threshold,
                    chunk_size: self.chunk_size,
                },
            );
        }
        if self.pack.threshold > self.pack.target_size {
            return Err(
                ConfigError::ThresholdOverTargetSize {
                    threshold: self.pack.threshold,
                    target_size: self.pack.target_size,
                },
            );
        }
        if self.pack.target_size > MAX_DOCUMENT_SIZE {
            return Err(ConfigError::TargetSizeOverCap { target_size: self.pack.target_size });
        }
        let sealed: u64 = Crypto::sealed_len(self.pack.target_size);
        if sealed > MAX_DOCUMENT_SIZE {
            return Err(ConfigError::SealedTargetSizeOverCap { sealed });
        }
        Ok(())
    }
}

impl RepoSettings {
    /// Fills in what was left out.
    pub fn resolve(self) -> (r: RepoConfig)
        ensures
            r.channel_id == self.channel_id,
            r.channel_access_hash == self.channel_access_hash,
            r.chunk_size == self.chunk_size.unwrap_or(DEFAULT_CHUNK_SIZE),
            r.pack.threshold == self.pack_threshold.unwrap_or(8_388_608),
            r.pack.target_size == self.pack_target_size.unwrap_or(268_435_456),
            r.encrypted == self.encrypted.unwrap_or(false),
            r.key_verifier == self.key_verifier,
            match self.exclude {
                Some(list) => r.exclude == list,
                None => r.exclude@.len() == 0,
            },
    {
        let pack = PackConfig::default();
        RepoConfig {
            channel_id: self.channel_id,
            channel_access_hash: self.channel_access_hash,
            chunk_size: self.chunk_size.unwrap_or(default_chunk_size()),
            pack: PackConfig {
                threshold: self.pack_threshold.unwrap_or(pack.threshold),
                target_size: self.pack_target_size.unwrap_or(pack.target_size),
            },
            encrypted: self.encrypted.unwrap_or(false),
            key_verifier: self.key_verifier,
            exclude: match self.exclude {
                Some(list) => list,
                None => Vec::new(),
            },
        }
    }
}

/// A path below a directory: `name` replaces it if absolute, else follows it after a slash.
pub open spec fn joined_path(dir: Seq<char>, name: Seq<char>) -> Seq<char> {
    if name.len() > 0 && name[0] == '/' {
        name
    } else if dir.len() == 0 || dir.last() == '/' {
        dir + name
    } else {
        dir + seq!['/'] + name
    }
}

/// Joins a directory and a name below it.
pub fn join_path(dir: &str, name: &str) -> (r: String)
    ensures
        r@ == joined_path(dir@, name@),
{
    let d = chars_of(dir);
    let n = chars_of(name);
    if n.len() > 0 && n[0] == '/' {
        return name.to_owned();
    }
    let mut r = dir.to_owned();
    if d.len() > 0 && d[d.len() - 1] != '/' {
        r.push('/');
    }
    r.append(name);
    assert(r@ =~= joined_path(dir@, name@));
    r
}

/// A path without trailing slashes and trailing `.` components.
pub open spec fn without_trailing(path: Seq<char>) -> Seq<char>
    decreases path.len(),
{
    if path.len() > 0 && path.last() == '/' {
        without_trailing(path.drop_last())
    } else if path.len() > 1 && path.last() == '.' && path[path.len() - 2] == '/' {
        without_trailing(path.drop_last())
    } else {
        path
    }
}

/// What follows the last slash.
pub open spec fn after_last_slash(path: Seq<char>) -> Seq<char>
    decreases path.len(),
{
    if path.len() == 0 {
        path
    } else if path.last() == '/' {
        Seq::empty()
    } else {
        after_last_slash(path.drop_last()).push(path.last())
    }
}

/// The last component of a path, if it names something.
pub open spec fn folder_name(path: Seq<char>) -> Option<Seq<char>> {
    let name = after_last_slash(without_trailing(path));
    if name.len() == 0 || name == seq!['.'] || name == seq!['.', '.'] {
        None
    } else {
        Some(name)
    }
}

/// Where the account credentials are kept, given the platform's configuration directory.
pub fn global_config_path(config_dir: Option<&str>) -> (r: Result<String, ConfigError>)
    ensures
        match config_dir {
            Some(dir) => r is Ok && r->Ok_0@ == joined_path(dir@, "tgfs/config.toml"@),
            None => r == Err::<String, ConfigError>(ConfigError::NoConfigDir),
        },
{
    match config_dir {
        Some(dir) => Ok(join_path(dir, "tgfs/config.toml")),
        None => Err(ConfigError::NoConfigDir),
    }
}

/// The directory of this program's data, given the platform's data directory.
pub fn data_dir(base: Option<&str>) -> (r: Result<String, ConfigError>)
    ensures
        match base {
            Some(dir) => r is Ok && r->Ok_0@ == joined_path(dir@, "tgfs"@),
            None => r == Err::<String, ConfigError>(ConfigError::NoDataDir),
        },
{
    match base {
        Some(dir) => Ok(join_path(dir, "tgfs")),
        None => Err(ConfigError::NoDataDir),
    }
}

/// Where the login session is kept, given the platform's data directory.
pub fn session_path(base: Option<&str>) -> (r: Result<String, ConfigError>)
    ensures
        match base {
            Some(dir) => r is Ok && r->Ok_0@ == joined_path(
                joined_path(dir@, "tgfs"@),
                "session.db"@,
            ),
            None => r == Err::<String, ConfigError>(ConfigError::NoDataDir),
        },
{
    match data_dir(base) {
        Ok(dir) => Ok(join_path(dir.as_str(), "session.db")),
        Err(error) => Err(error),
    }
}

/// A channel or folder name without the prefix of storage channels.
pub open spec fn without_prefix(name: Seq<char>) -> Seq<char> {
    if "tgfs-"@.is_prefix_of(name) {
        name.subrange(5, name.len() as int)
    } else {
        name
    }
}

/// The title of the channel to clone, and the folder to clone it to unless another is chosen. The
/// channel may be named by its full title or without the prefix of storage channels.
pub fn clone_names(name: &str) -> (r: (String, String))
    ensures
        r.0@ == "tgfs-"@ + without_prefix(name@),
        r.1@ == without_prefix(name@),
{
    proof {
        reveal_strlit("tgfs-");
    }
    let chars = chars_of(name);
    let start: usize = if text_starts_with(name, "tgfs-") { 5 } else { 0 };
    assert(name@.subrange(0, name@.len() as int) =~= name@);
    let folder = string_of(&chars, start, chars.len());
    let mut title = "tgfs-".to_owned();
    title.append(folder.as_str());
    (title, folder)
}

impl Repo {
    /// Picks the repository that the directory `start` belongs to: the nearest of its ancestors,
    /// itself first, that holds the marker directory.
    pub fn discover(start: &str, has_marker: &Vec<bool>) -> (r: Result<usize, ConfigError>)
        ensures
            match r {
                Ok(i) => i < has_marker@.len() && has_marker@[i as int] && forall|j: int|
                    0 <= j < i ==> !has_marker@[j],
                Err(error) => error is NotARepo && error->start@ == start@ && forall|j: int|
                    0 <= j < has_marker@.len() ==> !has_marker@[j],
            },
    {
        let mut i: usize = 0;
        while i < has_marker.len()
            invariant
                i <= has_marker@.len(),
                forall|j: int| 0 <= j < i ==> !has_marker@[j],
            decreases has_marker@.len() - i,
        {
            if has_marker[i] {
                return Ok(i);
            }
            i += 1;
        }
        Err(ConfigError::NotARepo { start: start.to_owned() })
    }

    /// A repository at `root`, if its settings are valid.
    pub fn create(root: String, config: RepoConfig) -> (r: Result<Repo, ConfigError>)
        ensures
            match pack_fault(config.chunk_size, config.pack) {
                Some(fault) => r == Err::<Repo, ConfigError>(fault),
                None => r == Ok::<Repo, ConfigError>(Repo { root, config }),
            },
    {
        match config.validate() {
            Ok(()) => Ok(Repo { root, config }),
            Err(error) => Err(error),
        }
    }

    /// Where the settings are kept.
    pub fn config_path(&self) -> (r: String)
        ensures
            r@ == joined_path(joined_path(self.root@, REPO_DIR@), "config.toml"@),
    {
        join_path(join_path(self.root.as_str(), REPO_DIR).as_str(), "config.toml")
    }

    /// Where the local index is kept.
    pub fn index_path(&self) -> (r: String)
        ensures
            r@ == joined_path(joined_path(self.root@, REPO_DIR@), "index.db"@),
    {
        join_path(join_path(self.root.as_str(), REPO_DIR).as_str(), "index.db")
    }

    /// Channel title of a repository, derived from the folder name.
    pub fn channel_title(root: &str) -> (r: Result<String, ConfigError>)
        ensures
            match folder_name(root@) {
                Some(name) => r is Ok && r->Ok_0@ == "tgfs-"@ + name,
                None => r == Err::<String, ConfigError>(ConfigError::FilesystemRoot),
            },
    {
        let chars = chars_of(root);
        let mut end: usize = chars.len();
        assert(chars@.subrange(0, end as int) =~= root@);
        while end > 0 && (chars[end - 1] == '/' || (end > 1 && chars[end - 1] == '.' && chars[end
            - 2] == '/'))
            invariant
                end <= chars@.len(),
                without_trailing(chars@.subrange(0, end as int)) == without_trailing(root@),
            decreases end,
        {
            assert(chars@.subrange(0, end as int).drop_last() =~= chars@.subrange(0, end - 1));
            end -= 1;
        }
        let ghost path = chars@.subrange(0, end as int);
        assert(without_trailing(path) == path);
        let mut start: usize = end;
        proof {
            assert(path.subrange(0, start as int) =~= path);
            assert(chars@.subrange(start as int, end as int) =~= Seq::<char>::empty());
            assert(after_last_slash(path) + Seq::<char>::empty() =~= after_last_slash(path));
        }
        while start > 0 && chars[start - 1] != '/'
            invariant
                start <= end <= chars@.len(),
                path == chars@.subrange(0, end as int),
                after_last_slash(path.subrange(0, start as int)) + chars@.subrange(
                    start as int,
                    end as int,
                ) == after_last_slash(path),
            decreases start,
        {
            let ghost head = path.subrange(0, start as int);
            proof {
                assert(head.drop_last() =~= path.subrange(0, start - 1));
                assert(head.last() == chars@[start - 1]);
                assert(after_last_slash(head) == after_last_slash(head.drop_last()).push(
                    head.last(),
                ));
                assert(after_last_slash(head.drop_last()).push(head.last()) + chars@.subrange(
                    start as int,
                    end as int,
                ) =~= after_last_slash(head.drop_last()) + chars@.subrange(start - 1, end as int));
            }
            start -= 1;
        }
        let ghost name = chars@.subrange(start as int, end as int);
        proof {
            let head = path.subrange(0, start as int);
            assert(after_last_slash(head) =~= Seq::<char>::empty()) by {
                if start > 0 {
                    assert(head.last() == chars@[start - 1]);
                }
            }
            assert(after_last_slash(path) =~= name);
        }
        let len: usize = end - start;
        let dots: bool = (len == 1 && chars[start] == '.') || (len == 2 && chars[start] == '.'
            && chars[start + 1] == '.');
        proof {
            if len == 1 && name[0] == '.' {
                assert(name =~= seq!['.']);
            }
            if len == 2 && name[0] == '.' && name[1] == '.' {
                assert(name =~= seq!['.', '.']);
            }
            assert(name == seq!['.'] ==> len == 1 && name[0] == '.');
            assert(name == seq!['.', '.'] ==> len == 2 && name[0] == '.' && name[1] == '.');
        }
        if len == 0 || dots {
            return Err(ConfigError::FilesystemRoot);
        }
        let mut title = "tgfs-".to_owned();
        title.append(string_of(&chars, start, end).as_str());
        Ok(title)
    }
}

/// Settings are accepted just if small files fit a chunk and a pack, and a pack fits a document of
/// two gibibytes even when it is sealed, which adds sixteen bytes for each mebibyte that is begun.
pub proof fn accepted_packs_fit_documents(chunk_size: u64, pack: PackConfig, n: int)
    requires
        0 <= n,
        pack.target_size <= n * 1_048_576,
        n > 0 ==> pack.target_size > (n - 1) * 1_048_576,
    ensures
        ({
            let fault = pack_fault(chunk_size, pack);
            &&& fault is None <==> pack.threshold <= chunk_size && pack.threshold
                <= pack.target_size && pack.target_size + 16 * n <= 2 * 1024 * 1024 * 1024
            &&& pack.threshold > chunk_size <==> fault is Some && fault->0 is ThresholdOverChunkSize
            &&& pack.threshold <= chunk_size && pack.threshold > pack.target_size <==> fault is Some
                && fault->0 is ThresholdOverTargetSize
            &&& pack.threshold <= chunk_size && pack.threshold <= pack.target_size
                && pack.target_size > 2 * 1024 * 1024 * 1024 <==> fault is Some && fault->0
                is TargetSizeOverCap
        }),
{
}

/// Joining a name to a directory puts one slash between them where none is yet; a name that begins
/// with a slash stands alone.
pub proof fn paths_are_joined_by_one_slash(dir: Seq<char>, name: Seq<char>)
    ensures
        name.len() > 0 && name[0] == '/' ==> joined_path(dir, name) == name,
        (name.len() == 0 || name[0] != '/') && dir.len() > 0 && dir.last() != '/' ==> joined_path(
            dir,
            name,
        ) == dir.push('/') + name,
        (name.len() == 0 || name[0] != '/') && (dir.len() == 0 || dir.last() == '/')
            ==> joined_path(dir, name) == dir + name,
{
    assert(dir + seq!['/'] + name =~= dir.push('/') + name);
}

/// The name of a folder is what stands between the last slash of its path and the end, where
/// slashes at the end do not count; it has no slash in it.
pub proof fn folder_is_named_last(path: Seq<char>, start: int, end: int)
    requires
        0 <= start < end <= path.len(),
        start > 0 ==> path[start - 1] == '/',
        forall|i: int| start <= i < end ==> #[trigger] path[i] != '/',
        forall|i: int| end <= i < path.len() ==> #[trigger] path[i] == '/',
        path.subrange(start, end) != seq!['.'],
        path.subrange(start, end) != seq!['.', '.'],
    ensures
        folder_name(path) == Some(path.subrange(start, end)),
    decreases path.len(),
{
    let name = path.subrange(start, end);
    if end < path.len() {
        assert(path[path.len() - 1] == '/');
        let front = path.drop_last();
        assert(front.subrange(start, end) =~= name);
        folder_is_named_last(front, start, end);
    } else {
        assert(path[path.len() - 1] != '/');
        if path.len() > 1 && path.last() == '.' && path[path.len() - 2] == '/' {
            assert(start == end - 1);
            assert(name =~= seq!['.']);
        }
        assert(without_trailing(path) == path);
        after_slash_at(path, start);
        assert(path.subrange(start, path.len() as int) =~= name);
    }
}

/// What stands after the last slash.
proof fn after_slash_at(path: Seq<char>, start: int)
    requires
        0 <= start <= path.len(),
        start > 0 ==> path[start - 1] == '/',
        forall|i: int| start <= i < path.len() ==> #[trigger] path[i] != '/',
    ensures
        after_last_slash(path) == path.subrange(start, path.len() as int),
    decreases path.len(),
{
    if start == path.len() {
        assert(path.subrange(start, start) =~= Seq::<char>::empty());
        if path.len() == 0 {
            assert(path =~= Seq::<char>::empty());
        }
    } else {
        let front = path.drop_last();
        assert(path[path.len() - 1] != '/');
        assert forall|i: int| start <= i < front.len() implies #[trigger] front[i] != '/' by {
            assert(front[i] == path[i]);
        }
        after_slash_at(front, start);
        assert(front.subrange(start, front.len() as int).push(path.last()) =~= path.subrange(
            start,
            path.len() as int,
        ));
    }
}

/// A path of slashes alone names no folder.
pub proof fn the_root_has_no_name(path: Seq<char>)
    requires
        forall|i: int| 0 <= i < path.len() ==> #[trigger] path[i] == '/',
    ensures
        folder_name(path) is None,
    decreases path.len(),
{
    if path.len() > 0 {
        assert(path[path.len() - 1] == '/');
        let front = path.drop_last();
        assert forall|i: int| 0 <= i < front.len() implies #[trigger] front[i] == '/' by {
            assert(front[i] == path[i]);
        }
        the_root_has_no_name(front);
    }
}

/// A channel is found by its title and by its folder name alike: one gives the other back.
pub proof fn title_and_folder_name_the_same_channel(name: Seq<char>)
    ensures
        !"tgfs-"@.is_prefix_of(name) ==> without_prefix(name) == name && without_prefix(
            "tgfs-"@ + name,
        ) == name,
        "tgfs-"@.is_prefix_of(name) ==> "tgfs-"@ + without_prefix(name) == name,
{
    reveal_strlit("tgfs-");
    let title = "tgfs-"@ + name;
    assert("tgfs-"@ =~= title.subrange(0, 5));
    assert(title.subrange(5, title.len() as int) =~= name);
    if "tgfs-"@.is_prefix_of(name) {
        assert(name.subrange(0, 5) == "tgfs-"@);
        assert("tgfs-"@ + name.subrange(5, name.len() as int) =~= name);
    }
}

/// A threshold that is too large is told of with what it is and with what it exceeds.
pub proof fn thresholds_are_told_of(threshold: u64, size: u64)
    ensures
        ({
            let text = ConfigError::ThresholdOverChunkSize { threshold, chunk_size: size }.text();
            let start = "invalid pack config: threshold ("@;
            let middle = start + decimal(threshold as nat) + ") exceeds chunk_size ("@;
            let n = text.len() as int;
            &&& middle.is_prefix_of(text)
            &&& leading_u64(text.subrange(start.len() as int, n)) == Some(threshold)
            &&& leading_u64(text.subrange(middle.len() as int, n)) == Some(size)
        }),
        ({
            let text = ConfigError::ThresholdOverTargetSize { threshold, target_size: size }.text();
            let start = "invalid pack config: threshold ("@;
            let middle = start + decimal(threshold as nat) + ") exceeds target_size ("@;
            let n = text.len() as int;
            &&& middle.is_prefix_of(text)
            &&& leading_u64(text.subrange(start.len() as int, n)) == Some(threshold)
            &&& leading_u64(text.subrange(middle.len() as int, n)) == Some(size)
        }),
{
    reveal_strlit(") exceeds chunk_size (");
    reveal_strlit(") exceeds target_size (");
    reveal_strlit(")");
    let start = "invalid pack config: threshold ("@;
    let first = ConfigError::ThresholdOverChunkSize { threshold, chunk_size: size }.text();
    two_numbers_are_read(start, threshold, ") exceeds chunk_size ("@, size, ")"@, first);
    let second = ConfigError::ThresholdOverTargetSize { threshold, target_size: size }.text();
    two_numbers_are_read(start, threshold, ") exceeds target_size ("@, size, ")"@, second);
}

} // verus!
