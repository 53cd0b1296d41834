use tgfs::cli::{CliError, Command};
use tgfs::config::{
    clone_names, data_dir, default_chunk_size, default_excludes, global_config_path, join_path,
    session_path, ConfigError, PackConfig, Repo, RepoConfig, RepoSettings, DEFAULT_CHUNK_SIZE,
    MAX_DOCUMENT_SIZE,
};
use tgfs::key::KeyArgs;

fn default_repo_config() -> RepoConfig {
    RepoConfig {
        channel_id: 1,
        channel_access_hash: 2,
        chunk_size: DEFAULT_CHUNK_SIZE,
        pack: PackConfig::default(),
        encrypted: false,
        key_verifier: None,
        exclude: default_excludes(),
    }
}

fn number(table: &toml::Table, name: &str) -> Option<u64> {
    table.get(name).and_then(|v| v.as_integer()).map(|n| n as u64)
}

fn parse(text: &str) -> RepoConfig {
    let table: toml::Table = toml::from_str(text).unwrap();
    let pack = table.get("pack").and_then(|v| v.as_table()).cloned().unwrap_or_default();
    RepoSettings {
        channel_id: table["channel_id"].as_integer().unwrap(),
        channel_access_hash: table["channel_access_hash"].as_integer().unwrap(),
        chunk_size: number(&table, "chunk_size"),
        pack_threshold: number(&pack, "threshold"),
        pack_target_size: number(&pack, "target_size"),
        encrypted: table.get("encrypted").and_then(|v| v.as_bool()),
        key_verifier: table.get("key_verifier").and_then(|v| v.as_str()).map(str::to_string),
        exclude: table.get("exclude").and_then(|v| v.as_array()).map(|list| {
            list.iter().map(|v| v.as_str().unwrap().to_string()).collect()
        }),
    }
    .resolve()
}

fn encode(config: &RepoConfig) -> String {
    let integer = |n: u64| toml::Value::Integer(n as i64);
    let mut pack = toml::Table::new();
    pack.insert("threshold".to_string(), integer(config.pack.threshold));
    pack.insert("target_size".to_string(), integer(config.pack.target_size));
    let mut table = toml::Table::new();
    let mut put = |name: &str, value| table.insert(name.to_string(), value);
    put("channel_id", toml::Value::Integer(config.channel_id));
    put("channel_access_hash", toml::Value::Integer(config.channel_access_hash));
    put("chunk_size", integer(config.chunk_size));
    put("encrypted", toml::Value::Boolean(config.encrypted));
    if let Some(verifier) = &config.key_verifier {
        put("key_verifier", toml::Value::String(verifier.clone()));
    }
    let exclude = config.exclude.iter().cloned().map(toml::Value::String).collect();
    put("exclude", toml::Value::Array(exclude));
    put("pack", toml::Value::Table(pack));
    toml::to_string_pretty(&table).unwrap()
}

#[test]
fn pack_defaults_deserialize() {
    let config =
        parse("channel_id = 1\nchannel_access_hash = 2\nchunk_size = 1073741824\n");
    assert_eq!(config.pack.threshold, 8 << 20);
    assert_eq!(config.pack.target_size, 256 << 20);
    config.validate().unwrap();
    let encoded = encode(&config);
    let decoded = parse(&encoded);
    assert_eq!(decoded.pack.threshold, config.pack.threshold);
    assert!(!decoded.encrypted);
    assert!(decoded.exclude.is_empty());
}

#[test]
fn pack_config_is_validated() {
    let mut config = default_repo_config();
    config.pack.threshold = config.chunk_size + 1;
    assert!(config.validate().unwrap_err().message().contains("chunk_size"));

    config = default_repo_config();
    config.pack.target_size = config.pack.threshold - 1;
    assert!(config.validate().unwrap_err().message().contains("target_size"));

    config = default_repo_config();
    config.pack.target_size = MAX_DOCUMENT_SIZE;
    assert!(config.validate().unwrap_err().message().contains("encrypted"));

    config = default_repo_config();
    config.pack.threshold = 0;
    config.pack.target_size = 0;
    config.validate().unwrap();
}

#[test]
fn each_fault_of_the_settings_is_named() {
    let mut config = default_repo_config();
    config.pack.target_size = MAX_DOCUMENT_SIZE + 1;
    assert_eq!(
        config.validate().unwrap_err().message(),
        "invalid pack config: target_size (2147483649) exceeds Telegram's 2 GiB document cap"
    );
    config.pack.target_size = MAX_DOCUMENT_SIZE;
    assert_eq!(
        config.validate().unwrap_err(),
        ConfigError::SealedTargetSizeOverCap { sealed: 2_147_483_648 + 16 * 2048 }
    );
    config.pack.target_size = MAX_DOCUMENT_SIZE - 16 * 2048;
    assert_eq!(config.validate(), Ok(()));
    config.pack.threshold = config.chunk_size + 1;
    assert_eq!(
        config.validate().unwrap_err().message(),
        "invalid pack config: threshold (1073741825) exceeds chunk_size (1073741824)"
    );
    assert!(Repo::create("/r".to_string(), config).is_err());
    let repo = Repo::create("/r".to_string(), default_repo_config()).unwrap();
    assert_eq!(repo.root, "/r");
}

#[test]
fn defaults_are_filled_in() {
    assert_eq!(default_chunk_size(), 1024 * 1024 * 1024);
    assert_eq!(default_excludes(), vec![".git/", ".DS_Store", "Thumbs.db"]);
    let config = parse("channel_id = 5\nchannel_access_hash = -7\nencrypted = true\nkey_verifier = \"v\"\n[pack]\nthreshold = 3\n");
    assert_eq!(config.chunk_size, DEFAULT_CHUNK_SIZE);
    assert_eq!(config.channel_access_hash, -7);
    assert_eq!(config.pack, PackConfig { threshold: 3, target_size: 256 << 20 });
    assert!(config.encrypted);
    assert_eq!(config.key_verifier.as_deref(), Some("v"));
}

#[test]
fn settings_are_read_back() {
    let mut config = default_repo_config();
    config.key_verifier = Some("v".to_string());
    let decoded = parse(&encode(&config));
    assert_eq!(decoded.exclude, default_excludes());
    assert_eq!(decoded.pack, config.pack);
    assert_eq!(decoded.key_verifier, config.key_verifier);
}

#[test]
fn channels_are_cloned_by_title_or_folder() {
    let names = |title: &str, folder: &str| (title.to_string(), folder.to_string());
    assert_eq!(clone_names("photos"), names("tgfs-photos", "photos"));
    assert_eq!(clone_names("tgfs-photos"), names("tgfs-photos", "photos"));
    assert_eq!(clone_names("tgfs-tgfs-x"), names("tgfs-tgfs-x", "tgfs-x"));
    assert_eq!(clone_names("tgfs"), names("tgfs-tgfs", "tgfs"));
}

#[test]
fn places_of_files() {
    assert_eq!(global_config_path(Some("/c")).unwrap(), "/c/tgfs/config.toml");
    assert_eq!(global_config_path(None), Err(ConfigError::NoConfigDir));
    assert_eq!(data_dir(Some("/d/")).unwrap(), "/d/tgfs");
    assert_eq!(session_path(Some("/d")).unwrap(), "/d/tgfs/session.db");
    assert_eq!(session_path(None), Err(ConfigError::NoDataDir));
    let repo = Repo { root: "/home/me/photos".to_string(), config: default_repo_config() };
    assert_eq!(repo.index_path(), "/home/me/photos/.tgfs/index.db");
    assert_eq!(repo.config_path(), "/home/me/photos/.tgfs/config.toml");
    for (dir, name) in [("a", "b"), ("", "b"), ("/", "b"), ("a/", "b"), ("a", "/b"), ("a", "")] {
        let expected = std::path::Path::new(dir).join(name);
        assert_eq!(join_path(dir, name), expected.to_str().unwrap());
    }
}

#[test]
fn channel_titles_follow_the_folder() {
    assert_eq!(Repo::channel_title("/home/me/photos").unwrap(), "tgfs-photos");
    assert_eq!(Repo::channel_title("/"), Err(ConfigError::FilesystemRoot));
    for path in [
        "/a/b", "/a/b/", "/a/b//", "/a/b/.", "/a/b/./", "a", ".", "..", "a/..", "", "//", "/a/.b",
        "/a/b.", "./", "a/./b",
    ] {
        let expected = std::path::Path::new(path)
            .file_name()
            .map(|name| format!("tgfs-{}", name.to_str().unwrap()));
        assert_eq!(Repo::channel_title(path).ok(), expected, "{path:?}");
    }
}

#[test]
fn the_nearest_repository_is_found() {
    assert_eq!(Repo::discover("/a/b", &vec![false, true, true]), Ok(1));
    let error = Repo::discover("/a/b", &vec![false, false]).unwrap_err();
    assert_eq!(
        error.message(),
        "not inside a tgfs repo (no .tgfs directory found from /a/b upward) — run `tgfs init` in the folder you want to back up"
    );
}

#[test]
fn key_arguments_must_go_together() {
    let key = |k: bool, f: bool| KeyArgs {
        key: k.then_some("k".to_string()),
        keyfile: f.then_some("f".to_string()),
    };
    let init = |encrypt, key| Command::Init { encrypt, key };
    assert_eq!(init(false, key(false, false)).validate(), Ok(()));
    assert_eq!(init(true, key(true, false)).validate(), Ok(()));
    assert_eq!(
        init(false, key(false, true)).validate(),
        Err(CliError::KeyWithoutEncrypt)
    );
    let pull = Command::Pull { force: false, key: key(true, true) };
    assert_eq!(pull.validate(), Err(CliError::TwoKeys));
    assert_eq!(Command::Login.validate(), Ok(()));
}
