//! Command-line flags and `gausify.toml` values, merged into the effective
//! settings. Precedence: command-line flag, then the file, then the built-in
//! default.
use std::path::PathBuf;
use vstd::prelude::*;

verus! {

#[verifier::external_type_specification]
#[verifier::external_body]
pub struct ExPathBuf(PathBuf);

/// Plain-HTTP port when neither a flag nor the file sets one.
pub const DEFAULT_HTTP_PORT: u16 = 8080;

/// HTTPS port when neither a flag nor the file sets one.
pub const DEFAULT_HTTPS_PORT: u16 = 8443;

/// Config file read when `--config` is not given.
pub const DEFAULT_CONFIG_FILE: &'static str = "gausify.toml";

/// The command-line flags.
pub struct Cli {
    /// Library root to serve (default: the current working directory).
    pub library: Option<PathBuf>,
    /// Port for plain HTTP.
    pub http_port: Option<u16>,
    /// Port for HTTPS.
    pub https_port: Option<u16>,
    /// Disable the HTTPS listener.
    pub no_https: bool,
    /// Disable the plain-HTTP listener.
    pub no_http: bool,
    /// Path to a config file.
    pub config: Option<PathBuf>,
}

/// The contents of `gausify.toml`; every field is optional, so a bare or
/// missing file is valid.
pub struct FileConfig {
    pub library: Option<String>,
    pub http: Option<bool>,
    pub https: Option<bool>,
    pub http_port: Option<u16>,
    pub https_port: Option<u16>,
}

impl Default for FileConfig {
    fn default() -> (r: FileConfig)
        ensures
            r.library is None,
            r.http is None,
            r.https is None,
            r.http_port is None,
            r.https_port is None,
    {
        FileConfig { library: None, http: None, https: None, http_port: None, https_port: None }
    }
}

/// Fully resolved runtime settings.
pub struct Settings {
    /// Canonical, existing directory the server serves.
    pub library: PathBuf,
    pub http: bool,
    pub https: bool,
    pub http_port: u16,
    pub https_port: u16,
}

/// Where the library directory comes from, before it is canonicalized.
pub enum LibrarySource {
    /// The `--library` flag.
    Flag(PathBuf),
    /// The `library` key of the config file.
    File(String),
    /// The current working directory.
    WorkingDir(PathBuf),
    /// `.`, when the working directory cannot be read.
    Dot,
}

/// Which config file is read.
pub enum ConfigFileSource {
    /// The `--config` flag.
    Flag(PathBuf),
    /// `DEFAULT_CONFIG_FILE` in the working directory.
    Default,
}

/// Why settings could not be resolved.
pub enum ConfigError {
    /// The canonical library path names something that is not a directory.
    NotADirectory(PathBuf),
}

/// A port: the flag's if given, else the file's, else `default`.
pub open spec fn effective_port(flag: Option<u16>, file: Option<u16>, default: u16) -> u16 {
    match flag {
        Some(p) => p,
        None => match file {
            Some(p) => p,
            None => default,
        },
    }
}

/// A listener is on unless its `--no-*` flag is given or the file turns it
/// off; it is on by default.
pub open spec fn listener_enabled(disabled_by_flag: bool, file: Option<bool>) -> bool {
    !disabled_by_flag && match file {
        Some(b) => b,
        None => true,
    }
}

fn pick_port(flag: Option<u16>, file: Option<u16>, default: u16) -> (p: u16)
    ensures
        p == effective_port(flag, file, default),
{
    match flag {
        Some(p) => p,
        None => match file {
            Some(p) => p,
            None => default,
        },
    }
}

fn pick_enabled(disabled_by_flag: bool, file: Option<bool>) -> (b: bool)
    ensures
        b == listener_enabled(disabled_by_flag, file),
{
    !disabled_by_flag && match file {
        Some(b) => b,
        None => true,
    }
}

/// The config file read for a `--config` flag: its path when given, else
/// `DEFAULT_CONFIG_FILE`.
pub open spec fn config_file_choice(flag: Option<PathBuf>) -> ConfigFileSource {
    match flag {
        Some(p) => ConfigFileSource::Flag(p),
        None => ConfigFileSource::Default,
    }
}

/// Without a `--config` flag the config file is `gausify.toml` in the
/// working directory; a given flag names the file itself.
pub proof fn lemma_default_config_file(flag: Option<PathBuf>)
    ensures
        flag is None ==> config_file_choice(flag) == ConfigFileSource::Default,
        flag matches Some(p) ==> config_file_choice(flag) == ConfigFileSource::Flag(p),
        DEFAULT_CONFIG_FILE@ == "gausify.toml"@,
{
}

/// Chooses the config file: the `--config` flag's path, else
/// `DEFAULT_CONFIG_FILE`.
pub fn config_file_source(flag: Option<PathBuf>) -> (r: ConfigFileSource)
    ensures
        r == config_file_choice(flag),
{
    match flag {
        Some(p) => ConfigFileSource::Flag(p),
        None => ConfigFileSource::Default,
    }
}

/// Chooses the library directory: the flag, else the file, else the working
/// directory (`cwd`, `None` when it cannot be read), else `.`.
pub fn library_source(
    flag: Option<PathBuf>,
    file: Option<String>,
    cwd: Option<PathBuf>,
) -> (r: LibrarySource)
    ensures
        flag matches Some(p) ==> r == LibrarySource::Flag(p),
        flag is None && file is Some ==> r == LibrarySource::File(file.unwrap()),
        flag is None && file is None && cwd is Some ==> r == LibrarySource::WorkingDir(
            cwd.unwrap(),
        ),
        flag is None && file is None && cwd is None ==> r == LibrarySource::Dot,
{
    match flag {
        Some(p) => LibrarySource::Flag(p),
        None => match file {
            Some(s) => LibrarySource::File(s),
            None => match cwd {
                Some(d) => LibrarySource::WorkingDir(d),
                None => LibrarySource::Dot,
            },
        },
    }
}

impl Settings {
    /// Merges the flags and the file into the effective settings, given the
    /// canonical library path and whether it is a directory. Fails exactly
    /// when it is not a directory.
    pub fn resolve(cli: &Cli, file: &FileConfig, library: PathBuf, library_is_dir: bool) -> (r:
        Result<Settings, ConfigError>)
        ensures
            r is Err <==> !library_is_dir,
            r matches Err(ConfigError::NotADirectory(p)) ==> p == library,
            r matches Ok(s) ==> {
                &&& s.library == library
                &&& s.http == listener_enabled(cli.no_http, file.http)
                &&& s.https == listener_enabled(cli.no_https, file.https)
                &&& s.http_port == effective_port(cli.http_port, file.http_port, DEFAULT_HTTP_PORT)
                &&& s.https_port == effective_port(
                    cli.https_port,
                    file.https_port,
                    DEFAULT_HTTPS_PORT,
                )
            },
    {
        if !library_is_dir {
            return Err(ConfigError::NotADirectory(library));
        }
        Ok(Settings {
            library,
            http: pick_enabled(cli.no_http, file.http),
            https: pick_enabled(cli.no_https, file.https),
            http_port: pick_port(cli.http_port, file.http_port, DEFAULT_HTTP_PORT),
            https_port: pick_port(cli.https_port, file.https_port, DEFAULT_HTTPS_PORT),
        })
    }
}

/// Precedence of a port: a flag wins over the file, the file over the
/// built-in default.
pub proof fn lemma_port_precedence(flag: Option<u16>, file: Option<u16>, default: u16)
    ensures
        flag matches Some(p) ==> effective_port(flag, file, default) == p,
        (flag is None && file is Some) ==> effective_port(flag, file, default) == file.unwrap(),
        flag is None && file is None ==> effective_port(flag, file, default) == default,
{
}

/// A `--no-http`/`--no-https` flag always turns its listener off; without it
/// the file decides, and a listener is on when neither says anything.
pub proof fn lemma_listener_precedence(disabled_by_flag: bool, file: Option<bool>)
    ensures
        disabled_by_flag ==> !listener_enabled(disabled_by_flag, file),
        (!disabled_by_flag && file is Some) ==> listener_enabled(disabled_by_flag, file)
            == file.unwrap(),
        !disabled_by_flag && file is None ==> listener_enabled(disabled_by_flag, file),
{
}

} // verus!
