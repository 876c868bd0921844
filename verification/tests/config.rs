use gausify_server::config::{
    config_file_source, library_source, Cli, ConfigError, ConfigFileSource, FileConfig,
    LibrarySource, Settings, DEFAULT_CONFIG_FILE,
};
use std::path::PathBuf;

fn cli() -> Cli {
    Cli { library: None, http_port: None, https_port: None, no_https: false, no_http: false, config: None }
}

#[test]
fn defaults_apply_when_nothing_is_set() {
    let s = Settings::resolve(&cli(), &FileConfig::default(), PathBuf::from("/lib"), true).ok().unwrap();
    assert_eq!(s.library, PathBuf::from("/lib"));
    assert!(s.http && s.https);
    assert_eq!((s.http_port, s.https_port), (8080, 8443));
    assert_eq!(DEFAULT_CONFIG_FILE, "gausify.toml");
}

#[test]
fn file_values_override_defaults_and_flags_override_file() {
    let file = FileConfig { library: None, http: Some(false), https: None, http_port: Some(9000), https_port: Some(9443) };
    let mut c = cli();
    c.https_port = Some(10443);
    let s = Settings::resolve(&c, &file, PathBuf::from("/lib"), true).ok().unwrap();
    assert!(!s.http);
    assert!(s.https);
    assert_eq!(s.http_port, 9000);
    assert_eq!(s.https_port, 10443);
}

#[test]
fn no_flags_disable_listeners_whatever_the_file_says() {
    let file = FileConfig { library: None, http: Some(true), https: Some(true), http_port: None, https_port: None };
    let mut c = cli();
    c.no_http = true;
    c.no_https = true;
    let s = Settings::resolve(&c, &file, PathBuf::from("/lib"), true).ok().unwrap();
    assert!(!s.http && !s.https);
}

#[test]
fn a_library_that_is_not_a_directory_is_refused() {
    match Settings::resolve(&cli(), &FileConfig::default(), PathBuf::from("/lib/file"), false) {
        Err(ConfigError::NotADirectory(p)) => assert_eq!(p, PathBuf::from("/lib/file")),
        Ok(_) => panic!("expected an error"),
    }
}

#[test]
fn library_comes_from_flag_then_file_then_working_dir() {
    match library_source(Some(PathBuf::from("/a")), Some("/b".to_string()), Some(PathBuf::from("/c"))) {
        LibrarySource::Flag(p) => assert_eq!(p, PathBuf::from("/a")),
        _ => panic!("flag expected"),
    }
    match library_source(None, Some("/b".to_string()), Some(PathBuf::from("/c"))) {
        LibrarySource::File(s) => assert_eq!(s, "/b"),
        _ => panic!("file expected"),
    }
    match library_source(None, None, Some(PathBuf::from("/c"))) {
        LibrarySource::WorkingDir(p) => assert_eq!(p, PathBuf::from("/c")),
        _ => panic!("working dir expected"),
    }
    assert!(matches!(library_source(None, None, None), LibrarySource::Dot));
}

#[test]
fn config_file_comes_from_flag_else_default() {
    match config_file_source(Some(PathBuf::from("/etc/g.toml"))) {
        ConfigFileSource::Flag(p) => assert_eq!(p, PathBuf::from("/etc/g.toml")),
        ConfigFileSource::Default => panic!("flag ignored"),
    }
    assert!(matches!(config_file_source(None), ConfigFileSource::Default));
    assert_eq!(DEFAULT_CONFIG_FILE, "gausify.toml");
}
