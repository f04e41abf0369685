use std::path::{Path, PathBuf};

use llm_conduit::cli::Cli;

fn cli(config: &str, config_flag: Option<&str>) -> Cli<PathBuf> {
    Cli {
        config: PathBuf::from(config),
        config_flag: config_flag.map(PathBuf::from),
    }
}

#[test]
fn config_path_follows_documented_precedence() {
    // No arguments: the default of the positional argument
    assert_eq!(cli("config.toml", None).config_path(), Path::new("config.toml"));

    // Positional argument
    assert_eq!(
        cli("/etc/llm-conduit/config.toml", None).config_path(),
        Path::new("/etc/llm-conduit/config.toml")
    );

    // -c / --config overrides the positional argument
    assert_eq!(
        cli("/tmp/a.toml", Some("/tmp/b.toml")).config_path(),
        Path::new("/tmp/b.toml")
    );
    assert_eq!(
        cli("config.toml", Some("/tmp/b.toml")).config_path(),
        Path::new("/tmp/b.toml")
    );
}
