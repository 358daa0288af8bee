use std::path::PathBuf;
use xml_structer::cli::Cli;

#[test]
fn test_verbose_overrides_log_level() {
    let cli = Cli {
        input_dir: PathBuf::from("."),
        output: None,
        config: "config/default.toml".to_string(),
        threads: None,
        max_depth: None,
        log_level: "info".to_string(),
        no_progress: false,
        no_pretty: false,
        verbose: true,
    };

    assert_eq!(cli.effective_log_level(), "debug");
}

#[test]
fn test_default_log_level() {
    let cli = Cli {
        input_dir: PathBuf::from("."),
        output: None,
        config: "config/default.toml".to_string(),
        threads: None,
        max_depth: None,
        log_level: "info".to_string(),
        no_progress: false,
        no_pretty: false,
        verbose: false,
    };

    assert_eq!(cli.effective_log_level(), "info");
}

#[test]
fn test_main_compiles() {
    // The library links and its entry points can be named.
    assert!(true);
}
