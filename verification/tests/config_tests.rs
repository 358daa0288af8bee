use std::path::{Path, PathBuf};
use xml_structer::utils::fs_utils::{
    find_xml_files, has_listed_extension, validate_directory, DirectoryError, FoundFile,
};
use xml_structer::utils::log_utils::{level_named, parse_log_level, LogLevel};
use xml_structer::XsConfig;

#[test]
fn test_default_config() {
    let config = XsConfig::default();
    assert_eq!(config.processing.file_extensions, vec!["xml", "tei"]);
    assert_eq!(config.output.pretty_print, true);
    assert_eq!(config.logging.level, "info");
    assert_eq!(config.processing.num_threads, 0);
    assert_eq!(config.processing.max_depth, 0);
    assert_eq!(config.output.include_paths, true);
    assert_eq!(config.logging.log_file, None);
    assert_eq!(config.log_file_path(), None);
}

#[test]
fn test_merge_with_cli() {
    let config = XsConfig::default();
    let merged = config.merge_with_cli(Some("custom_output.json".to_string()), Some(8));

    assert_eq!(merged.output.output_file, "custom_output.json");
    assert_eq!(merged.processing.num_threads, 8);

    let kept = XsConfig::default().merge_with_cli(None, None);
    assert_eq!(kept.output.output_file, "xml_structures.json");
    assert_eq!(kept.processing.num_threads, 0);
}

#[test]
fn test_output_file_path() {
    let config = XsConfig::default();
    let path = config.output_file_path();
    assert_eq!(PathBuf::from(path), PathBuf::from("xml_structures.json"));
}

#[test]
fn log_file_path_is_the_configured_one() {
    let mut config = XsConfig::default();
    config.logging.log_file = Some("run.log".to_string());
    assert_eq!(config.log_file_path(), Some("run.log".to_string()));
}

#[test]
fn test_parse_log_level() {
    assert_eq!(parse_log_level("trace"), LogLevel::Trace);
    assert_eq!(parse_log_level("DEBUG"), LogLevel::Debug);
    assert_eq!(parse_log_level("info"), LogLevel::Info);
    assert_eq!(parse_log_level("WARN"), LogLevel::Warn);
    assert_eq!(parse_log_level("error"), LogLevel::Error);
    assert_eq!(parse_log_level("invalid"), LogLevel::Info);
}

#[test]
fn level_names_are_taken_in_lower_case_only() {
    assert_eq!(level_named("warn"), Some(LogLevel::Warn));
    assert_eq!(level_named("WARN"), None);
    assert_eq!(level_named(""), None);
}

#[test]
fn test_validate_nonexistent_directory() {
    let path = Path::new("/this/does/not/exist");
    let result = validate_directory("/this/does/not/exist", path.exists(), path.is_dir());
    assert!(result.is_err());
    assert_eq!(result, Err(DirectoryError::Missing("/this/does/not/exist".to_string())));
    assert_eq!(
        result.unwrap_err().message(),
        "Path does not exist: /this/does/not/exist"
    );
}

#[test]
fn test_validate_directory() {
    let path = Path::new(".");
    let result = validate_directory(".", path.exists(), path.is_dir());
    assert!(result.is_ok());
}

#[test]
fn test_find_xml_files() {
    // the files of a directory that holds two documents and a text file
    let files = vec![found("dir/test1.xml"), found("dir/test2.xml"), found("dir/test.txt")];

    let extensions = vec!["xml".to_string()];
    let files = find_xml_files("dir", &files, &extensions).unwrap();

    assert_eq!(files.len(), 2);
}

#[test]
fn directory_must_exist_and_be_one() {
    assert_eq!(validate_directory("d", true, true), Ok(()));
    let file = validate_directory("f.xml", true, false).unwrap_err();
    assert_eq!(file, DirectoryError::NotADirectory("f.xml".to_string()));
    assert_eq!(file.message(), "Path is not a directory: f.xml");
}

fn found(path: &str) -> FoundFile {
    FoundFile {
        path: path.to_string(),
        extension: Path::new(path).extension().map(|e| e.to_str().unwrap().to_string()),
    }
}

#[test]
fn files_are_selected_by_extension() {
    let files: Vec<FoundFile> =
        ["d/test1.xml", "d/test2.xml", "d/test.txt", "d/noext", "d/.xml", "d/a.TEI", "d/b.tei"]
            .iter()
            .map(|path| found(path))
            .collect();
    let extensions = vec!["xml".to_string()];
    let documents = find_xml_files("d", &files, &extensions).unwrap();
    assert_eq!(documents.len(), 2);
    assert_eq!(documents, vec!["d/test1.xml", "d/test2.xml"]);
    let both = vec!["xml".to_string(), "tei".to_string()];
    assert_eq!(
        find_xml_files("d", &files, &both).unwrap(),
        vec!["d/test1.xml", "d/test2.xml", "d/b.tei"]
    );
    let none = find_xml_files("d", &files, &vec!["json".to_string()]).unwrap_err();
    assert_eq!(none, DirectoryError::NoXmlFiles("d".to_string()));
    assert_eq!(none.message(), "No XML files found in directory: d");
    assert!(find_xml_files("d", &vec![], &extensions).is_err());
}

#[test]
fn selection_goes_by_the_given_extensions() {
    let files = vec![
        FoundFile { path: "a".to_string(), extension: Some("xml".to_string()) },
        FoundFile { path: "b.xml".to_string(), extension: None },
    ];
    let extensions = vec!["xml".to_string()];
    assert_eq!(find_xml_files("d", &files, &extensions).unwrap(), vec!["a"]);
    assert!(has_listed_extension(&Some("xml".to_string()), &extensions));
    assert!(!has_listed_extension(&Some("XML".to_string()), &extensions));
    assert!(!has_listed_extension(&None, &extensions));
}

#[test]
fn zero_leaves_workers_and_depth_open() {
    let mut config = XsConfig::default();
    assert_eq!(config.processing.worker_threads(), None);
    assert_eq!(config.processing.depth_limit(), None);
    config.processing.num_threads = 4;
    config.processing.max_depth = 2;
    assert_eq!(config.processing.worker_threads(), Some(4));
    assert_eq!(config.processing.depth_limit(), Some(2));
}
