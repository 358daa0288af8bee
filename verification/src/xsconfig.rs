//! The settings of a run.

use vstd::prelude::*;

verus! {

/// How documents are found and processed.
#[derive(Debug)]
pub struct ProcessingConfig {
    /// Number of workers; 0 leaves the choice to the library.
    pub num_threads: usize,
    /// Depth limit of the directory traversal; 0 means no limit.
    pub max_depth: usize,
    /// The file extensions that mark a document.
    pub file_extensions: Vec<String>,
}

impl ProcessingConfig {
    /// The number of workers to run, where the settings fix one: 0 leaves
    /// the choice open.
    pub fn worker_threads(&self) -> (workers: Option<usize>)
        ensures
            workers == if self.num_threads == 0 {
                None::<usize>
            } else {
                Some(self.num_threads)
            },
    {
        if self.num_threads == 0 {
            None
        } else {
            Some(self.num_threads)
        }
    }

    /// The depth to which directories are walked, where the settings limit
    /// it: 0 sets no limit.
    pub fn depth_limit(&self) -> (limit: Option<usize>)
        ensures
            limit == if self.max_depth == 0 {
                None::<usize>
            } else {
                Some(self.max_depth)
            },
    {
        if self.max_depth == 0 {
            None
        } else {
            Some(self.max_depth)
        }
    }
}

/// Where and how the result is written.
#[derive(Debug)]
pub struct OutputConfig {
    pub output_file: String,
    pub pretty_print: bool,
    pub include_paths: bool,
}

/// What is logged, and where.
#[derive(Debug)]
pub struct LoggingConfig {
    pub level: String,
    pub log_file: Option<String>,
}

/// All settings of a run.
#[derive(Debug)]
pub struct XsConfig {
    pub processing: ProcessingConfig,
    pub output: OutputConfig,
    pub logging: LoggingConfig,
}

impl XsConfig {
    /// The settings that hold where no configuration file is given: workers
    /// and depth left open, the extensions `xml` and `tei`, pretty-printed
    /// output to `xml_structures.json`, log level `info` and no log file.
    pub fn default() -> (config: XsConfig)
        ensures
            config.processing.num_threads == 0,
            config.processing.max_depth == 0,
            config.processing.file_extensions@.len() == 2,
            config.processing.file_extensions@[0]@ == "xml"@,
            config.processing.file_extensions@[1]@ == "tei"@,
            config.output.output_file@ == "xml_structures.json"@,
            config.output.pretty_print,
            config.output.include_paths,
            config.logging.level@ == "info"@,
            config.logging.log_file is None,
    {
        let mut file_extensions: Vec<String> = Vec::new();
        file_extensions.push("xml".to_string());
        file_extensions.push("tei".to_string());
        XsConfig {
            processing: ProcessingConfig { num_threads: 0, max_depth: 0, file_extensions },
            output: OutputConfig {
                output_file: "xml_structures.json".to_string(),
                pretty_print: true,
                include_paths: true,
            },
            logging: LoggingConfig { level: "info".to_string(), log_file: None },
        }
    }

    /// The path of the log file, if one is set.
    pub fn log_file_path(&self) -> (path: Option<String>)
        ensures
            path is Some == self.logging.log_file is Some,
            path matches Some(text) ==> text@ == self.logging.log_file->0@,
    {
        match &self.logging.log_file {
            Some(path) => Some(path.clone()),
            None => None,
        }
    }

    /// The path of the output file.
    pub fn output_file_path(&self) -> (path: String)
        ensures
            path@ == self.output.output_file@,
    {
        self.output.output_file.clone()
    }

    /// The settings with the command line's choices put over them: the
    /// output file and the number of workers, each where it was given.
    pub fn merge_with_cli(self, output: Option<String>, threads: Option<usize>) -> (merged:
        XsConfig)
        ensures
            merged.output.output_file == (match output {
                Some(path) => path,
                None => self.output.output_file,
            }),
            merged.processing.num_threads == (match threads {
                Some(count) => count,
                None => self.processing.num_threads,
            }),
            merged.output.pretty_print == self.output.pretty_print,
            merged.output.include_paths == self.output.include_paths,
            merged.processing.max_depth == self.processing.max_depth,
            merged.processing.file_extensions == self.processing.file_extensions,
            merged.logging == self.logging,
    {
        let mut merged = self;
        if let Some(path) = output {
            merged.output.output_file = path;
        }
        if let Some(count) = threads {
            merged.processing.num_threads = count;
        }
        merged
    }
}

} // verus!
