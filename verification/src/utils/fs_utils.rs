//! What is decided about the files of a run, once the file system has been
//! asked.

use crate::processor::key_order::same_text;
use vstd::prelude::*;
use vstd::string::StringExecFns;

verus! {

/// What a listing of texts stands for.
pub open spec fn texts_of(texts: Seq<String>) -> Seq<Seq<char>> {
    texts.map_values(|text: String| text@)
}

/// Whether a file with the given extension is wanted: it has an extension,
/// and that is one of the listed ones, letter for letter.
pub open spec fn is_listed(extension: Option<Seq<char>>, extensions: Seq<Seq<char>>) -> bool {
    match extension {
        Some(text) => extensions.contains(text),
        None => false,
    }
}

/// A file that was found, with the extension of its name, if it has one.
#[derive(Debug)]
pub struct FoundFile {
    pub path: String,
    pub extension: Option<String>,
}

/// What a found file stands for: its path and its extension.
pub struct FileModel {
    pub path: Seq<char>,
    pub extension: Option<Seq<char>>,
}

/// The extension as text, if there is one.
pub open spec fn extension_text(extension: Option<String>) -> Option<Seq<char>> {
    match extension {
        Some(text) => Some(text@),
        None => None,
    }
}

impl View for FoundFile {
    type V = FileModel;

    open spec fn view(&self) -> FileModel {
        FileModel { path: self.path@, extension: extension_text(self.extension) }
    }
}

/// What a listing of found files stands for.
pub open spec fn file_models(files: Seq<FoundFile>) -> Seq<FileModel> {
    files.map_values(|file: FoundFile| file@)
}

/// The paths of the files whose extensions are listed, in their order.
pub open spec fn selected(files: Seq<FileModel>, extensions: Seq<Seq<char>>) -> Seq<Seq<char>>
    decreases files.len(),
{
    if files.len() == 0 {
        Seq::empty()
    } else if is_listed(files.last().extension, extensions) {
        selected(files.drop_last(), extensions).push(files.last().path)
    } else {
        selected(files.drop_last(), extensions)
    }
}

/// Whether a file with the given extension is wanted.
pub fn has_listed_extension(extension: &Option<String>, extensions: &Vec<String>) -> (listed: bool)
    ensures
        listed == is_listed(extension_text(*extension), texts_of(extensions@)),
{
    match extension {
        Some(text) => {
            let mut i: usize = 0;
            while i < extensions.len()
                invariant
                    i <= extensions.len(),
                    *extension == Some(*text),
                    forall|j: int| 0 <= j < i ==> texts_of(extensions@)[j] != text@,
                decreases extensions.len() - i,
            {
                if same_text(extensions[i].as_str(), text.as_str()) {
                    assert(texts_of(extensions@)[i as int] == text@);
                    assert(texts_of(extensions@).contains(text@));
                    return true;
                }
                i = i + 1;
            }
            false
        },
        None => false,
    }
}

/// Why no document can be read from a directory.
#[derive(Debug, PartialEq, Eq)]
pub enum DirectoryError {
    /// There is nothing at the path.
    Missing(String),
    /// What is at the path is no directory.
    NotADirectory(String),
    /// The directory holds no file with a listed extension.
    NoXmlFiles(String),
}

impl DirectoryError {
    /// The error in words, with the path that it is about.
    pub fn message(&self) -> (words: String)
        ensures
            words@ == match self {
                DirectoryError::Missing(path) => "Path does not exist: "@ + path@,
                DirectoryError::NotADirectory(path) => "Path is not a directory: "@ + path@,
                DirectoryError::NoXmlFiles(path) => "No XML files found in directory: "@ + path@,
            },
    {
        match self {
            DirectoryError::Missing(path) => {
                let mut words = "Path does not exist: ".to_string();
                words.append(path.as_str());
                words
            },
            DirectoryError::NotADirectory(path) => {
                let mut words = "Path is not a directory: ".to_string();
                words.append(path.as_str());
                words
            },
            DirectoryError::NoXmlFiles(path) => {
                let mut words = "No XML files found in directory: ".to_string();
                words.append(path.as_str());
                words
            },
        }
    }
}

/// Whether documents can be looked for at a path, given what the file
/// system says of it: the path must exist and be a directory.
pub fn validate_directory(path: &str, exists: bool, is_directory: bool) -> (outcome: Result<
    (),
    DirectoryError,
>)
    ensures
        outcome is Ok <==> exists && is_directory,
        !exists ==> (outcome matches Err(DirectoryError::Missing(text)) && text@ == path@),
        exists && !is_directory ==> (outcome matches Err(DirectoryError::NotADirectory(text))
            && text@ == path@),
{
    if !exists {
        Err(DirectoryError::Missing(path.to_string()))
    } else if !is_directory {
        Err(DirectoryError::NotADirectory(path.to_string()))
    } else {
        Ok(())
    }
}

/// The documents among the files that were found in a directory: the files
/// whose extension is listed, in their order. It is an error if there is
/// none.
pub fn find_xml_files(
    directory: &str,
    files: &Vec<FoundFile>,
    extensions: &Vec<String>,
) -> (outcome: Result<Vec<String>, DirectoryError>)
    ensures
        ({
            let wanted = selected(file_models(files@), texts_of(extensions@));
            match outcome {
                Ok(documents) => wanted.len() > 0 && texts_of(documents@) == wanted,
                Err(error) => wanted.len() == 0 && (error matches DirectoryError::NoXmlFiles(text)
                    && text@ == directory@),
            }
        }),
{
    let ghost all = file_models(files@);
    let mut documents: Vec<String> = Vec::new();
    let mut i: usize = 0;
    assert(all.take(0) =~= Seq::empty());
    while i < files.len()
        invariant
            i <= files.len(),
            all == file_models(files@),
            texts_of(documents@) == selected(all.take(i as int), texts_of(extensions@)),
        decreases files.len() - i,
    {
        let ghost before = texts_of(documents@);
        proof {
            assert(all.take(i + 1).drop_last() =~= all.take(i as int));
            assert(all.take(i + 1).last() == files@[i as int]@);
        }
        if has_listed_extension(&files[i].extension, extensions) {
            documents.push(files[i].path.clone());
            assert(texts_of(documents@) =~= before.push(files@[i as int]@.path));
        }
        i = i + 1;
    }
    proof {
        assert(all.take(i as int) =~= all);
    }
    if documents.len() == 0 {
        Err(DirectoryError::NoXmlFiles(directory.to_string()))
    } else {
        Ok(documents)
    }
}

} // verus!
