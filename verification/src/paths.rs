//! Paths of files, and the directories that the system names.

use crate::text::{same_text, to_chars};
use std::path::PathBuf;
use vstd::prelude::*;

verus! {

/// A path as the system has it, whose names need not be text.
#[verifier::external_type_specification]
#[verifier::external_body]
pub struct ExPathBuf(PathBuf);

/// `PathBuf::clone` gives the same path.
pub assume_specification[ <PathBuf as Clone>::clone ](path: &PathBuf) -> (copy: PathBuf)
    ensures
        copy == *path,
;

/// `dirs::home_dir`: the user's home directory. The environment decides, so nothing is promised.
pub assume_specification[ dirs::home_dir ]() -> (home: Option<PathBuf>);

/// `dirs::state_dir`: the user's directory for state. The environment decides, so nothing is
/// promised.
pub assume_specification[ dirs::state_dir ]() -> (dir: Option<PathBuf>);

/// The path of a file: one that was written down, or one at or below a directory of the system's.
#[derive(Clone, Debug)]
pub enum FilePath {
    Written(String),
    Directory(PathBuf),
    Below { directory: PathBuf, rest: String },
}

/// The path of a file as values.
pub enum PathView {
    Written(Seq<char>),
    Directory(PathBuf),
    Below { directory: PathBuf, rest: Seq<char> },
}

impl View for FilePath {
    type V = PathView;

    open spec fn view(&self) -> PathView {
        match *self {
            FilePath::Written(text) => PathView::Written(text@),
            FilePath::Directory(directory) => PathView::Directory(directory),
            FilePath::Below { directory, rest } => PathView::Below { directory, rest: rest@ },
        }
    }
}

impl FilePath {
    /// The same path once more.
    pub fn copy(&self) -> (path: FilePath)
        ensures
            path@ == self@,
    {
        match self {
            FilePath::Written(text) => FilePath::Written(text.clone()),
            FilePath::Directory(directory) => FilePath::Directory(directory.clone()),
            FilePath::Below { directory, rest } => FilePath::Below {
                directory: directory.clone(),
                rest: rest.clone(),
            },
        }
    }
}

/// A text whose leading tilde stands for the home directory.
pub open spec fn starts_at_home(text: Seq<char>) -> bool {
    text == "~"@ || (text.len() >= 2 && text[0] == '~' && text[1] == '/')
}

/// A path with a leading tilde exchanged for the home directory, where there is one.
pub open spec fn expanded(path: PathView, home: Option<PathBuf>) -> PathView {
    match (path, home) {
        (PathView::Written(text), Some(home)) => if text == "~"@ {
            PathView::Directory(home)
        } else if starts_at_home(text) {
            PathView::Below { directory: home, rest: text.skip(2) }
        } else {
            path
        },
        _ => path,
    }
}

/// Exchanges a leading tilde for the given home directory.
pub fn expand_tilde_in(path: &FilePath, home: &Option<PathBuf>) -> (result: FilePath)
    ensures
        result@ == expanded(path@, *home),
{
    if let FilePath::Written(text) = path {
        if let Some(home) = home {
            if same_text(text.as_str(), "~") {
                return FilePath::Directory(home.clone());
            }
            let chars: Vec<char> = to_chars(text.as_str());
            if chars.len() >= 2 && chars[0] == '~' && chars[1] == '/' {
                let rest: &str = text.as_str().substring_char(2, chars.len());
                assert(rest@ == text@.skip(2));
                return FilePath::Below { directory: home.clone(), rest: rest.to_owned() };
            }
        }
    }
    path.copy()
}

/// Exchanges a leading tilde for the user's home directory.
pub fn expand_tilde(path: &FilePath) -> (result: FilePath)
    ensures
        exists|home: Option<PathBuf>| result@ == #[trigger] expanded(path@, home),
{
    let home: Option<PathBuf> = dirs::home_dir();
    let result: FilePath = expand_tilde_in(path, &home);
    assert(result@ == expanded(path@, home));
    result
}

/// A tilde stands for the home directory at the front of a path, and only there; what follows it
/// follows the directory. Without a home directory, and elsewhere, a path is kept.
pub proof fn law_tilde_is_home(text: Seq<char>, home: PathBuf, rest: Seq<char>)
    ensures
        text == "~"@ ==> expanded(PathView::Written(text), Some(home)) == PathView::Directory(home),
        text == "~/"@ + rest ==> expanded(PathView::Written(text), Some(home)) == (PathView::Below {
            directory: home,
            rest,
        }),
        text != "~"@ && !(text.len() >= 2 && text[0] == '~' && text[1] == '/') ==> expanded(
            PathView::Written(text),
            Some(home),
        ) == PathView::Written(text),
        expanded(PathView::Written(text), None) == PathView::Written(text),
        expanded(PathView::Directory(home), Some(home)) == PathView::Directory(home),
        expanded(PathView::Below { directory: home, rest }, Some(home)) == (PathView::Below {
            directory: home,
            rest,
        }),
{
    reveal_strlit("~");
    reveal_strlit("~/");
    if text == "~/"@ + rest {
        assert(text.len() >= 2 && text[0] == '~' && text[1] == '/');
        assert(text.skip(2) == rest);
        assert(text.len() != "~"@.len());
    }
}

} // verus!
