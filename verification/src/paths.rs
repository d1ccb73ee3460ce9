//! File paths. They are opaque here: what the rest of the crate knows of one is what the
//! functions below say.

use crate::text::joined;
use std::path::PathBuf;
use vstd::prelude::*;

verus! {

/// A file path, as the platform has it.
#[verifier::external_type_specification]
#[verifier::external_body]
pub struct ExPathBuf(PathBuf);

/// `PathBuf::clone`: the copy is the same path.
pub assume_specification[ <PathBuf as Clone>::clone ](path: &PathBuf) -> (copy: PathBuf)
    ensures
        copy == *path,
;

/// The text that `Path::display` shows for `path`.
pub uninterp spec fn display_of(path: PathBuf) -> Seq<char>;

/// The file name without its extension that `Path::file_stem` finds in `path`, as
/// `OsStr::to_string_lossy` writes it.
pub uninterp spec fn stem_of(path: PathBuf) -> Option<Seq<char>>;

/// The extension that `Path::extension` finds in `path`, as `OsStr::to_string_lossy`
/// writes it.
pub uninterp spec fn extension_of(path: PathBuf) -> Option<Seq<char>>;

/// The path that `Path::with_file_name` makes of `path` with `name` for its file name.
pub uninterp spec fn renamed(path: PathBuf, name: Seq<char>) -> PathBuf;

/// `Path::display`: the text that shows `path`, under the name `display_of`.
#[verifier::external_body]
pub(crate) fn display(path: &PathBuf) -> (text: String)
    ensures
        text@ == display_of(*path),
{
    path.display().to_string()
}

/// `Path::file_stem`: the stem of `path`, under the name `stem_of`.
#[verifier::external_body]
fn file_stem(path: &PathBuf) -> (stem: Option<String>)
    ensures
        crate::text::opt_text(stem) == stem_of(*path),
{
    path.file_stem().map(|s| s.to_string_lossy().into_owned())
}

/// `Path::extension`: the extension of `path`, under the name `extension_of`.
#[verifier::external_body]
fn extension(path: &PathBuf) -> (extension: Option<String>)
    ensures
        crate::text::opt_text(extension) == extension_of(*path),
{
    path.extension().map(|s| s.to_string_lossy().into_owned())
}

/// `Path::with_file_name`: `path` with `name` for its file name, under the name `renamed`.
#[verifier::external_body]
fn with_file_name(path: &PathBuf, name: &str) -> (other: PathBuf)
    ensures
        other == renamed(*path, name@),
{
    path.with_file_name(name)
}

/// The file name of the stats file that goes with a log file of this stem and extension:
/// `.stats` stands before the extension.
pub open spec fn stats_name(stem: Option<Seq<char>>, extension: Option<Seq<char>>) -> Seq<char> {
    let base = match stem {
        Some(stem) => stem + ".stats"@,
        None => ".stats"@,
    };
    match extension {
        Some(extension) => base + "."@ + extension,
        None => base,
    }
}

/// Where the stats file that goes with a log file stands: beside it.
pub open spec fn stats_path_of(log_path: PathBuf) -> PathBuf {
    renamed(log_path, stats_name(stem_of(log_path), extension_of(log_path)))
}

/// The file name of the stats file that goes with a log file of this stem and extension.
pub fn stats_file_name(stem: Option<&str>, extension: Option<&str>) -> (name: String)
    ensures
        name@ == stats_name(
            match stem {
                Some(s) => Some(s@),
                None => None,
            },
            match extension {
                Some(s) => Some(s@),
                None => None,
            },
        ),
{
    let stem = match stem {
        Some(stem) => stem,
        None => "",
    };
    proof {
        reveal_strlit("");
        assert(""@ + ".stats"@ =~= ".stats"@);
    }
    let base = joined(stem, ".stats");
    match extension {
        Some(extension) => joined(joined(base.as_str(), ".").as_str(), extension),
        None => base,
    }
}

/// The path of the stats file that goes with the log file at `log_path`.
pub fn stats_path_for(log_path: &PathBuf) -> (stats_path: PathBuf)
    ensures
        stats_path == stats_path_of(*log_path),
{
    let stem = file_stem(log_path);
    let extension = extension(log_path);
    let name = stats_file_name(
        match &stem {
            Some(s) => Some(s.as_str()),
            None => None,
        },
        match &extension {
            Some(s) => Some(s.as_str()),
            None => None,
        },
    );
    with_file_name(log_path, name.as_str())
}

/// The stats file's name is the log file's with `.stats` before the extension: the stem stands
/// first, the extension, with its dot, stands last, and nothing else is in it.
pub proof fn stats_name_keeps_stem_and_extension(stem: Seq<char>, extension: Seq<char>)
    ensures
        ({
            let dotted = seq!['.', 's', 't', 'a', 't', 's'];
            &&& stats_name(Some(stem), Some(extension)) == stem + dotted + seq!['.'] + extension
            &&& stats_name(Some(stem), None) == stem + dotted
            &&& stats_name(None, Some(extension)) == dotted + seq!['.'] + extension
            &&& stats_name(None, None) == dotted
        }),
{
    reveal_strlit(".stats");
    reveal_strlit(".");
    let dotted = seq!['.', 's', 't', 'a', 't', 's'];
    assert(".stats"@ =~= dotted);
    assert("."@ =~= seq!['.']);
}

/// The stats file of a log stands beside it: its path is the log's with nothing but the file
/// name changed, to the name made of the log's own stem and extension.
pub proof fn stats_file_stands_beside_the_log(log_path: PathBuf)
    ensures
        stats_path_of(log_path) == renamed(
            log_path,
            stats_name(stem_of(log_path), extension_of(log_path)),
        ),
{
}

} // verus!
