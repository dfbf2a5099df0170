//! The run's checks and names around a scan: whether a root can be scanned,
//! the errors that end a run, and the default name of the catalog file.
use vstd::prelude::*;
use vstd::string::StringExecFns;

verus! {

/// What ends a run. None is recovered from.
#[derive(Clone, Copy, Debug, PartialEq, Eq, Structural)]
pub enum ScanError {
    /// The root does not exist.
    NotFound,
    /// The root exists and is no directory.
    NotADirectory,
    /// A directory could not be listed during the walk.
    ScanIoError,
    /// The directory of the output file could not be created.
    OutputDirCreateError,
    /// The output file could not be written.
    OutputWriteError,
}

/// Decides whether a root can be scanned, from whether it exists and whether
/// it is a directory.
pub fn check_root(exists: bool, is_dir: bool) -> (r: Result<(), ScanError>)
    ensures
        !exists ==> r == Err::<(), ScanError>(ScanError::NotFound),
        exists && !is_dir ==> r == Err::<(), ScanError>(ScanError::NotADirectory),
        exists && is_dir ==> r is Ok,
{
    if !exists {
        Err(ScanError::NotFound)
    } else if !is_dir {
        Err(ScanError::NotADirectory)
    } else {
        Ok(())
    }
}

/// `.txt`
pub open spec fn txt_suffix() -> Seq<char> {
    seq!['.', 't', 'x', 't']
}

/// The default name of the catalog file: the root folder's name and `.txt`,
/// or `output.txt` where the root has no name that is valid text.
pub fn output_file_name(folder_name: Option<&str>) -> (r: String)
    ensures
        folder_name matches Some(f) ==> r@ == f@ + txt_suffix(),
        folder_name is None ==> r@ == seq!['o', 'u', 't', 'p', 'u', 't'] + txt_suffix(),
{
    proof {
        reveal_strlit(".txt");
        reveal_strlit("output");
    }
    let stem = match folder_name {
        Some(f) => f,
        None => "output",
    };
    String::from_str(stem).concat(".txt")
}

} // verus!
