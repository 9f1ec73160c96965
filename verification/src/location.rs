//! Where the backing file lies: under a fixed name in the user's home
//! directory.

use std::path::PathBuf;
use vstd::prelude::*;

verus! {

/// `std::path::PathBuf`, which this library hands on without looking inside.
#[verifier::external_type_specification]
#[verifier::external_body]
pub struct ExPathBuf(PathBuf);

/// The name of the backing file inside the home directory.
pub const DATABASE_FILE: &'static str = ".kv.db";

/// The bytes that a path holds: those that `OsStr::as_encoded_bytes` gives
/// for it.
pub uninterp spec fn path_bytes(path: PathBuf) -> Seq<u8>;

/// The bytes of the path that `PathBuf::push` makes of a path with the bytes
/// `base` and the name `name`.
pub uninterp spec fn pushed(base: Seq<u8>, name: Seq<char>) -> Seq<u8>;

/// `home::home_dir` of the `home` crate: the current user's home directory,
/// read from a variable of the process (`HOME` on Unix) or asked of the
/// operating system. Whether a path comes back, and which, depends on the
/// machine and the moment, so nothing is claimed of the result.
pub assume_specification[ home::home_dir ]() -> (dir: Option<PathBuf>);

/// `PathBuf::push` of the standard library with a name as its argument. On a
/// given platform, what the path holds afterwards depends on what it held
/// before and on the name, and on nothing else.
#[verifier::external_body]
fn push_name(path: &mut PathBuf, name: &str)
    ensures
        path_bytes(*final(path)) == pushed(path_bytes(*old(path)), name@),
{
    path.push(name)
}

/// The path of the backing file for a given home directory: the directory
/// with `DATABASE_FILE` pushed onto it. Without a home directory there is no
/// path.
pub fn database_path_in(home: Option<PathBuf>) -> (path: Option<PathBuf>)
    ensures
        match home {
            Some(dir) => path matches Some(p) && path_bytes(p) == pushed(
                path_bytes(dir),
                DATABASE_FILE@,
            ),
            None => path is None,
        },
{
    match home {
        Some(dir) => {
            let mut path = dir;
            push_name(&mut path, DATABASE_FILE);
            Some(path)
        },
        None => None,
    }
}

/// The path of the backing file in the current user's home directory, or
/// `None` where no home directory is found.
pub fn database_path() -> (path: Option<PathBuf>)
    ensures
        path matches Some(p) ==> exists|base: Seq<u8>|
            path_bytes(p) == #[trigger] pushed(base, DATABASE_FILE@),
{
    database_path_in(home::home_dir())
}

} // verus!
