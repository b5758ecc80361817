//! Finding a file in a directory or in one of its ancestors.

use std::path::PathBuf;
use vstd::prelude::*;
use crate::errors::{Error, IoErrorKind};

verus! {

#[verifier::external_type_specification]
#[verifier::external_body]
pub struct ExPathBuf(PathBuf);

/// The ancestors of `dir`, as `Path::ancestors` yields them: `dir` itself,
/// its parent, and so on up to the root.
pub uninterp spec fn path_ancestors(dir: PathBuf) -> Seq<PathBuf>;

/// `dir` joined with `name`, as `Path::join` makes it.
pub uninterp spec fn path_join(dir: PathBuf, name: PathBuf) -> PathBuf;

/// The path that `PathBuf::from` makes of `s`.
pub uninterp spec fn path_from(s: Seq<char>) -> PathBuf;

/// Calls `Path::ancestors` and collects the ancestors; the result is
/// [`path_ancestors`], whose first entry is `dir` itself (the documentation
/// of `Path::ancestors` says so).
#[verifier::external_body]
fn ancestors(dir: &PathBuf) -> (res: Vec<PathBuf>)
    ensures
        res@ == path_ancestors(*dir),
        res@.len() >= 1,
        res@[0] == *dir,
{
    dir.ancestors().map(|p| p.to_path_buf()).collect()
}

/// Calls `Path::join`; the result is [`path_join`].
#[verifier::external_body]
fn join(dir: &PathBuf, name: &PathBuf) -> (res: PathBuf)
    ensures
        res == path_join(*dir, *name),
{
    dir.join(name)
}

/// Calls `PathBuf::from` on a string; the result is [`path_from`].
#[verifier::external_body]
fn path_of(s: &str) -> (res: PathBuf)
    ensures
        res == path_from(s@),
{
    PathBuf::from(s)
}

/// The place where `filename` is looked for in the `k`-th ancestor of `dir`.
pub open spec fn candidate(dir: PathBuf, filename: PathBuf, k: int) -> PathBuf {
    path_join(path_ancestors(dir)[k], filename)
}

/// Searches for `filename` in `current_dir` and its ancestors, nearest
/// first, asking `is_file` of each place: the first place for which it
/// answers `true`, or the not-found error when it answers `false` for all.
/// The first place asked about is `current_dir` joined with `filename`.
pub fn find<F: Fn(&PathBuf) -> bool>(current_dir: &PathBuf, filename: &PathBuf, is_file: F) -> (res: Result<
    PathBuf,
    Error,
>)
    requires
        forall|p: &PathBuf| is_file.requires((p,)),
    ensures
        path_ancestors(*current_dir).len() >= 1,
        candidate(*current_dir, *filename, 0) == path_join(*current_dir, *filename),
        match res {
            Ok(p) => exists|k: int|
                0 <= k < path_ancestors(*current_dir).len() && p == candidate(
                    *current_dir,
                    *filename,
                    k,
                ) && is_file.ensures((&p,), true) && forall|j: int|
                    0 <= j < k ==> #[trigger] is_file.ensures(
                        (&candidate(*current_dir, *filename, j),),
                        false,
                    ),
            Err(e) => (e matches Error::Io(io) && io.kind == IoErrorKind::NotFound) && forall|
                j: int,
            |
                0 <= j < path_ancestors(*current_dir).len() ==> #[trigger] is_file.ensures(
                    (&candidate(*current_dir, *filename, j),),
                    false,
                ),
        },
{
    let dirs = ancestors(current_dir);
    assert(candidate(*current_dir, *filename, 0) == path_join(*current_dir, *filename));
    let mut k: usize = 0;
    while k < dirs.len()
        invariant
            k <= dirs.len(),
            dirs@ == path_ancestors(*current_dir),
            dirs@.len() >= 1,
            candidate(*current_dir, *filename, 0) == path_join(*current_dir, *filename),
            forall|p: &PathBuf| is_file.requires((p,)),
            forall|j: int|
                0 <= j < k ==> #[trigger] is_file.ensures(
                    (&candidate(*current_dir, *filename, j),),
                    false,
                ),
        decreases dirs.len() - k,
    {
        let path = join(&dirs[k], filename);
        if is_file(&path) {
            assert(path == candidate(*current_dir, *filename, k as int));
            assert(0 <= k < path_ancestors(*current_dir).len() && path == candidate(
                *current_dir,
                *filename,
                k as int,
            ) && is_file.ensures((&path,), true) && forall|j: int|
                0 <= j < k ==> #[trigger] is_file.ensures(
                    (&candidate(*current_dir, *filename, j),),
                    false,
                ));
            return Ok(path);
        }
        k = k + 1;
    }
    Err(Error::not_found())
}

/// Searches for `.env` in `current_dir` and its ancestors, as [`find`] does;
/// the first place asked about is `.env` in `current_dir` itself.
pub fn find_dotenv<F: Fn(&PathBuf) -> bool>(current_dir: &PathBuf, is_file: F) -> (res: Result<
    PathBuf,
    Error,
>)
    requires
        forall|p: &PathBuf| is_file.requires((p,)),
    ensures
        path_ancestors(*current_dir).len() >= 1,
        candidate(*current_dir, path_from(".env"@), 0) == path_join(*current_dir, path_from(".env"@)),
        match res {
            Ok(p) => exists|k: int|
                0 <= k < path_ancestors(*current_dir).len() && p == candidate(
                    *current_dir,
                    path_from(".env"@),
                    k,
                ) && is_file.ensures((&p,), true) && forall|j: int|
                    0 <= j < k ==> #[trigger] is_file.ensures(
                        (&candidate(*current_dir, path_from(".env"@), j),),
                        false,
                    ),
            Err(e) => (e matches Error::Io(io) && io.kind == IoErrorKind::NotFound) && forall|
                j: int,
            |
                0 <= j < path_ancestors(*current_dir).len() ==> #[trigger] is_file.ensures(
                    (&candidate(*current_dir, path_from(".env"@), j),),
                    false,
                ),
        },
{
    let name = path_of(".env");
    find(current_dir, &name, is_file)
}

} // verus!
