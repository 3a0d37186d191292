//! Paths inside a repository's own directory.

use crate::error::GitError;
use crate::repository::{join_path, path_child, Repository};
use vstd::prelude::*;

verus! {

/// The text of each of `path`'s segments.
pub open spec fn segments_of(path: Seq<String>) -> Seq<Seq<char>> {
    path.map_values(|s: String| s@)
}

/// The path that the segments of `path` name inside the repository's own
/// directory.
pub fn repo_path(repository: &Repository, path: Vec<String>) -> (joined: String)
    ensures
        joined@ == join_path(repository.gitdir@, segments_of(path@)),
{
    let mut joined = repository.gitdir.clone();
    let mut i: usize = 0;
    let ghost segments = segments_of(path@);
    assert(segments.take(0) =~= Seq::<Seq<char>>::empty());
    while i < path.len()
        invariant
            i <= path@.len(),
            segments == segments_of(path@),
            joined@ == join_path(repository.gitdir@, segments.take(i as int)),
        decreases path@.len() - i,
    {
        assert(segments.take(i + 1).drop_last() =~= segments.take(i as int));
        assert(segments.take(i + 1).last() == path@[i as int]@);
        joined = path_child(joined.as_str(), path[i].as_str());
        i += 1;
    }
    assert(segments.take(segments.len() as int) =~= segments);
    joined
}

/// The path of the file that the segments of `path` name inside the
/// repository's own directory. No segments name no file.
pub fn repo_file(repository: &Repository, path: Vec<String>) -> (result: Result<String, GitError>)
    ensures
        match result {
            Ok(file) => path@.len() > 0 && file@ == join_path(
                repository.gitdir@,
                segments_of(path@),
            ),
            Err(e) => path@.len() == 0 && e == GitError::NotFound,
        },
{
    if path.len() == 0 {
        Err(GitError::NotFound)
    } else {
        Ok(repo_path(repository, path))
    }
}

} // verus!
