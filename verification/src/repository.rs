//! The repository: where it lives, how it is configured, and what it holds.
//!
//! A `Repository` is an image of a repository in memory. Its objects and
//! references are what the directory under `gitdir` held when the image was
//! loaded, and what was written since.

use crate::config::{Config, ConfigContents};
use crate::error::GitError;
use crate::refs::{Ref, RefType};
use bytes::Bytes;
use vstd::prelude::*;
use vstd::string::StringExecFns;

verus! {

/// The bytes of an object as they are stored, under the hash of those bytes.
#[derive(Debug, Clone, PartialEq)]
pub struct StoredObject {
    pub sha: String,
    pub data: Bytes,
}

/// A repository.
#[derive(Debug, Clone, PartialEq)]
pub struct Repository {
    /// The directory of the working tree.
    pub worktree: String,
    /// The directory of the repository's own files, inside the working tree.
    pub gitdir: String,
    pub conf: Config,
    /// The stored objects, oldest first.
    pub objects: Vec<StoredObject>,
    /// The stored references, oldest first.
    pub refs: Vec<Ref>,
}

/// `base`, a slash and `name`.
pub open spec fn child_path(base: Seq<char>, name: Seq<char>) -> Seq<char> {
    base + "/"@ + name
}

/// `base` followed by each of `segments` behind a slash.
pub open spec fn join_path(base: Seq<char>, segments: Seq<Seq<char>>) -> Seq<char>
    decreases segments.len(),
{
    if segments.len() == 0 {
        base
    } else {
        child_path(join_path(base, segments.drop_last()), segments.last())
    }
}

/// The path of `name` inside the directory `base`.
pub fn path_child(base: &str, name: &str) -> (path: String)
    ensures
        path@ == child_path(base@, name@),
{
    let mut path = base.to_owned();
    path.append("/");
    path.append(name);
    path
}

impl Repository {
    /// Whether `contents` declares a format that this library reads: format 0.
    pub open spec fn supports(contents: ConfigContents) -> bool {
        contents.core.repository_format_version == 0
    }

    /// Checks the format that a configuration declares.
    pub fn version_check(&self, config_contents: &ConfigContents) -> (result: Result<(), GitError>)
        ensures
            Self::supports(*config_contents) ==> result is Ok,
            !Self::supports(*config_contents) ==> result == Err::<(), GitError>(GitError::Config),
    {
        if config_contents.core.repository_format_version != 0 {
            Err(GitError::Config)
        } else {
            Ok(())
        }
    }

    /// Opens the repository whose working tree is `path`, given what its
    /// configuration file holds, if there is one. Without `force`, a repository
    /// without a configuration is not found, and one that declares an
    /// unsupported format is refused. With `force`, a missing configuration is
    /// replaced by that of a fresh repository, and the format is not looked at.
    /// The image holds no objects and no references yet.
    pub fn new(path: String, stored: Option<ConfigContents>, force: bool) -> (result: Result<
        Self,
        GitError,
    >)
        ensures
            match result {
                Ok(repo) => {
                    &&& force || (stored matches Some(c) && Self::supports(c))
                    &&& repo.worktree@ == path@
                    &&& repo.gitdir@ == child_path(path@, ".git"@)
                    &&& repo.conf.path@ == child_path(repo.gitdir@, "config"@)
                    &&& match stored {
                        Some(c) => repo.conf.contents == c,
                        None => Self::supports(repo.conf.contents),
                    }
                    &&& repo.objects@.len() == 0
                    &&& repo.refs@.len() == 0
                },
                Err(e) => !force && match stored {
                    Some(c) => !Self::supports(c) && e == GitError::Config,
                    None => e == GitError::NotFound,
                },
            },
    {
        let gitdir = path_child(path.as_str(), ".git");
        let mut config = Config::new(path_child(gitdir.as_str(), "config"));
        match stored {
            Some(contents) => {
                config.contents = contents;
            },
            None => {
                if !force {
                    return Err(GitError::NotFound);
                }
            },
        }
        let repo = Repository {
            worktree: path,
            gitdir,
            conf: config,
            objects: Vec::new(),
            refs: Vec::new(),
        };
        if !force {
            match repo.version_check(&repo.conf.contents) {
                Ok(()) => {},
                Err(e) => {
                    return Err(e);
                },
            }
        }
        Ok(repo)
    }

    /// A fresh repository with the working tree `path`: no objects, and the
    /// reference `HEAD`, which names the branch `master`.
    pub fn create(path: String) -> (result: Result<Self, GitError>)
        ensures
            result matches Ok(repo) && {
                &&& repo.worktree@ == path@
                &&& repo.gitdir@ == child_path(path@, ".git"@)
                &&& repo.conf.path@ == child_path(repo.gitdir@, "config"@)
                &&& Self::supports(repo.conf.contents)
                &&& repo.objects@.len() == 0
                &&& crate::refs::stored_refs(repo.refs@) == seq![
                    crate::refs::Reference {
                        name: "HEAD"@,
                        target: Some(crate::refs::Target::Indirect("refs/heads/master"@)),
                    },
                ]
            },
    {
        let mut repo = match Repository::new(path, None, true) {
            Ok(repo) => repo,
            Err(e) => {
                return Err(e);
            },
        };
        repo.refs.push(
            Ref {
                name: "HEAD".to_owned(),
                target: Some(RefType::Indirect("refs/heads/master".to_owned())),
            },
        );
        assert(crate::refs::stored_refs(repo.refs@) =~= seq![
            crate::refs::Reference {
                name: "HEAD"@,
                target: Some(crate::refs::Target::Indirect("refs/heads/master"@)),
            },
        ]);
        Ok(repo)
    }

    /// The directories that a fresh repository has, as paths.
    pub fn create_dirs(&self) -> (dirs: Vec<String>)
        ensures
            dirs@.len() == 4,
            dirs@[0]@ == join_path(self.gitdir@, seq!["branches"@]),
            dirs@[1]@ == join_path(self.gitdir@, seq!["objects"@]),
            dirs@[2]@ == join_path(self.gitdir@, seq!["refs"@, "tags"@]),
            dirs@[3]@ == join_path(self.gitdir@, seq!["refs"@, "heads"@]),
    {
        let mut dirs: Vec<String> = Vec::new();
        let refs = path_child(self.gitdir.as_str(), "refs");
        dirs.push(path_child(self.gitdir.as_str(), "branches"));
        dirs.push(path_child(self.gitdir.as_str(), "objects"));
        dirs.push(path_child(refs.as_str(), "tags"));
        dirs.push(path_child(refs.as_str(), "heads"));
        proof {
            let g = self.gitdir@;
            assert(seq!["branches"@].drop_last() =~= Seq::<Seq<char>>::empty());
            assert(seq!["objects"@].drop_last() =~= Seq::<Seq<char>>::empty());
            assert(seq!["refs"@].drop_last() =~= Seq::<Seq<char>>::empty());
            assert(seq!["refs"@, "tags"@].drop_last() =~= seq!["refs"@]);
            assert(seq!["refs"@, "heads"@].drop_last() =~= seq!["refs"@]);
            assert(join_path(g, Seq::<Seq<char>>::empty()) == g);
            assert(join_path(g, seq!["refs"@]) == child_path(g, "refs"@));
        }
        dirs
    }
}

} // verus!
