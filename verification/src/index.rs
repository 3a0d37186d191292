//! The staging index: the files that the next commit will hold.

use crate::text::{contains_text, occurs_in};
use std::time::SystemTime;
use vstd::prelude::*;

verus! {

/// `std::time::SystemTime`: a point in time. The library carries such values
/// and does not look inside them.
#[verifier::external_type_specification]
#[verifier::external_body]
pub struct ExSystemTime(std::time::SystemTime);

/// `Clone::clone` of `SystemTime`: the same point in time.
pub assume_specification[ <SystemTime as Clone>::clone ](time: &SystemTime) -> (copy: SystemTime)
    ensures
        copy == *time,
;

/// The kind of file that an entry stands for.
#[derive(Debug, Clone, Copy, PartialEq, Eq, Structural)]
pub enum ModelType {
    Regular,
    Symlink,
    Gitlink,
}

/// One staged file.
#[derive(Debug, Clone, PartialEq)]
pub struct IndexEntry {
    /// When the file was created.
    pub time: SystemTime,
    /// When the file was last changed.
    pub mtime: SystemTime,
    pub dev: String,
    pub ino: i32,
    pub model_type: ModelType,
    pub model_perms: i32,
    pub uid: i32,
    pub gid: i32,
    /// The size of the file in bytes.
    pub fsize: u64,
    pub sha: String,
    pub flag_assume_valid: bool,
    pub flag_stage: bool,
    /// The full path of the file.
    pub name: String,
}

/// The staged files, in the order in which they were staged.
#[derive(Debug, Clone, PartialEq)]
pub struct Index {
    pub version: i32,
    pub entries: Vec<IndexEntry>,
}

/// The first index at or after `from` of an entry whose name holds
/// `.gitignore`, or the number of entries when there is none.
pub open spec fn gitignore_at(entries: Seq<IndexEntry>, from: int) -> int
    decreases entries.len() - from,
{
    if from < 0 || from >= entries.len() {
        entries.len() as int
    } else if occurs_in(".gitignore"@, entries[from].name@) {
        from
    } else {
        gitignore_at(entries, from + 1)
    }
}

impl IndexEntry {
    /// The entry of a regular file: the file `path` with the hash `sha`, the
    /// times and the size that the file system tells, and everything else as a
    /// freshly staged file has it.
    pub fn new(sha: String, path: String, created: SystemTime, modified: SystemTime, fsize: u64)
        -> (entry: Self)
        ensures
            entry.time == created,
            entry.mtime == modified,
            entry.dev@ == Seq::<char>::empty(),
            entry.ino == 0,
            entry.model_type == ModelType::Regular,
            entry.model_perms == 0o644,
            entry.uid == 0,
            entry.gid == 0,
            entry.fsize == fsize,
            entry.sha == sha,
            !entry.flag_assume_valid,
            !entry.flag_stage,
            entry.name == path,
    {
        IndexEntry {
            time: created,
            mtime: modified,
            dev: String::new(),
            ino: 0,
            model_type: ModelType::Regular,
            model_perms: 0o644,
            uid: 0,
            gid: 0,
            fsize,
            sha,
            flag_assume_valid: false,
            flag_stage: false,
            name: path,
        }
    }

    /// A copy of the entry.
    pub fn duplicate(&self) -> (copy: Self)
        ensures
            copy == *self,
    {
        IndexEntry {
            time: self.time.clone(),
            mtime: self.mtime.clone(),
            dev: self.dev.clone(),
            ino: self.ino,
            model_type: self.model_type,
            model_perms: self.model_perms,
            uid: self.uid,
            gid: self.gid,
            fsize: self.fsize,
            sha: self.sha.clone(),
            flag_assume_valid: self.flag_assume_valid,
            flag_stage: self.flag_stage,
            name: self.name.clone(),
        }
    }
}

impl Index {
    /// An index of version 2 without entries.
    pub fn new() -> (index: Self)
        ensures
            index.version == 2,
            index.entries@.len() == 0,
    {
        Index { version: 2, entries: Vec::new() }
    }

    /// Stages one more file.
    pub fn add_entry(&mut self, entry: IndexEntry)
        ensures
            final(self).version == old(self).version,
            final(self).entries@ == old(self).entries@.push(entry),
    {
        self.entries.push(entry);
    }

    /// The first entry whose name holds `.gitignore`.
    pub fn get_gitignore(&self) -> (found: Option<IndexEntry>)
        ensures
            match found {
                Some(entry) => gitignore_at(self.entries@, 0) < self.entries@.len() && entry
                    == self.entries@[gitignore_at(self.entries@, 0)],
                None => gitignore_at(self.entries@, 0) >= self.entries@.len(),
            },
    {
        let mut i: usize = 0;
        while i < self.entries.len()
            invariant
                i <= self.entries@.len(),
                gitignore_at(self.entries@, 0) == gitignore_at(self.entries@, i as int),
            decreases self.entries@.len() - i,
        {
            if contains_text(self.entries[i].name.as_str(), ".gitignore") {
                return Some(self.entries[i].duplicate());
            }
            i += 1;
        }
        None
    }
}

} // verus!
