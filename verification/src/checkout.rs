//! Materializing a tree: what has to be created in a directory so that it
//! holds the files of a tree.
//!
//! The library does not touch the file system. It lays out the steps, one or
//! more for each leaf, and the caller carries them out. A leaf that cannot be
//! laid out fails alone: the leaves beside it are laid out all the same.

use crate::buffer::contents;
use crate::error::GitError;
use crate::git_object::{tree_hash, GitObject, GitTree, Leaf, ObjectModel};
use crate::object_utils::{
    named_hash, object_find, object_read, stored_object, stored_objects, Stored,
};
use crate::refs::stored_refs;
use crate::repository::{child_path, path_child, Repository};
use bytes::Bytes;
use vstd::prelude::*;

verus! {

/// One step of a checkout.
#[derive(Debug, Clone, PartialEq)]
pub enum CheckoutStep {
    /// Create the directory at this path, with the directories above it.
    Directory(String),
    /// Write these bytes to the file at this path, after creating the
    /// directories above it.
    File(String, Bytes),
    /// The leaf at this path could not be laid out.
    Failed(String, GitError),
}

/// One step of a checkout, as mathematics.
pub enum Step {
    Directory(Seq<char>),
    File(Seq<char>, Seq<u8>),
    Failed(Seq<char>, GitError),
}

impl View for CheckoutStep {
    type V = Step;

    open spec fn view(&self) -> Step {
        match self {
            CheckoutStep::Directory(path) => Step::Directory(path@),
            CheckoutStep::File(path, data) => Step::File(path@, contents(*data)),
            CheckoutStep::Failed(path, e) => Step::Failed(path@, *e),
        }
    }
}

/// The steps, as mathematics.
pub open spec fn steps_of(steps: Seq<CheckoutStep>) -> Seq<Step> {
    steps.map_values(|s: CheckoutStep| s@)
}

/// The steps that lay out `leaves` below the directory `base`, leaf by leaf.
/// A leaf whose object is a blob is a file with the blob's bytes. A leaf whose
/// object is a tree is a directory, followed by the steps of that tree below
/// it; trees are entered `depth` levels deep, and a tree below that fails. A
/// leaf whose object is of another kind fails, and so does a leaf whose object
/// cannot be read, with the error of reading it.
pub open spec fn plan(objects: Seq<Stored>, leaves: Seq<Leaf>, base: Seq<char>, depth: nat) -> Seq<
    Step,
>
    decreases depth, leaves.len(),
{
    if leaves.len() == 0 {
        Seq::empty()
    } else {
        let path = child_path(base, leaves[0].path);
        let first = match stored_object(objects, leaves[0].sha) {
            Ok(ObjectModel::Tree(below)) => if depth == 0 {
                seq![Step::Failed(path, GitError::Checkout)]
            } else {
                seq![Step::Directory(path)] + plan(objects, below, path, (depth - 1) as nat)
            },
            Ok(ObjectModel::Blob(data)) => seq![Step::File(path, data)],
            Ok(_) => seq![Step::Failed(path, GitError::Checkout)],
            Err(e) => seq![Step::Failed(path, e)],
        };
        first + plan(objects, leaves.skip(1), base, depth)
    }
}

/// Each leaf is laid out by itself: the steps of leaves one after the other
/// are the steps of the first leaves followed by the steps of the others.
pub proof fn lemma_plan_leaf_by_leaf(
    objects: Seq<Stored>,
    first: Seq<Leaf>,
    others: Seq<Leaf>,
    base: Seq<char>,
    depth: nat,
)
    ensures
        plan(objects, first + others, base, depth) == plan(objects, first, base, depth) + plan(
            objects,
            others,
            base,
            depth,
        ),
    decreases first.len(),
{
    if first.len() == 0 {
        assert(first + others =~= others);
        assert(plan(objects, first, base, depth) + plan(objects, others, base, depth) =~= plan(
            objects,
            others,
            base,
            depth,
        ));
    } else {
        lemma_plan_leaf_by_leaf(objects, first.skip(1), others, base, depth);
        assert((first + others).skip(1) =~= first.skip(1) + others);
        assert((first + others)[0] == first[0]);
        let head = plan(objects, first, base, depth).subrange(
            0,
            plan(objects, first, base, depth).len() - plan(
                objects,
                first.skip(1),
                base,
                depth,
            ).len(),
        );
        assert(plan(objects, first, base, depth) =~= head + plan(
            objects,
            first.skip(1),
            base,
            depth,
        ));
        assert(plan(objects, first + others, base, depth) =~= head + (plan(
            objects,
            first.skip(1),
            base,
            depth,
        ) + plan(objects, others, base, depth)));
    }
}

/// Every leaf is laid out, whatever becomes of the leaves beside it: there
/// are at least as many steps as leaves.
pub proof fn lemma_plan_skips_no_leaf(
    objects: Seq<Stored>,
    leaves: Seq<Leaf>,
    base: Seq<char>,
    depth: nat,
)
    ensures
        plan(objects, leaves, base, depth).len() >= leaves.len(),
    decreases leaves.len(),
{
    if leaves.len() > 0 {
        lemma_plan_skips_no_leaf(objects, leaves.skip(1), base, depth);
    }
}

/// The steps that check out the commit that `name` stands for below the
/// directory `base`. A name that stands for an object that is no commit is
/// malformed.
pub open spec fn commit_plan(repo: Repository, name: Seq<char>, base: Seq<char>) -> Result<
    Seq<Step>,
    GitError,
> {
    let objects = stored_objects(repo.objects@);
    match named_hash(stored_refs(repo.refs@), name) {
        Ok(sha) => match stored_object(objects, sha) {
            Ok(ObjectModel::Commit(message)) => match tree_hash(message) {
                Some(tree) => match stored_object(objects, tree) {
                    Ok(ObjectModel::Tree(leaves)) => Ok(
                        plan(objects, leaves, base, repo.objects@.len()),
                    ),
                    Ok(_) => Err(GitError::Format),
                    Err(e) => Err(e),
                },
                None => Err(GitError::NotFound),
            },
            Ok(_) => Err(GitError::Format),
            Err(e) => Err(e),
        },
        Err(e) => Err(e),
    }
}

impl GitTree {
    /// Appends to `out` the steps that lay out the tree below `base`.
    fn checkout_into(
        &self,
        repo: &Repository,
        base: &str,
        depth: usize,
        out: &mut Vec<CheckoutStep>,
    )
        ensures
            steps_of(final(out)@) == steps_of(old(out)@) + plan(
                stored_objects(repo.objects@),
                self@,
                base@,
                depth as nat,
            ),
        decreases depth,
    {
        let ghost objects = stored_objects(repo.objects@);
        let ghost start = steps_of(out@);
        let mut i: usize = 0;
        assert(self@.skip(0) =~= self@);
        while i < self.items.len()
            invariant
                i <= self.items@.len(),
                self@.len() == self.items@.len(),
                objects == stored_objects(repo.objects@),
                steps_of(out@) + plan(objects, self@.skip(i as int), base@, depth as nat) == start
                    + plan(objects, self@, base@, depth as nat),
            decreases self.items@.len() - i,
        {
            let ghost before = steps_of(out@);
            let ghost rest = self@.skip(i as int);
            assert(rest.skip(1) =~= self@.skip(i + 1));
            assert(rest[0] == self.items@[i as int]@);
            let leaf = &self.items[i];
            let path = path_child(base, leaf.path.as_str());
            match object_read(repo, leaf.sha.clone()) {
                Ok(GitObject::Tree(below)) => {
                    if depth == 0 {
                        out.push(CheckoutStep::Failed(path, GitError::Checkout));
                        assert(steps_of(out@) =~= before + seq![
                            Step::Failed(path@, GitError::Checkout),
                        ]);
                    } else {
                        out.push(CheckoutStep::Directory(path.clone()));
                        assert(steps_of(out@) =~= before + seq![Step::Directory(path@)]);
                        below.checkout_into(repo, path.as_str(), depth - 1, out);
                        assert(steps_of(out@) =~= before + (seq![Step::Directory(path@)] + plan(
                            objects,
                            below@,
                            path@,
                            (depth - 1) as nat,
                        )));
                    }
                },
                Ok(GitObject::Blob(blob)) => {
                    let data = match blob.data {
                        Some(data) => data,
                        None => crate::buffer::bytes_from_vec(Vec::new()),
                    };
                    out.push(CheckoutStep::File(path, data));
                    assert(steps_of(out@) =~= before + seq![Step::File(path@, contents(data))]);
                },
                Ok(_) => {
                    out.push(CheckoutStep::Failed(path, GitError::Checkout));
                    assert(steps_of(out@) =~= before + seq![
                        Step::Failed(path@, GitError::Checkout),
                    ]);
                },
                Err(e) => {
                    out.push(CheckoutStep::Failed(path, e));
                    assert(steps_of(out@) =~= before + seq![Step::Failed(path@, e)]);
                },
            }
            proof {
                let first = steps_of(out@).skip(before.len() as int);
                assert(steps_of(out@) =~= before + first);
                assert(before + (first + plan(objects, rest.skip(1), base@, depth as nat)) =~= (
                before + first) + plan(objects, rest.skip(1), base@, depth as nat));
            }
            i += 1;
        }
        assert(self@.skip(self@.len() as int) =~= Seq::<Leaf>::empty());
        assert(steps_of(out@) + Seq::<Step>::empty() =~= steps_of(out@));
    }

    /// The steps that lay out the tree below the directory `path`: for each
    /// leaf what has to be created, or why it cannot be. Trees are entered as
    /// many levels deep as the repository stores objects.
    pub fn checkout(&self, repo: &Repository, path: &str) -> (steps: Vec<CheckoutStep>)
        ensures
            steps_of(steps@) == plan(
                stored_objects(repo.objects@),
                self@,
                path@,
                repo.objects@.len(),
            ),
    {
        let mut steps: Vec<CheckoutStep> = Vec::new();
        assert(steps_of(steps@) =~= Seq::<Step>::empty());
        self.checkout_into(repo, path, repo.objects.len(), &mut steps);
        assert(Seq::<Step>::empty() + plan(
            stored_objects(repo.objects@),
            self@,
            path@,
            repo.objects@.len(),
        ) =~= plan(stored_objects(repo.objects@), self@, path@, repo.objects@.len()));
        steps
    }
}

/// The steps that check out the commit that `commit` stands for below the
/// directory `path`.
pub fn checkout_commit(repo: &Repository, commit: &String, path: &str) -> (result: Result<
    Vec<CheckoutStep>,
    GitError,
>)
    ensures
        match commit_plan(*repo, commit@, path@) {
            Ok(steps) => result matches Ok(s) && steps_of(s@) == steps,
            Err(e) => result == Err::<Vec<CheckoutStep>, GitError>(e),
        },
{
    let sha = match object_find(repo, commit, &"commit".to_owned(), true) {
        Ok(sha) => sha,
        Err(e) => {
            return Err(e);
        },
    };
    let commit_obj = match object_read(repo, sha) {
        Ok(GitObject::Commit(obj)) => obj,
        Ok(_) => {
            return Err(GitError::Format);
        },
        Err(e) => {
            return Err(e);
        },
    };
    match commit_obj.get_and_read_tree(repo) {
        Ok(tree) => Ok(tree.checkout(repo, path)),
        Err(e) => Err(e),
    }
}

} // verus!
