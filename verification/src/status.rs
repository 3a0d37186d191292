//! What differs between the tree of `HEAD` and the staging index.

use crate::git_object::{GitTree, Leaf};
use crate::index::{Index, IndexEntry};
use crate::object_utils::{
    dict_of, leaves_to_dict, named_tree, read_named_tree, stored_objects, texts_of,
};
use crate::refs::stored_refs;
use crate::repository::Repository;
use vstd::prelude::*;

verus! {

/// One difference between a tree and the index.
#[derive(Debug, Clone, PartialEq, Eq)]
pub enum StatusChange {
    /// The file is staged with another hash than the tree has for it.
    Modified(String),
    /// The file is staged and the tree does not have it.
    Added(String),
    /// The tree has the file and it is not staged.
    Deleted(String),
}

/// One difference, as mathematics.
pub enum Change {
    Modified(Seq<char>),
    Added(Seq<char>),
    Deleted(Seq<char>),
}

impl View for StatusChange {
    type V = Change;

    open spec fn view(&self) -> Change {
        match self {
            StatusChange::Modified(name) => Change::Modified(name@),
            StatusChange::Added(name) => Change::Added(name@),
            StatusChange::Deleted(name) => Change::Deleted(name@),
        }
    }
}

/// The changes, as mathematics.
pub open spec fn changes_of(changes: Seq<StatusChange>) -> Seq<Change> {
    changes.map_values(|c: StatusChange| c@)
}

/// What the staged files change, in the order in which they are staged: a
/// file that `head` has with another hash is modified, and a file that `head`
/// does not have is added.
pub open spec fn staged_changes(head: Map<Seq<char>, Seq<char>>, entries: Seq<IndexEntry>) -> Seq<
    Change,
>
    decreases entries.len(),
{
    if entries.len() == 0 {
        Seq::empty()
    } else {
        let before = staged_changes(head, entries.drop_last());
        let name = entries.last().name@;
        if !head.contains_key(name) {
            before.push(Change::Added(name))
        } else if head[name] != entries.last().sha@ {
            before.push(Change::Modified(name))
        } else {
            before
        }
    }
}

/// Whether a file of the name `name` is staged.
pub open spec fn is_staged(entries: Seq<IndexEntry>, name: Seq<char>) -> bool {
    exists|i: int| 0 <= i < entries.len() && (#[trigger] entries[i]).name@ == name
}

/// The leaves that are not staged, as deletions, in the order of the leaves.
pub open spec fn deleted_changes(leaves: Seq<Leaf>, entries: Seq<IndexEntry>) -> Seq<Change>
    decreases leaves.len(),
{
    if leaves.len() == 0 {
        Seq::empty()
    } else if is_staged(entries, leaves.last().path) {
        deleted_changes(leaves.drop_last(), entries)
    } else {
        deleted_changes(leaves.drop_last(), entries).push(Change::Deleted(leaves.last().path))
    }
}

/// What differs between the leaves of a tree and the staged files: first what
/// the staged files change, then what the tree has and the index has not.
pub open spec fn status_of(leaves: Seq<Leaf>, entries: Seq<IndexEntry>) -> Seq<Change> {
    staged_changes(dict_of(leaves, None), entries) + deleted_changes(leaves, entries)
}

/// Whether a file of the name `name` is staged in `index`.
fn has_entry(index: &Index, name: &String) -> (staged: bool)
    ensures
        staged == is_staged(index.entries@, name@),
{
    let mut i: usize = 0;
    while i < index.entries.len()
        invariant
            i <= index.entries@.len(),
            forall|j: int| 0 <= j < i ==> (#[trigger] index.entries@[j]).name@ != name@,
        decreases index.entries@.len() - i,
    {
        if index.entries[i].name == *name {
            return true;
        }
        i += 1;
    }
    false
}

/// What differs between a tree and the staged files.
pub fn tree_index_changes(tree: &GitTree, index: &Index) -> (changes: Vec<StatusChange>)
    ensures
        changes_of(changes@) == status_of(tree@, index.entries@),
{
    let head = leaves_to_dict(tree, None);
    let ghost dict = dict_of(tree@, None);
    let mut changes: Vec<StatusChange> = Vec::new();
    let mut i: usize = 0;
    assert(index.entries@.take(0) =~= Seq::<IndexEntry>::empty());
    assert(changes_of(changes@) =~= Seq::<Change>::empty());
    while i < index.entries.len()
        invariant
            i <= index.entries@.len(),
            texts_of(head@) == dict,
            changes_of(changes@) == staged_changes(dict, index.entries@.take(i as int)),
        decreases index.entries@.len() - i,
    {
        let entry = &index.entries[i];
        let ghost before = changes_of(changes@);
        assert(index.entries@.take(i + 1).drop_last() =~= index.entries@.take(i as int));
        assert(index.entries@.take(i + 1).last() == *entry);
        assert(dict.contains_key(entry.name@) == head@.contains_key(entry.name@));
        match head.get(entry.name.as_str()) {
            Some(sha) => {
                assert(dict[entry.name@] == sha@);
                if *sha != entry.sha {
                    changes.push(StatusChange::Modified(entry.name.clone()));
                    assert(changes_of(changes@) =~= before.push(Change::Modified(entry.name@)));
                }
            },
            None => {
                changes.push(StatusChange::Added(entry.name.clone()));
                assert(changes_of(changes@) =~= before.push(Change::Added(entry.name@)));
            },
        }
        i += 1;
    }
    assert(index.entries@.take(index.entries@.len() as int) =~= index.entries@);
    let ghost staged = changes_of(changes@);
    let mut k: usize = 0;
    assert(tree@.take(0) =~= Seq::<Leaf>::empty());
    assert(staged + Seq::<Change>::empty() =~= staged);
    while k < tree.items.len()
        invariant
            k <= tree.items@.len(),
            tree@.len() == tree.items@.len(),
            changes_of(changes@) == staged + deleted_changes(
                tree@.take(k as int),
                index.entries@,
            ),
        decreases tree.items@.len() - k,
    {
        let leaf = &tree.items[k];
        let ghost before = changes_of(changes@);
        assert(tree@.take(k + 1).drop_last() =~= tree@.take(k as int));
        assert(tree@.take(k + 1).last() == leaf@);
        if !has_entry(index, &leaf.path) {
            changes.push(StatusChange::Deleted(leaf.path.clone()));
            assert(changes_of(changes@) =~= before.push(Change::Deleted(leaf@.path)));
            assert(before.push(Change::Deleted(leaf@.path)) =~= staged + deleted_changes(
                tree@.take(k as int),
                index.entries@,
            ).push(Change::Deleted(leaf@.path)));
        }
        k += 1;
    }
    assert(tree@.take(tree@.len() as int) =~= tree@);
    changes
}

/// What differs between the tree that `HEAD` stands for and the staged files.
pub fn head_index_changes(repo: &Repository, index: &Index) -> (changes: Vec<StatusChange>)
    ensures
        changes_of(changes@) == status_of(
            named_tree(stored_refs(repo.refs@), stored_objects(repo.objects@), "HEAD"@),
            index.entries@,
        ),
{
    let tree = read_named_tree(repo, &"HEAD".to_owned());
    tree_index_changes(&tree, index)
}

} // verus!
