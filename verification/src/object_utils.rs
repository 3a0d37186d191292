//! The object store: objects are kept as tagged bytes under the hash of those
//! bytes.
//!
//! An object is stored as the name of its kind, a space, the decimal length of
//! its payload, a NUL byte and the payload.

use crate::buffer::{
    bytes_as_slice, bytes_mut_freeze, bytes_mut_new, bytes_mut_put_slice, bytes_mut_put_u8,
    bytes_slice, contents, written,
};
use crate::error::GitError;
use crate::git_object::{
    GitBlob, GitCommit, GitObject, GitTag, GitTree, GitWriteable, Leaf, ObjectModel, TagModel,
};
use crate::key_value_list_message::parse;
use crate::lookup::first_at;
use crate::refs::{resolve, stored_refs, Ref, RefType, Reference, Target};
use crate::repository::{child_path, path_child, Repository, StoredObject};
use crate::text::{
    bytes_equal, decimal, find_byte, parse_decimal, push_decimal, read_decimal, scan_byte, trim,
    trimmed, NUL, SPACE,
};
use crate::tree_format::{frame, leaves_at, tree_payload};
use bytes::Bytes;
use sha1::{Digest, Sha1};
use vstd::hash_map::StringHashMap;
use vstd::prelude::*;
use vstd::string::StrSliceExecFns;
use vstd::utf8::encode_utf8;

verus! {

/// The SHA-1 digest of `data`, as forty lowercase hexadecimal digits.
pub uninterp spec fn sha1_hex(data: Seq<u8>) -> Seq<char>;

/// `Sha1::digest` of the `sha1` crate, formatted with `{:x}`: the digest of
/// `data` as hexadecimal text. A SHA-1 digest has twenty bytes, so the text has
/// forty characters.
#[verifier::external_body]
pub(crate) fn hash_hex(data: &[u8]) -> (hex: String)
    ensures
        hex@ == sha1_hex(data@),
        hex@.len() == 40,
{
    format!("{:x}", Sha1::digest(data))
}

/// The name of an object's kind in its header.
pub open spec fn kind_name(object: ObjectModel) -> Seq<char> {
    match object {
        ObjectModel::Commit(_) => "commit"@,
        ObjectModel::Tree(_) => "tree"@,
        ObjectModel::Tag(_) => "tag"@,
        ObjectModel::Blob(_) => "blob"@,
    }
}

/// The payload of an object.
pub open spec fn payload_of(object: ObjectModel) -> Seq<u8> {
    match object {
        ObjectModel::Commit(message) => message.serialize(),
        ObjectModel::Tree(leaves) => tree_payload(leaves),
        ObjectModel::Tag(tag) => tag.message().serialize(),
        ObjectModel::Blob(data) => data,
    }
}

/// The bytes that an object is stored as.
pub open spec fn stored_form(object: ObjectModel) -> Seq<u8> {
    encode_utf8(kind_name(object)) + seq![SPACE] + frame(payload_of(object))
}

/// The object of the kind named `kind` that `payload` stands for. A name that
/// is none of the four kinds, and a payload that cannot be read as the kind,
/// are malformed.
pub open spec fn read_payload(kind: Seq<u8>, payload: Seq<u8>) -> Result<ObjectModel, GitError> {
    if kind == encode_utf8("blob"@) {
        Ok(ObjectModel::Blob(payload))
    } else if kind == encode_utf8("commit"@) {
        match parse(payload) {
            Some(message) => Ok(ObjectModel::Commit(message)),
            None => Err(GitError::Format),
        }
    } else if kind == encode_utf8("tree"@) {
        match leaves_at(payload, 0) {
            Some(leaves) => Ok(ObjectModel::Tree(leaves)),
            None => Err(GitError::Format),
        }
    } else if kind == encode_utf8("tag"@) {
        match TagModel::of_payload(payload) {
            Some(tag) => Ok(ObjectModel::Tag(tag)),
            None => Err(GitError::Format),
        }
    } else {
        Err(GitError::Format)
    }
}

/// The object that stored bytes stand for. The kind runs to the first space
/// and the length from there to the first NUL byte; bytes without a space or
/// without a NUL byte behind it, and a length that is no run of digits, are
/// malformed. A length that differs from the number of bytes behind the NUL
/// byte breaks the integrity of the object.
pub open spec fn read_stored(s: Seq<u8>) -> Result<ObjectModel, GitError> {
    let sp = find_byte(s, 0, SPACE);
    let nul = find_byte(s, sp + 1, NUL);
    if sp >= s.len() || nul >= s.len() {
        Err(GitError::Format)
    } else {
        match parse_decimal(s.subrange(sp + 1, nul)) {
            Some(n) => if n == s.len() - (nul + 1) {
                read_payload(s.subrange(0, sp), s.skip(nul + 1))
            } else {
                Err(GitError::Integrity)
            },
            None => Err(GitError::Format),
        }
    }
}

/// The name of the kind of `obj` and its payload.
fn object_parts(obj: &GitObject) -> (parts: (String, Bytes))
    ensures
        parts.0@ == kind_name(obj@),
        contents(parts.1) == payload_of(obj@),
{
    match obj {
        GitObject::Blob(blob) => (GitBlob::format_name(), blob.serialize()),
        GitObject::Commit(commit) => (GitCommit::format_name(), commit.serialize()),
        GitObject::Tree(tree) => (GitTree::format_name(), tree.serialize()),
        GitObject::Tag(tag) => (GitTag::format_name(), tag.serialize()),
    }
}

/// The bytes of a kind's name, a space and the framed payload, where they fit
/// a buffer.
fn tagged(kind: &[u8], body: &[u8]) -> (data: Option<Bytes>)
    ensures
        match data {
            Some(d) => contents(d) == kind@ + seq![SPACE] + frame(body@) && contents(d).len()
                <= isize::MAX,
            None => (kind@ + seq![SPACE] + frame(body@)).len() > isize::MAX,
        },
{
    let mut digits: Vec<u8> = Vec::new();
    push_decimal(&mut digits, body.len());
    assert(digits@ =~= decimal(body@.len()));
    let limit: usize = isize::MAX as usize;
    if kind.len() > limit - 2 || digits.len() > limit - 2 - kind.len() || body.len() > limit - 2
        - kind.len() - digits.len() {
        return None;
    }
    let mut out = bytes_mut_new();
    bytes_mut_put_slice(&mut out, kind);
    bytes_mut_put_u8(&mut out, SPACE);
    bytes_mut_put_slice(&mut out, digits.as_slice());
    bytes_mut_put_u8(&mut out, NUL);
    bytes_mut_put_slice(&mut out, body);
    assert(written(out) =~= kind@ + seq![SPACE] + frame(body@));
    Some(bytes_mut_freeze(out))
}

/// Writes an object as the bytes that it is stored as. An object whose stored
/// form would be longer than a buffer can be is refused as malformed.
pub fn encode_object(obj: &GitObject) -> (result: Result<Bytes, GitError>)
    ensures
        match result {
            Ok(data) => contents(data) == stored_form(obj@) && stored_form(obj@).len()
                <= isize::MAX,
            Err(e) => e == GitError::Format && stored_form(obj@).len() > isize::MAX,
        },
{
    let (name, payload) = object_parts(obj);
    match tagged(name.as_str().as_bytes(), bytes_as_slice(&payload)) {
        Some(data) => Ok(data),
        None => Err(GitError::Format),
    }
}

/// Reads an object from the bytes that it is stored as.
pub fn decode_object(data: &Bytes) -> (result: Result<GitObject, GitError>)
    ensures
        match read_stored(contents(*data)) {
            Ok(object) => result matches Ok(obj) && obj@ == object,
            Err(e) => result == Err::<GitObject, GitError>(e),
        },
{
    let s = bytes_as_slice(data);
    let sp = scan_byte(s, 0, SPACE);
    if sp >= s.len() {
        return Err(GitError::Format);
    }
    let nul = scan_byte(s, sp + 1, NUL);
    if nul >= s.len() {
        return Err(GitError::Format);
    }
    let n = match read_decimal(vstd::slice::slice_subrange(s, sp + 1, nul)) {
        Some(n) => n,
        None => {
            return Err(GitError::Format);
        },
    };
    if n != s.len() - (nul + 1) {
        return Err(GitError::Integrity);
    }
    let kind = vstd::slice::slice_subrange(s, 0, sp);
    let payload = bytes_slice(data, nul + 1, s.len());
    assert(contents(payload) =~= s@.skip(nul + 1));
    if bytes_equal(kind, "blob".as_bytes()) {
        match GitBlob::deserialize(payload) {
            Ok(blob) => Ok(GitObject::Blob(blob)),
            Err(e) => Err(e),
        }
    } else if bytes_equal(kind, "commit".as_bytes()) {
        match GitCommit::deserialize(payload) {
            Ok(commit) => Ok(GitObject::Commit(commit)),
            Err(e) => Err(e),
        }
    } else if bytes_equal(kind, "tree".as_bytes()) {
        match GitTree::deserialize(payload) {
            Ok(tree) => Ok(GitObject::Tree(tree)),
            Err(e) => Err(e),
        }
    } else if bytes_equal(kind, "tag".as_bytes()) {
        match GitTag::deserialize(payload) {
            Ok(tag) => Ok(GitObject::Tag(tag)),
            Err(e) => Err(e),
        }
    } else {
        Err(GitError::Format)
    }
}

/// A stored object, as mathematics.
pub struct Stored {
    pub sha: Seq<char>,
    pub data: Seq<u8>,
}

impl View for StoredObject {
    type V = Stored;

    open spec fn view(&self) -> Stored {
        Stored { sha: self.sha@, data: contents(self.data) }
    }
}

/// The stored objects, as mathematics.
pub open spec fn stored_objects(objects: Seq<StoredObject>) -> Seq<Stored> {
    objects.map_values(|o: StoredObject| o@)
}

/// The hashes under which the objects are stored, in order.
pub open spec fn hashes_of(objects: Seq<Stored>) -> Seq<Seq<char>> {
    objects.map_values(|o: Stored| o.sha)
}

/// The bytes that are stored under `sha`: those of the first object stored
/// under it.
pub open spec fn stored_bytes(objects: Seq<Stored>, sha: Seq<char>) -> Option<Seq<u8>> {
    let i = first_at(hashes_of(objects), sha, 0);
    if i < objects.len() {
        Some(objects[i].data)
    } else {
        None
    }
}

/// The objects after `data` was written under `sha`: nothing changes where
/// something is stored under `sha`, and else the new object comes last.
pub open spec fn objects_with(objects: Seq<Stored>, sha: Seq<char>, data: Seq<u8>) -> Seq<Stored> {
    if stored_bytes(objects, sha) is Some {
        objects
    } else {
        objects.push(Stored { sha: sha, data: data })
    }
}

/// Where the object stored under `sha` stands in `objects`.
fn find_object(objects: &Vec<StoredObject>, sha: &String) -> (at: usize)
    ensures
        at == first_at(hashes_of(stored_objects(objects@)), sha@, 0),
        at <= objects@.len(),
{
    let ghost hashes = hashes_of(stored_objects(objects@));
    let mut i: usize = 0;
    while i < objects.len()
        invariant
            i <= objects@.len(),
            hashes == hashes_of(stored_objects(objects@)),
            hashes.len() == objects@.len(),
            first_at(hashes, sha@, 0) == first_at(hashes, sha@, i as int),
        decreases objects@.len() - i,
    {
        assert(hashes[i as int] == objects@[i as int].sha@);
        if objects[i].sha == *sha {
            return i;
        }
        i += 1;
    }
    i
}

/// Reads the object that is stored under `sha`.
pub fn object_read(repo: &Repository, sha: String) -> (result: Result<GitObject, GitError>)
    ensures
        match stored_bytes(stored_objects(repo.objects@), sha@) {
            Some(data) => match read_stored(data) {
                Ok(object) => result matches Ok(obj) && obj@ == object,
                Err(e) => result == Err::<GitObject, GitError>(e),
            },
            None => result == Err::<GitObject, GitError>(GitError::NotFound),
        },
{
    let at = find_object(&repo.objects, &sha);
    if at >= repo.objects.len() {
        return Err(GitError::NotFound);
    }
    assert(stored_objects(repo.objects@)[at as int] == repo.objects@[at as int]@);
    decode_object(&repo.objects[at].data)
}

/// Stores `data` under `sha`, unless something is stored under `sha` already.
pub fn store_object(repo: &mut Repository, sha: String, data: Bytes)
    ensures
        final(repo).worktree == old(repo).worktree,
        final(repo).gitdir == old(repo).gitdir,
        final(repo).conf == old(repo).conf,
        final(repo).refs == old(repo).refs,
        stored_objects(final(repo).objects@) == objects_with(
            stored_objects(old(repo).objects@),
            sha@,
            contents(data),
        ),
{
    let at = find_object(&repo.objects, &sha);
    if at >= repo.objects.len() {
        repo.objects.push(StoredObject { sha, data });
        assert(stored_objects(repo.objects@) =~= stored_objects(old(repo).objects@).push(
            Stored { sha: sha@, data: contents(data) },
        ));
    }
}

/// Computes the hash of an object, and stores the object under its hash where
/// a repository is given and nothing is stored under that hash yet.
pub fn object_write(obj: GitObject, repo_option: Option<&mut Repository>) -> (result: Result<
    String,
    GitError,
>)
    ensures
        match result {
            Ok(sha) => {
                &&& stored_form(obj@).len() <= isize::MAX
                &&& sha@ == sha1_hex(stored_form(obj@))
                &&& sha@.len() == 40
                &&& match repo_option {
                    Some(repo) => {
                        &&& final(repo).worktree == repo.worktree
                        &&& final(repo).gitdir == repo.gitdir
                        &&& final(repo).conf == repo.conf
                        &&& final(repo).refs == repo.refs
                        &&& stored_objects(final(repo).objects@) == objects_with(
                            stored_objects(repo.objects@),
                            sha@,
                            stored_form(obj@),
                        )
                    },
                    None => true,
                }
            },
            Err(e) => {
                &&& e == GitError::Format
                &&& stored_form(obj@).len() > isize::MAX
                &&& match repo_option {
                    Some(repo) => *final(repo) == *repo,
                    None => true,
                }
            },
        },
{
    let data = match encode_object(&obj) {
        Ok(data) => data,
        Err(e) => {
            return Err(e);
        },
    };
    let sha = hash_hex(bytes_as_slice(&data));
    match repo_option {
        Some(repo) => {
            store_object(repo, sha.clone(), data);
        },
        None => {},
    }
    Ok(sha)
}

/// The object that is stored under `sha`.
pub open spec fn stored_object(objects: Seq<Stored>, sha: Seq<char>) -> Result<
    ObjectModel,
    GitError,
> {
    match stored_bytes(objects, sha) {
        Some(data) => read_stored(data),
        None => Err(GitError::NotFound),
    }
}

/// The hash that the name `name` stands for, given the name without the white
/// space around it. `HEAD` stands for the hash that the reference `HEAD` leads
/// to: there is none where that reference is broken, and following it can end
/// in a cycle. Every other name stands for itself.
pub open spec fn hash_of_name(refs: Seq<Reference>, name: Seq<char>, inner: Seq<char>) -> Result<
    Seq<char>,
    GitError,
> {
    if inner == "HEAD"@ {
        match resolve(refs, "HEAD"@, refs.len()) {
            Some(Target::Direct(hash)) => Ok(hash),
            Some(_) => Err(GitError::NotFound),
            None => Err(GitError::Cycle),
        }
    } else {
        Ok(name)
    }
}

/// The hash that a name stands for. White space around the name does not
/// count in telling whether it is `HEAD`.
pub open spec fn named_hash(refs: Seq<Reference>, name: Seq<char>) -> Result<Seq<char>, GitError> {
    hash_of_name(refs, name, trimmed(name))
}

/// Finds the hash that `name` stands for, given the name without the white
/// space around it.
pub fn find_trimmed(repo: &Repository, name: &String, inner: &str) -> (result: Result<
    String,
    GitError,
>)
    ensures
        match hash_of_name(stored_refs(repo.refs@), name@, inner@) {
            Ok(hash) => result matches Ok(found) && found@ == hash,
            Err(e) => result == Err::<String, GitError>(e),
        },
{
    let head = "HEAD".to_owned();
    if inner.to_owned() == head {
        match Ref::new(head).fully_resolve(repo) {
            Ok(RefType::Direct(hash)) => Ok(hash),
            Ok(_) => Err(GitError::NotFound),
            Err(e) => Err(e),
        }
    } else {
        Ok(name.clone())
    }
}

/// Finds the hash that a name stands for. This is the one place where names
/// are resolved. The expected kind and `follow` are accepted for the callers'
/// sake and do not bear on the result.
pub fn object_find(repo: &Repository, name: &String, format: &String, follow: bool) -> (result:
    Result<String, GitError>)
    ensures
        match named_hash(stored_refs(repo.refs@), name@) {
            Ok(hash) => result matches Ok(found) && found@ == hash,
            Err(e) => result == Err::<String, GitError>(e),
        },
{
    find_trimmed(repo, name, trim(name.as_str()))
}

/// The path of the file that holds the object with the hash `sha`, inside the
/// directory `gitdir`: `objects`, the first two characters of the hash and the
/// rest of it.
pub open spec fn object_file(gitdir: Seq<char>, sha: Seq<char>) -> Seq<char> {
    child_path(
        child_path(child_path(gitdir, "objects"@), sha.subrange(0, 2)),
        sha.subrange(2, sha.len() as int),
    )
}

/// The path of the file that holds the object with the hash `sha`. A hash of
/// fewer than three characters names no file.
pub fn object_path(repo: &Repository, sha: &String) -> (path: Option<String>)
    ensures
        match path {
            Some(p) => sha@.len() > 2 && p@ == object_file(repo.gitdir@, sha@),
            None => sha@.len() <= 2,
        },
{
    let n = sha.as_str().unicode_len();
    if n <= 2 {
        return None;
    }
    let objects = path_child(repo.gitdir.as_str(), "objects");
    let fan = path_child(objects.as_str(), sha.as_str().substring_char(0, 2));
    Some(path_child(fan.as_str(), sha.as_str().substring_char(2, n)))
}

/// The path of a leaf below an optional prefix.
pub open spec fn entry_path(prefix: Option<Seq<char>>, path: Seq<char>) -> Seq<char> {
    match prefix {
        Some(p) => child_path(p, path),
        None => path,
    }
}

/// The hash of each leaf under the leaf's path. Of two leaves with one path
/// the later counts.
pub open spec fn dict_of(leaves: Seq<Leaf>, prefix: Option<Seq<char>>) -> Map<
    Seq<char>,
    Seq<char>,
>
    decreases leaves.len(),
{
    if leaves.len() == 0 {
        Map::empty()
    } else {
        dict_of(leaves.drop_last(), prefix).insert(
            entry_path(prefix, leaves.last().path),
            leaves.last().sha,
        )
    }
}

/// The leaves of the tree that `name` stands for. A name that stands for no
/// hash, or for an object that is no tree or cannot be read, has none.
pub open spec fn named_tree(
    refs: Seq<Reference>,
    objects: Seq<Stored>,
    name: Seq<char>,
) -> Seq<Leaf> {
    match named_hash(refs, name) {
        Ok(sha) => match stored_object(objects, sha) {
            Ok(ObjectModel::Tree(leaves)) => leaves,
            _ => Seq::empty(),
        },
        Err(_) => Seq::empty(),
    }
}

/// The text of each value of a map.
pub open spec fn texts_of(dict: Map<Seq<char>, String>) -> Map<Seq<char>, Seq<char>> {
    dict.map_values(|s: String| s@)
}

/// The tree that `name` stands for, or a tree without leaves where it stands
/// for none.
pub fn read_named_tree(repo: &Repository, name: &String) -> (tree: GitTree)
    ensures
        tree@ == named_tree(stored_refs(repo.refs@), stored_objects(repo.objects@), name@),
{
    let tree_sha = match object_find(repo, name, &"tree".to_owned(), true) {
        Ok(sha) => sha,
        Err(_) => {
            return GitTree::new();
        },
    };
    match object_read(repo, tree_sha) {
        Ok(GitObject::Tree(tree)) => tree,
        _ => GitTree::new(),
    }
}

/// The hash of each leaf of `tree` under the leaf's path below `prefix`.
pub fn leaves_to_dict(tree: &GitTree, prefix: Option<&str>) -> (dict: StringHashMap<String>)
    ensures
        texts_of(dict@) == dict_of(
            tree@,
            match prefix {
                Some(p) => Some(p@),
                None => None,
            },
        ),
{
    let mut dict: StringHashMap<String> = StringHashMap::new();
    let ghost before = match prefix {
        Some(p) => Some(p@),
        None => None,
    };
    assert(texts_of(dict@) =~= Map::<Seq<char>, Seq<char>>::empty());
    let mut i: usize = 0;
    assert(tree@.take(0) =~= Seq::<Leaf>::empty());
    while i < tree.items.len()
        invariant
            i <= tree.items@.len(),
            tree@.len() == tree.items@.len(),
            before == match prefix {
                Some(p) => Some(p@),
                None => None,
            },
            texts_of(dict@) == dict_of(tree@.take(i as int), before),
        decreases tree.items@.len() - i,
    {
        let leaf = &tree.items[i];
        assert(tree@[i as int] == leaf@);
        let path = match prefix {
            Some(p) => path_child(p, leaf.path.as_str()),
            None => leaf.path.clone(),
        };
        let ghost was = dict@;
        dict.insert(path, leaf.sha.clone());
        proof {
            assert(tree@.take(i + 1).drop_last() =~= tree@.take(i as int));
            assert(texts_of(dict@) =~= texts_of(was).insert(
                entry_path(before, leaf@.path),
                leaf@.sha,
            ));
        }
        i += 1;
    }
    assert(tree@.take(tree@.len() as int) =~= tree@);
    dict
}

/// The hash of each leaf of the tree that `name` stands for, under the leaf's
/// path below `prefix`.
pub fn tree_to_dict(repo: &Repository, name: &String, prefix: Option<&str>) -> (dict:
    StringHashMap<String>)
    ensures
        texts_of(dict@) == dict_of(
            named_tree(stored_refs(repo.refs@), stored_objects(repo.objects@), name@),
            match prefix {
                Some(p) => Some(p@),
                None => None,
            },
        ),
{
    let tree = read_named_tree(repo, name);
    leaves_to_dict(&tree, prefix)
}

} // verus!
