//! The four kinds of object and their payloads.
//!
//! A blob's payload is its bytes. A commit's payload is a key-value message.
//! A tag's payload is a key-value message with the keys `object`, `tag` and,
//! for an annotated tag, `tagger`. A tree's payload is the run of its leaf
//! records in canonical order.

use crate::buffer::{bytes_as_slice, bytes_from_vec, contents};
use crate::error::GitError;
use crate::key_value_list_message::{
    field_text, is_field, parse, text_value, KeyValuePairEntry, KeyValuePairKey,
    KeyValuePairList, Message,
};
use crate::object_utils::{
    named_hash, object_find, object_read, object_write, objects_with, sha1_hex, stored_form,
    stored_object, stored_objects,
};
use crate::refs::{refs_with, stored_refs, Ref, RefType, Reference, Target};
use crate::repository::Repository;
use crate::text::utf8_to_string;
use crate::tree_format::{leaves_at, tree_payload};
use bytes::Bytes;
use vstd::prelude::*;
use vstd::string::StringExecFns;
use vstd::utf8::{decode_utf8, encode_utf8, valid_utf8};

verus! {

/// One entry of a tree: a file mode, a path, the hash of the child object and
/// a sort key.
#[derive(Debug, Clone, PartialEq, Eq)]
pub struct GitLeaf {
    pub mode: String,
    pub path: String,
    pub sha: String,
    pub sort_key: String,
}

/// A tree: the leaves in the order in which they were added.
#[derive(Debug, Clone, PartialEq, Eq)]
pub struct GitTree {
    pub items: Vec<GitLeaf>,
}

/// A leaf, as mathematics.
pub struct Leaf {
    pub mode: Seq<char>,
    pub path: Seq<char>,
    pub sha: Seq<char>,
    pub sort_key: Seq<char>,
}

impl View for GitLeaf {
    type V = Leaf;

    open spec fn view(&self) -> Leaf {
        Leaf { mode: self.mode@, path: self.path@, sha: self.sha@, sort_key: self.sort_key@ }
    }
}

impl View for GitTree {
    type V = Seq<Leaf>;

    open spec fn view(&self) -> Seq<Leaf> {
        self.items@.map_values(|leaf: GitLeaf| leaf@)
    }
}

impl GitTree {
    /// Adds a leaf to the tree.
    pub fn add(&mut self, git_leaf: GitLeaf)
        ensures
            final(self)@ == old(self)@.push(git_leaf@),
    {
        self.items.push(git_leaf);
        assert(self@ =~= old(self)@.push(git_leaf@));
    }
}

/// A blob: bytes that the store does not look into. A blob without data
/// stands for no bytes.
#[derive(Debug, Clone, PartialEq)]
pub struct GitBlob {
    pub data: Option<Bytes>,
}

/// A commit: a key-value message.
#[derive(Debug, Clone, PartialEq)]
pub struct GitCommit {
    pub data: KeyValuePairList,
}

/// A tag: a name for an object, either as a reference alone or as an object
/// of its own that also names the tagger.
#[derive(Debug, Clone, PartialEq)]
pub struct GitTag {
    data: GitTagData,
}

#[derive(Debug, Clone, PartialEq)]
enum GitTagData {
    Object { tag: String, object: String, tagger: String },
    Lightweight { tag: String, object: String },
}

/// An object of one of the four kinds.
#[derive(Debug, Clone, PartialEq)]
pub enum GitObject {
    Commit(GitCommit),
    Tree(GitTree),
    Tag(GitTag),
    Blob(GitBlob),
}

/// A tag, as mathematics.
pub enum TagModel {
    Object { tag: Seq<char>, object: Seq<char>, tagger: Seq<char> },
    Lightweight { tag: Seq<char>, object: Seq<char> },
}

/// An object, as mathematics.
pub enum ObjectModel {
    Commit(Message),
    Tree(Seq<Leaf>),
    Tag(TagModel),
    Blob(Seq<u8>),
}

impl View for GitBlob {
    type V = Seq<u8>;

    open spec fn view(&self) -> Seq<u8> {
        match self.data {
            Some(b) => contents(b),
            None => Seq::empty(),
        }
    }
}

impl View for GitCommit {
    type V = Message;

    open spec fn view(&self) -> Message {
        self.data@
    }
}

impl View for GitTag {
    type V = TagModel;

    closed spec fn view(&self) -> TagModel {
        match self.data {
            GitTagData::Object { tag, object, tagger } => TagModel::Object {
                tag: tag@,
                object: object@,
                tagger: tagger@,
            },
            GitTagData::Lightweight { tag, object } => TagModel::Lightweight {
                tag: tag@,
                object: object@,
            },
        }
    }
}

impl View for GitObject {
    type V = ObjectModel;

    open spec fn view(&self) -> ObjectModel {
        match self {
            GitObject::Commit(c) => ObjectModel::Commit(c@),
            GitObject::Tree(t) => ObjectModel::Tree(t@),
            GitObject::Tag(t) => ObjectModel::Tag(t@),
            GitObject::Blob(b) => ObjectModel::Blob(b@),
        }
    }
}

impl TagModel {
    /// The name of the tag.
    pub open spec fn tag(self) -> Seq<char> {
        match self {
            TagModel::Object { tag, .. } => tag,
            TagModel::Lightweight { tag, .. } => tag,
        }
    }

    /// The hash of the object that the tag names.
    pub open spec fn object(self) -> Seq<char> {
        match self {
            TagModel::Object { object, .. } => object,
            TagModel::Lightweight { object, .. } => object,
        }
    }

    /// The message that a tag is written as: the keys `object` and `tag`, and
    /// for an annotated tag the key `tagger`, each with one value.
    pub open spec fn message(self) -> Message {
        let base = Message::empty().with_pair("object"@, encode_utf8(self.object())).with_pair(
            "tag"@,
            encode_utf8(self.tag()),
        );
        match self {
            TagModel::Object { tagger, .. } => base.with_pair("tagger"@, encode_utf8(tagger)),
            TagModel::Lightweight { .. } => base,
        }
    }

    /// The tag that a message stands for: a message without a body whose keys
    /// are `object` and `tag`, or `object`, `tag` and `tagger`, in that order,
    /// each with one value that is valid UTF-8. Any other message stands for
    /// none.
    pub open spec fn of_message(m: Message) -> Option<TagModel> {
        if m.body is Some {
            None
        } else if m.headers.len() == 2 && is_field(m.headers[0], "object"@) && is_field(
            m.headers[1],
            "tag"@,
        ) {
            Some(
                TagModel::Lightweight {
                    tag: decode_utf8(m.headers[1].values[0]),
                    object: decode_utf8(m.headers[0].values[0]),
                },
            )
        } else if m.headers.len() == 3 && is_field(m.headers[0], "object"@) && is_field(
            m.headers[1],
            "tag"@,
        ) && is_field(m.headers[2], "tagger"@) {
            Some(
                TagModel::Object {
                    tag: decode_utf8(m.headers[1].values[0]),
                    object: decode_utf8(m.headers[0].values[0]),
                    tagger: decode_utf8(m.headers[2].values[0]),
                },
            )
        } else {
            None
        }
    }

    /// The tag that a payload stands for.
    pub open spec fn of_payload(payload: Seq<u8>) -> Option<TagModel> {
        match parse(payload) {
            Some(m) => TagModel::of_message(m),
            None => None,
        }
    }
}

/// What can be written as a payload and read from one.
pub trait GitWriteable: Sized {
    /// The name of the kind in an object's header.
    spec fn format_text() -> Seq<char>;

    /// Whether the value is the empty value of its kind.
    spec fn is_new(&self) -> bool;

    /// The payload that the value is written as.
    spec fn payload(&self) -> Seq<u8>;

    /// Whether a payload can be read as a value of this kind.
    spec fn readable(payload: Seq<u8>) -> bool;

    /// Whether `value` is what `payload` is read as.
    spec fn read_as(payload: Seq<u8>, value: &Self) -> bool;

    /// The empty value of the kind.
    fn new() -> (value: Self)
        ensures
            value.is_new(),
    ;

    /// The name of the kind in an object's header.
    fn format_name() -> (name: String)
        ensures
            name@ == Self::format_text(),
    ;

    /// Writes the value as a payload.
    fn serialize(&self) -> (payload: Bytes)
        ensures
            contents(payload) == self.payload(),
    ;

    /// Reads a value from a payload. A payload that cannot be read as a value
    /// of this kind is refused.
    fn deserialize(data: Bytes) -> (result: Result<Self, GitError>)
        ensures
            match result {
                Ok(value) => Self::readable(contents(data)) && Self::read_as(
                    contents(data),
                    &value,
                ),
                Err(e) => !Self::readable(contents(data)) && e == GitError::Format,
            },
    ;

    /// The value that `data` is read as, or the empty value where there is no
    /// data.
    fn from(data: Option<Bytes>) -> (result: Result<Self, GitError>)
        ensures
            match data {
                Some(d) => match result {
                    Ok(value) => Self::readable(contents(d)) && Self::read_as(contents(d), &value),
                    Err(e) => !Self::readable(contents(d)) && e == GitError::Format,
                },
                None => result matches Ok(value) && value.is_new(),
            },
    {
        match data {
            None => Ok(Self::new()),
            Some(d) => Self::deserialize(d),
        }
    }
}

impl GitWriteable for GitBlob {
    open spec fn format_text() -> Seq<char> {
        "blob"@
    }

    open spec fn is_new(&self) -> bool {
        self.data is None
    }

    open spec fn payload(&self) -> Seq<u8> {
        self@
    }

    open spec fn readable(payload: Seq<u8>) -> bool {
        true
    }

    open spec fn read_as(payload: Seq<u8>, value: &Self) -> bool {
        value@ == payload
    }

    fn new() -> (value: GitBlob) {
        GitBlob { data: None }
    }

    fn format_name() -> (name: String) {
        "blob".to_owned()
    }

    fn serialize(&self) -> (payload: Bytes) {
        match &self.data {
            Some(b) => b.clone(),
            None => bytes_from_vec(Vec::new()),
        }
    }

    fn deserialize(data: Bytes) -> (result: Result<GitBlob, GitError>) {
        Ok(GitBlob { data: Some(data) })
    }
}

impl GitWriteable for GitCommit {
    open spec fn format_text() -> Seq<char> {
        "commit"@
    }

    open spec fn is_new(&self) -> bool {
        self@ == Message::empty()
    }

    open spec fn payload(&self) -> Seq<u8> {
        self@.serialize()
    }

    open spec fn readable(payload: Seq<u8>) -> bool {
        parse(payload) is Some
    }

    open spec fn read_as(payload: Seq<u8>, value: &Self) -> bool {
        parse(payload) == Some(value@)
    }

    fn new() -> (value: GitCommit) {
        GitCommit { data: KeyValuePairList::new() }
    }

    fn format_name() -> (name: String) {
        "commit".to_owned()
    }

    fn serialize(&self) -> (payload: Bytes) {
        self.data.into_bytes()
    }

    fn deserialize(data: Bytes) -> (result: Result<GitCommit, GitError>) {
        match KeyValuePairList::from(data) {
            Ok(list) => Ok(GitCommit { data: list }),
            Err(_) => Err(GitError::Format),
        }
    }
}

impl GitWriteable for GitTree {
    open spec fn format_text() -> Seq<char> {
        "tree"@
    }

    open spec fn is_new(&self) -> bool {
        self@ == Seq::<Leaf>::empty()
    }

    open spec fn payload(&self) -> Seq<u8> {
        tree_payload(self@)
    }

    open spec fn readable(payload: Seq<u8>) -> bool {
        leaves_at(payload, 0) is Some
    }

    open spec fn read_as(payload: Seq<u8>, value: &Self) -> bool {
        leaves_at(payload, 0) == Some(value@)
    }

    fn new() -> (value: GitTree) {
        let value = GitTree { items: Vec::new() };
        assert(value@ =~= Seq::<Leaf>::empty());
        value
    }

    fn format_name() -> (name: String) {
        "tree".to_owned()
    }

    fn serialize(&self) -> (payload: Bytes) {
        bytes_from_vec(self.payload())
    }

    fn deserialize(data: Bytes) -> (result: Result<GitTree, GitError>) {
        match GitTree::read_payload(bytes_as_slice(&data)) {
            Some(tree) => Ok(tree),
            None => Err(GitError::Format),
        }
    }
}

impl GitWriteable for GitTag {
    open spec fn format_text() -> Seq<char> {
        "tag"@
    }

    open spec fn is_new(&self) -> bool {
        self@ == (TagModel::Lightweight { tag: Seq::empty(), object: Seq::empty() })
    }

    open spec fn payload(&self) -> Seq<u8> {
        self@.message().serialize()
    }

    open spec fn readable(payload: Seq<u8>) -> bool {
        TagModel::of_payload(payload) is Some
    }

    open spec fn read_as(payload: Seq<u8>, value: &Self) -> bool {
        TagModel::of_payload(payload) == Some(value@)
    }

    fn new() -> (value: GitTag) {
        GitTag { data: GitTagData::Lightweight { tag: String::new(), object: String::new() } }
    }

    fn format_name() -> (name: String) {
        "tag".to_owned()
    }

    fn serialize(&self) -> (payload: Bytes) {
        let mut list = KeyValuePairList::new();
        match &self.data {
            GitTagData::Object { tag, object, tagger } => {
                list.insert_pair("object".to_owned(), text_value(object));
                list.insert_pair("tag".to_owned(), text_value(tag));
                list.insert_pair("tagger".to_owned(), text_value(tagger));
            },
            GitTagData::Lightweight { tag, object } => {
                list.insert_pair("object".to_owned(), text_value(object));
                list.insert_pair("tag".to_owned(), text_value(tag));
            },
        }
        list.into_bytes()
    }

    fn deserialize(data: Bytes) -> (result: Result<GitTag, GitError>) {
        let list = match KeyValuePairList::from(data) {
            Ok(list) => list,
            Err(_) => {
                return Err(GitError::Format);
            },
        };
        if list.contents.is_some() || list.data.len() < 2 || list.data.len() > 3 {
            return Err(GitError::Format);
        }
        let object = match field_text(&list, 0, "object") {
            Some(text) => text,
            None => {
                return Err(GitError::Format);
            },
        };
        let tag = match field_text(&list, 1, "tag") {
            Some(text) => text,
            None => {
                return Err(GitError::Format);
            },
        };
        if list.data.len() == 2 {
            return Ok(GitTag { data: GitTagData::Lightweight { tag, object } });
        }
        match field_text(&list, 2, "tagger") {
            Some(tagger) => Ok(GitTag { data: GitTagData::Object { tag, object, tagger } }),
            None => Err(GitError::Format),
        }
    }
}

/// The hash of the tree of a commit: the one value of the key `tree`, where
/// it is valid UTF-8.
pub open spec fn tree_hash(message: Message) -> Option<Seq<char>> {
    match message.values("tree"@) {
        Some(values) => if values.len() == 1 && valid_utf8(values[0]) {
            Some(decode_utf8(values[0]))
        } else {
            None
        },
        None => None,
    }
}

impl GitCommit {
    /// The hash of the commit's tree. There is none where the commit has no
    /// key `tree`, more than one value for it, or a value that is no text.
    pub fn get_tree_string(&self) -> (hash: Option<String>)
        ensures
            match tree_hash(self@) {
                Some(text) => hash matches Some(h) && h@ == text,
                None => hash is None,
            },
    {
        match self.data.get(KeyValuePairKey::Key("tree".to_owned())) {
            Some(KeyValuePairEntry::Singleton(tree)) => utf8_to_string(bytes_as_slice(&tree)),
            _ => None,
        }
    }

    /// Reads the commit's tree from the repository. A commit without a tree
    /// hash finds nothing, and an object under that hash that is no tree is
    /// malformed.
    pub fn get_and_read_tree(&self, repo: &Repository) -> (result: Result<GitTree, GitError>)
        ensures
            match tree_hash(self@) {
                Some(sha) => match stored_object(stored_objects(repo.objects@), sha) {
                    Ok(ObjectModel::Tree(leaves)) => result matches Ok(tree) && tree@ == leaves,
                    Ok(_) => result == Err::<GitTree, GitError>(GitError::Format),
                    Err(e) => result == Err::<GitTree, GitError>(e),
                },
                None => result == Err::<GitTree, GitError>(GitError::NotFound),
            },
    {
        let sha = match self.get_tree_string() {
            Some(sha) => sha,
            None => {
                return Err(GitError::NotFound);
            },
        };
        match object_read(repo, sha) {
            Ok(GitObject::Tree(tree)) => Ok(tree),
            Ok(_) => Err(GitError::Format),
            Err(e) => Err(e),
        }
    }
}

/// The name of the reference of the tag `tag`.
pub open spec fn tag_ref_name(tag: Seq<char>) -> Seq<char> {
    "refs/tags/"@ + tag
}

impl GitTag {
    /// A tag that is a reference alone: `tag` names the object that `object`
    /// stands for.
    pub fn new_lightweight(tag: String, object: String, repo: &Repository) -> (result: Result<
        Self,
        GitError,
    >)
        ensures
            match named_hash(stored_refs(repo.refs@), object@) {
                Ok(sha) => result matches Ok(t) && t@ == (TagModel::Lightweight {
                    tag: tag@,
                    object: sha,
                }),
                Err(e) => result == Err::<Self, GitError>(e),
            },
    {
        match object_find(repo, &object, &String::new(), true) {
            Ok(sha) => Ok(GitTag { data: GitTagData::Lightweight { tag, object: sha } }),
            Err(e) => Err(e),
        }
    }

    /// A tag that is an object of its own: `tag` names the object that
    /// `object` stands for, and the library signs as the tagger.
    pub fn new_object(tag: String, object: String, repo: &Repository) -> (result: Result<
        Self,
        GitError,
    >)
        ensures
            match named_hash(stored_refs(repo.refs@), object@) {
                Ok(sha) => result matches Ok(t) && t@ == (TagModel::Object {
                    tag: tag@,
                    object: sha,
                    tagger: "rust_git <test@example.com>"@,
                }),
                Err(e) => result == Err::<Self, GitError>(e),
            },
    {
        match object_find(repo, &object, &String::new(), true) {
            Ok(sha) => Ok(
                GitTag {
                    data: GitTagData::Object {
                        tag,
                        object: sha,
                        tagger: "rust_git <test@example.com>".to_owned(),
                    },
                },
            ),
            Err(e) => Err(e),
        }
    }

    /// The name of the tag.
    pub fn tag(&self) -> (name: &String)
        ensures
            name@ == self@.tag(),
    {
        match &self.data {
            GitTagData::Object { tag, .. } => tag,
            GitTagData::Lightweight { tag, .. } => tag,
        }
    }

    /// The hash of the object that the tag names.
    pub fn object(&self) -> (hash: &String)
        ensures
            hash@ == self@.object(),
    {
        match &self.data {
            GitTagData::Object { object, .. } => object,
            GitTagData::Lightweight { object, .. } => object,
        }
    }

    /// Who made the tag, where the tag is an object of its own.
    pub fn tagger(&self) -> (who: Option<&String>)
        ensures
            match self@ {
                TagModel::Object { tagger, .. } => who matches Some(t) && t@ == tagger,
                TagModel::Lightweight { .. } => who is None,
            },
    {
        match &self.data {
            GitTagData::Object { tagger, .. } => Some(tagger),
            GitTagData::Lightweight { .. } => None,
        }
    }

    /// A copy of the tag.
    pub fn duplicate(&self) -> (copy: Self)
        ensures
            copy@ == self@,
    {
        match &self.data {
            GitTagData::Object { tag, object, tagger } => GitTag {
                data: GitTagData::Object {
                    tag: tag.clone(),
                    object: object.clone(),
                    tagger: tagger.clone(),
                },
            },
            GitTagData::Lightweight { tag, object } => GitTag {
                data: GitTagData::Lightweight { tag: tag.clone(), object: object.clone() },
            },
        }
    }

    /// Stores the reference `refs/tags/` followed by `tag`, with `sha` as its
    /// direct target.
    fn write_reference(tag: &String, sha: String, repo: &mut Repository) -> (result: Result<
        (),
        GitError,
    >)
        ensures
            result is Ok,
            final(repo).worktree == old(repo).worktree,
            final(repo).gitdir == old(repo).gitdir,
            final(repo).conf == old(repo).conf,
            final(repo).objects == old(repo).objects,
            stored_refs(final(repo).refs@) == refs_with(
                stored_refs(old(repo).refs@),
                Reference { name: tag_ref_name(tag@), target: Some(Target::Direct(sha@)) },
            ),
    {
        let name = "refs/tags/".to_owned().concat(tag.as_str());
        let reference = Ref { name, target: Some(RefType::Direct(sha)) };
        reference.write(repo)
    }

    /// Stores a lightweight tag: the reference of the tag, with the tagged
    /// object as its direct target.
    fn write_lightweight(&self, tag: &String, object: &String, repo: &mut Repository) -> (result:
        Result<(), GitError>)
        ensures
            result is Ok,
            final(repo).worktree == old(repo).worktree,
            final(repo).gitdir == old(repo).gitdir,
            final(repo).conf == old(repo).conf,
            final(repo).objects == old(repo).objects,
            stored_refs(final(repo).refs@) == refs_with(
                stored_refs(old(repo).refs@),
                Reference { name: tag_ref_name(tag@), target: Some(Target::Direct(object@)) },
            ),
    {
        GitTag::write_reference(tag, object.clone(), repo)
    }

    /// Stores an annotated tag: the tag as an object, and the reference of the
    /// tag with that object as its direct target.
    fn write_object(&self, tag: &String, repo: &mut Repository) -> (result: Result<(), GitError>)
        ensures
            final(repo).worktree == old(repo).worktree,
            final(repo).gitdir == old(repo).gitdir,
            final(repo).conf == old(repo).conf,
            match result {
                Ok(()) => {
                    let form = stored_form(ObjectModel::Tag(self@));
                    &&& form.len() <= isize::MAX
                    &&& stored_objects(final(repo).objects@) == objects_with(
                        stored_objects(old(repo).objects@),
                        sha1_hex(form),
                        form,
                    )
                    &&& stored_refs(final(repo).refs@) == refs_with(
                        stored_refs(old(repo).refs@),
                        Reference {
                            name: tag_ref_name(tag@),
                            target: Some(Target::Direct(sha1_hex(form))),
                        },
                    )
                },
                Err(e) => {
                    &&& e == GitError::Format
                    &&& stored_form(ObjectModel::Tag(self@)).len() > isize::MAX
                    &&& final(repo).objects == old(repo).objects
                    &&& final(repo).refs == old(repo).refs
                },
            },
    {
        match object_write(GitObject::Tag(self.duplicate()), Some(repo)) {
            Ok(tag_sha) => GitTag::write_reference(tag, tag_sha, repo),
            Err(e) => Err(e),
        }
    }

    /// Stores the tag in the repository. A lightweight tag is stored as its
    /// reference, which points at the tagged object. An annotated tag is
    /// stored as an object, and its reference points at that object.
    pub fn write(&self, repo: &mut Repository) -> (result: Result<(), GitError>)
        ensures
            final(repo).worktree == old(repo).worktree,
            final(repo).gitdir == old(repo).gitdir,
            final(repo).conf == old(repo).conf,
            match self@ {
                TagModel::Lightweight { tag, object } => {
                    &&& result is Ok
                    &&& final(repo).objects == old(repo).objects
                    &&& stored_refs(final(repo).refs@) == refs_with(
                        stored_refs(old(repo).refs@),
                        Reference { name: tag_ref_name(tag), target: Some(Target::Direct(object)) },
                    )
                },
                TagModel::Object { tag, .. } => match result {
                    Ok(()) => {
                        let form = stored_form(ObjectModel::Tag(self@));
                        &&& form.len() <= isize::MAX
                        &&& stored_objects(final(repo).objects@) == objects_with(
                            stored_objects(old(repo).objects@),
                            sha1_hex(form),
                            form,
                        )
                        &&& stored_refs(final(repo).refs@) == refs_with(
                            stored_refs(old(repo).refs@),
                            Reference {
                                name: tag_ref_name(tag),
                                target: Some(Target::Direct(sha1_hex(form))),
                            },
                        )
                    },
                    Err(e) => {
                        &&& e == GitError::Format
                        &&& stored_form(ObjectModel::Tag(self@)).len() > isize::MAX
                        &&& final(repo).objects == old(repo).objects
                        &&& final(repo).refs == old(repo).refs
                    },
                },
            },
    {
        match &self.data {
            GitTagData::Object { tag, .. } => self.write_object(tag, repo),
            GitTagData::Lightweight { tag, object } => self.write_lightweight(tag, object, repo),
        }
    }
}

} // verus!
