//! References: names for objects, directly or by way of other references.
//!
//! A reference is kept as a key-value message: the key `name` with the name
//! of the reference, and for its target one of the keys `direct`, `indirect`
//! and `broken`.

use crate::buffer::{bytes_as_slice, contents};
use crate::error::GitError;
use crate::key_value_list_message::{
    field_text, is_field, parse, text_value, KeyValuePairList, Message,
};
use crate::lookup::first_at;
use crate::ref_laws::lemma_cycle_is_real;
use crate::repository::Repository;
use crate::text::strip_prefix;
use bytes::Bytes;
use vstd::prelude::*;
use vstd::utf8::{decode_utf8, encode_utf8};

verus! {

/// What a reference points at.
#[derive(Debug, Clone, PartialEq, Eq)]
pub enum RefType {
    /// The hash of an object.
    Direct(String),
    /// The name of another reference.
    Indirect(String),
    /// Nothing: the reference that was named is not stored.
    Broken,
}

/// A reference: a name and, once one was given, a target.
#[derive(Debug, Clone, PartialEq, Eq)]
pub struct Ref {
    pub name: String,
    pub target: Option<RefType>,
}

/// What a reference points at, as mathematics.
pub enum Target {
    Direct(Seq<char>),
    Indirect(Seq<char>),
    Broken,
}

/// A reference, as mathematics.
pub struct Reference {
    pub name: Seq<char>,
    pub target: Option<Target>,
}

impl View for RefType {
    type V = Target;

    open spec fn view(&self) -> Target {
        match self {
            RefType::Direct(hash) => Target::Direct(hash@),
            RefType::Indirect(name) => Target::Indirect(name@),
            RefType::Broken => Target::Broken,
        }
    }
}

impl View for Ref {
    type V = Reference;

    open spec fn view(&self) -> Reference {
        Reference {
            name: self.name@,
            target: match self.target {
                Some(t) => Some(t@),
                None => None,
            },
        }
    }
}

impl Reference {
    /// The message that a reference is kept as: the key `name`, and for the
    /// target the key `direct` with the hash, the key `indirect` with the
    /// name, or the key `broken` with nothing. A reference without a target
    /// has the key `name` alone.
    pub open spec fn message(self) -> Message {
        let base = Message::empty().with_pair("name"@, encode_utf8(self.name));
        match self.target {
            Some(Target::Direct(hash)) => base.with_pair("direct"@, encode_utf8(hash)),
            Some(Target::Indirect(name)) => base.with_pair("indirect"@, encode_utf8(name)),
            Some(Target::Broken) => base.with_pair("broken"@, Seq::empty()),
            None => base,
        }
    }

    /// The reference that a message stands for: a message without a body whose
    /// first key is `name` and whose second key, if there is one, is `direct`,
    /// `indirect` or `broken`, each with one value that is valid UTF-8, and
    /// `broken` with an empty one. Any other message stands for none.
    pub open spec fn of_message(m: Message) -> Option<Reference> {
        if m.body is Some || m.headers.len() == 0 || m.headers.len() > 2 || !is_field(
            m.headers[0],
            "name"@,
        ) {
            None
        } else {
            let name = decode_utf8(m.headers[0].values[0]);
            if m.headers.len() == 1 {
                Some(Reference { name: name, target: None })
            } else if is_field(m.headers[1], "direct"@) {
                Some(
                    Reference {
                        name: name,
                        target: Some(Target::Direct(decode_utf8(m.headers[1].values[0]))),
                    },
                )
            } else if is_field(m.headers[1], "indirect"@) {
                Some(
                    Reference {
                        name: name,
                        target: Some(Target::Indirect(decode_utf8(m.headers[1].values[0]))),
                    },
                )
            } else if is_field(m.headers[1], "broken"@) && m.headers[1].values[0].len() == 0 {
                Some(Reference { name: name, target: Some(Target::Broken) })
            } else {
                None
            }
        }
    }

    /// The bytes that a reference is kept as.
    pub open spec fn record(self) -> Seq<u8> {
        self.message().serialize()
    }

    /// The reference that bytes stand for.
    pub open spec fn of_record(bytes: Seq<u8>) -> Option<Reference> {
        match parse(bytes) {
            Some(m) => Reference::of_message(m),
            None => None,
        }
    }
}

/// The stored references, as mathematics.
pub open spec fn stored_refs(refs: Seq<Ref>) -> Seq<Reference> {
    refs.map_values(|r: Ref| r@)
}

/// The names of the references, in order.
pub open spec fn names_of(refs: Seq<Reference>) -> Seq<Seq<char>> {
    refs.map_values(|r: Reference| r.name)
}

/// What is stored under `name`: the target of the first reference of that
/// name. A name that is not stored, or that is stored without a target, has none.
pub open spec fn stored_target(refs: Seq<Reference>, name: Seq<char>) -> Option<Target> {
    let i = first_at(names_of(refs), name, 0);
    if i < refs.len() {
        refs[i].target
    } else {
        None
    }
}

/// Where following `name` ends when at most `hops` indirect references are
/// followed: at a hash, or broken where a name on the way has no target or is
/// not stored. There is no end where more hops would be needed.
pub open spec fn resolve(refs: Seq<Reference>, name: Seq<char>, hops: nat) -> Option<Target>
    decreases hops,
{
    match stored_target(refs, name) {
        Some(Target::Direct(hash)) => Some(Target::Direct(hash)),
        Some(Target::Indirect(next)) => if hops == 0 {
            None
        } else {
            resolve(refs, next, (hops - 1) as nat)
        },
        Some(Target::Broken) => Some(Target::Broken),
        None => Some(Target::Broken),
    }
}

/// The references after `reference` was stored: it takes the place of the
/// first reference of its name, or comes last where its name is new.
pub open spec fn refs_with(refs: Seq<Reference>, reference: Reference) -> Seq<Reference> {
    let i = first_at(names_of(refs), reference.name, 0);
    if i < refs.len() {
        refs.update(i, reference)
    } else {
        refs.push(reference)
    }
}

/// The references whose names start with `refs/`, in order.
pub open spec fn under_refs(refs: Seq<Reference>) -> Seq<Reference>
    decreases refs.len(),
{
    if refs.len() == 0 {
        Seq::empty()
    } else if "refs/"@.is_prefix_of(refs.last().name) {
        under_refs(refs.drop_last()).push(refs.last())
    } else {
        under_refs(refs.drop_last())
    }
}

impl RefType {
    /// A copy of the target.
    pub fn duplicate(&self) -> (copy: RefType)
        ensures
            copy@ == self@,
    {
        match self {
            RefType::Direct(hash) => RefType::Direct(hash.clone()),
            RefType::Indirect(name) => RefType::Indirect(name.clone()),
            RefType::Broken => RefType::Broken,
        }
    }
}

/// Where the reference named `name` stands in `refs`.
pub fn find_ref(refs: &Vec<Ref>, name: &String) -> (at: usize)
    ensures
        at == first_at(names_of(stored_refs(refs@)), name@, 0),
        at <= refs@.len(),
{
    let ghost names = names_of(stored_refs(refs@));
    let mut i: usize = 0;
    while i < refs.len()
        invariant
            i <= refs@.len(),
            names == names_of(stored_refs(refs@)),
            names.len() == refs@.len(),
            first_at(names, name@, 0) == first_at(names, name@, i as int),
        decreases refs@.len() - i,
    {
        assert(names[i as int] == refs@[i as int].name@);
        if refs[i].name == *name {
            return i;
        }
        i += 1;
    }
    i
}

impl Ref {
    /// A reference without a target.
    pub fn new(name: String) -> (reference: Self)
        ensures
            reference@ == (Reference { name: name@, target: None }),
    {
        Ref { name, target: None }
    }

    /// Gives the reference a target. An indirect target that names the
    /// reference itself is refused, and the reference stays as it was.
    pub fn add_target(&mut self, target: RefType) -> (result: Result<(), GitError>)
        ensures
            target@ == Target::Indirect(old(self).name@) ==> result == Err::<(), GitError>(
                GitError::Cycle,
            ) && *final(self) == *old(self),
            target@ != Target::Indirect(old(self).name@) ==> result is Ok && final(self)@ == (
            Reference { name: old(self).name@, target: Some(target@) }),
    {
        match &target {
            RefType::Indirect(indirect_name) => {
                if *indirect_name == self.name {
                    return Err(GitError::Cycle);
                }
            },
            _ => {},
        }
        self.target = Some(target);
        Ok(())
    }

    /// Whether the target is the name of another reference.
    pub fn is_indirect_ref(&self) -> (indirect: bool)
        ensures
            indirect == (self@.target matches Some(Target::Indirect(_))),
    {
        match self.target {
            Some(RefType::Indirect(_)) => true,
            _ => false,
        }
    }

    /// Whether the reference has no target or a broken one.
    pub fn is_broken_or_empty_ref(&self) -> (broken: bool)
        ensures
            broken == (self@.target is None || self@.target == Some(Target::Broken)),
    {
        match self.target {
            Some(RefType::Broken) | None => true,
            _ => false,
        }
    }

    /// A copy of the reference.
    pub fn duplicate(&self) -> (copy: Ref)
        ensures
            copy@ == self@,
    {
        Ref {
            name: self.name.clone(),
            target: match &self.target {
                Some(t) => Some(t.duplicate()),
                None => None,
            },
        }
    }

    /// Writes the reference as the bytes that it is kept as.
    pub fn serialize(&self) -> (record: Bytes)
        ensures
            contents(record) == self@.record(),
    {
        let mut list = KeyValuePairList::new();
        list.insert_pair("name".to_owned(), text_value(&self.name));
        match &self.target {
            Some(RefType::Direct(hash)) => {
                list.insert_pair("direct".to_owned(), text_value(hash));
            },
            Some(RefType::Indirect(name)) => {
                list.insert_pair("indirect".to_owned(), text_value(name));
            },
            Some(RefType::Broken) => {
                list.insert_pair("broken".to_owned(), text_value(&String::new()));
            },
            None => {},
        }
        list.into_bytes()
    }

    /// Reads a reference from the bytes that it is kept as. Bytes that stand
    /// for no reference are refused as malformed.
    pub fn deserialize(data: Bytes) -> (result: Result<Ref, GitError>)
        ensures
            match Reference::of_record(contents(data)) {
                Some(reference) => result matches Ok(r) && r@ == reference,
                None => result == Err::<Ref, GitError>(GitError::Format),
            },
    {
        let list = match KeyValuePairList::from(data) {
            Ok(list) => list,
            Err(_) => {
                return Err(GitError::Format);
            },
        };
        if list.contents.is_some() || list.data.len() == 0 || list.data.len() > 2 {
            return Err(GitError::Format);
        }
        let name = match field_text(&list, 0, "name") {
            Some(name) => name,
            None => {
                return Err(GitError::Format);
            },
        };
        if list.data.len() == 1 {
            return Ok(Ref { name, target: None });
        }
        if let Some(hash) = field_text(&list, 1, "direct") {
            return Ok(Ref { name, target: Some(RefType::Direct(hash)) });
        }
        if let Some(next) = field_text(&list, 1, "indirect") {
            return Ok(Ref { name, target: Some(RefType::Indirect(next)) });
        }
        match field_text(&list, 1, "broken") {
            Some(_) => {
                assert(list@.headers[1] == list.data@[1]@);
                if bytes_as_slice(&list.data[1].values[0]).len() == 0 {
                    Ok(Ref { name, target: Some(RefType::Broken) })
                } else {
                    Err(GitError::Format)
                }
            },
            None => Err(GitError::Format),
        }
    }

    /// The reference that is stored under `name`, if there is one.
    pub fn from_file(name: String, repo: &Repository) -> (found: Option<Ref>)
        ensures
            match found {
                Some(r) => {
                    let i = first_at(names_of(stored_refs(repo.refs@)), name@, 0);
                    i < repo.refs@.len() && r@ == stored_refs(repo.refs@)[i]
                },
                None => first_at(names_of(stored_refs(repo.refs@)), name@, 0) >= repo.refs@.len(),
            },
    {
        let at = find_ref(&repo.refs, &name);
        if at < repo.refs.len() {
            Some(repo.refs[at].duplicate())
        } else {
            None
        }
    }

    /// The stored references whose names start with `refs/`, in the order in
    /// which they are stored.
    pub fn all_refs(repo: &Repository) -> (found: Vec<Ref>)
        ensures
            stored_refs(found@) == under_refs(stored_refs(repo.refs@)),
    {
        let ghost refs = stored_refs(repo.refs@);
        let mut found: Vec<Ref> = Vec::new();
        let mut i: usize = 0;
        assert(refs.take(0) =~= Seq::<Reference>::empty());
        assert(stored_refs(found@) =~= Seq::<Reference>::empty());
        while i < repo.refs.len()
            invariant
                i <= repo.refs@.len(),
                refs == stored_refs(repo.refs@),
                stored_refs(found@) == under_refs(refs.take(i as int)),
            decreases repo.refs@.len() - i,
        {
            assert(refs.take(i + 1).drop_last() =~= refs.take(i as int));
            assert(refs.take(i + 1).last() == repo.refs@[i as int]@);
            let ghost before = stored_refs(found@);
            match strip_prefix(repo.refs[i].name.as_str(), "refs/") {
                Some(_) => {
                    found.push(repo.refs[i].duplicate());
                    assert(stored_refs(found@) =~= before.push(repo.refs@[i as int]@));
                },
                None => {},
            }
            i += 1;
        }
        assert(refs.take(refs.len() as int) =~= refs);
        found
    }

    /// Stores the reference in the repository, in place of what was stored
    /// under its name. A reference without a target, or with a broken one, is
    /// refused and nothing is stored.
    pub fn write(&self, repo: &mut Repository) -> (result: Result<(), GitError>)
        ensures
            final(repo).worktree == old(repo).worktree,
            final(repo).gitdir == old(repo).gitdir,
            final(repo).conf == old(repo).conf,
            final(repo).objects == old(repo).objects,
            match result {
                Ok(()) => !(self@.target is None || self@.target == Some(Target::Broken))
                    && stored_refs(final(repo).refs@) == refs_with(
                    stored_refs(old(repo).refs@),
                    self@,
                ),
                Err(e) => (self@.target is None || self@.target == Some(Target::Broken)) && e
                    == GitError::NotFound && final(repo).refs == old(repo).refs,
            },
    {
        if self.is_broken_or_empty_ref() {
            return Err(GitError::NotFound);
        }
        let at = find_ref(&repo.refs, &self.name);
        if at < repo.refs.len() {
            repo.refs[at] = self.duplicate();
            assert(stored_refs(repo.refs@) =~= stored_refs(old(repo).refs@).update(
                at as int,
                self@,
            ));
        } else {
            repo.refs.push(self.duplicate());
            assert(stored_refs(repo.refs@) =~= stored_refs(old(repo).refs@).push(self@));
        }
        Ok(())
    }

    /// Follows the reference's name through the stored references to a hash.
    /// The result is broken where a name on the way is not stored. Following
    /// gives up with a cycle error after as many indirect references as the
    /// repository stores, which happens only where the references on the way
    /// form a cycle.
    pub fn fully_resolve(&self, repo: &Repository) -> (result: Result<RefType, GitError>)
        ensures
            match resolve(stored_refs(repo.refs@), self.name@, repo.refs@.len()) {
                Some(end) => result matches Ok(target) && target@ == end,
                None => result == Err::<RefType, GitError>(GitError::Cycle),
            },
            stored_target(stored_refs(repo.refs@), self.name@) is None ==> result == Ok::<
                RefType,
                GitError,
            >(RefType::Broken),
            result is Err ==> forall|hops: nat|
                resolve(stored_refs(repo.refs@), self.name@, hops) is None,
    {
        let ghost refs = stored_refs(repo.refs@);
        proof {
            if resolve(refs, self.name@, repo.refs@.len()) is None {
                assert forall|hops: nat| resolve(refs, self.name@, hops) is None by {
                    lemma_cycle_is_real(refs, self.name@, hops);
                }
            }
        }
        let mut name = self.name.clone();
        let mut hops: usize = repo.refs.len();
        loop
            invariant
                refs == stored_refs(repo.refs@),
                resolve(refs, self.name@, repo.refs@.len()) is None ==> forall|hops: nat|
                    resolve(refs, self.name@, hops) is None,
                hops <= repo.refs@.len(),
                resolve(refs, self.name@, repo.refs@.len()) == resolve(refs, name@, hops as nat),
                hops == repo.refs@.len() ==> name@ == self.name@,
            decreases hops,
        {
            let at = find_ref(&repo.refs, &name);
            if at >= repo.refs.len() {
                return Ok(RefType::Broken);
            }
            assert(refs[at as int] == repo.refs@[at as int]@);
            match &repo.refs[at].target {
                Some(RefType::Direct(hash)) => {
                    return Ok(RefType::Direct(hash.clone()));
                },
                Some(RefType::Indirect(next)) => {
                    if hops == 0 {
                        return Err(GitError::Cycle);
                    }
                    name = next.clone();
                    hops -= 1;
                },
                Some(RefType::Broken) => {
                    return Ok(RefType::Broken);
                },
                None => {
                    return Ok(RefType::Broken);
                },
            }
        }
    }
}

} // verus!
