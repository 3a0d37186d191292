use bytes::Bytes;
use rust_git::branch_utils::branch_get_active;
use rust_git::error::GitError;
use rust_git::git_object::{GitBlob, GitObject, GitWriteable};
use rust_git::object_utils::object_write;
use rust_git::refs::{Ref, RefType};
use rust_git::repository::Repository;

fn repo() -> Repository {
    Repository::create("dummy_repo".to_string()).unwrap()
}

fn stored(repo: &mut Repository, name: &str, target: RefType) {
    let mut reference = Ref::new(name.to_string());
    reference.add_target(target).unwrap();
    reference.write(repo).unwrap();
}

fn resolve(repo: &Repository, name: &str) -> Result<RefType, GitError> {
    Ref::new(name.to_string()).fully_resolve(repo)
}

#[test]
fn ref_create_and_resolve() {
    // initialise an empty repo
    let mut repo = Repository::create("dummy_repo".to_string()).unwrap();

    let blob_1 = GitBlob::deserialize(Bytes::from("First file of commit")).unwrap();
    let obj_1 = GitObject::Blob(blob_1);
    let sha_1 = object_write(obj_1, Some(&mut repo)).unwrap();
    assert_eq!(sha_1, "6b7b7356c4f0ab1e19119f678035c48305c250b5");

    let mut reference = Ref::new("refs/heads/main".to_string());
    reference.add_target(RefType::Direct(sha_1.to_string())).unwrap();

    let ref_write = reference.write(&mut repo);
    println!("ref write result: {:?}", ref_write);
    assert!(ref_write.is_ok());

    // Now resolve the reference
    let reference_resolve = Ref::new("refs/heads/main".to_string());
    let resolution = reference_resolve.fully_resolve(&repo);
    assert_eq!(resolution, Ok(RefType::Direct(sha_1.clone())));

    // create an indirect reference to the first reference
    let mut reference_indirect = Ref::new("refs/heads/other".to_string());
    reference_indirect.add_target(RefType::Indirect("refs/heads/main".to_string())).unwrap();
    let ref_write_indirect = reference_indirect.write(&mut repo);
    assert!(ref_write_indirect.is_ok());

    // We now resolve the indirect reference:
    //        refs/heads/other -> refs/heads/main -> blob_1 hash from above
    let resolution_indirect = reference_indirect.fully_resolve(&repo);
    assert_eq!(resolution_indirect, Ok(RefType::Direct(sha_1.clone())));
}

#[test]
fn test_branch_get_active() {
    // initialise an empty repo
    let repo = Repository::create("dummy_repo".to_string());
    println!("Created test repo: {:?} in {:?}", repo, "dummy_repo");
    assert!(repo.is_ok());

    let branch = branch_get_active(&repo.unwrap());
    assert_eq!(branch, Some("master".to_string()));
}

#[test]
fn indirect_reference_resolves_to_the_hash_behind_it() {
    let mut repo = repo();
    stored(&mut repo, "refs/heads/main", RefType::Direct("H".to_string()));
    stored(&mut repo, "refs/heads/other", RefType::Indirect("refs/heads/main".to_string()));
    assert_eq!(resolve(&repo, "refs/heads/other"), Ok(RefType::Direct("H".to_string())));
    assert_eq!(resolve(&repo, "refs/heads/main"), Ok(RefType::Direct("H".to_string())));
}

#[test]
fn reference_to_itself_is_refused_before_any_write() {
    let mut repo = repo();
    let mut reference = Ref::new("refs/heads/x".to_string());
    assert_eq!(
        reference.add_target(RefType::Indirect("refs/heads/x".to_string())),
        Err(GitError::Cycle)
    );
    assert_eq!(reference, Ref::new("refs/heads/x".to_string()));
    assert_eq!(reference.write(&mut repo), Err(GitError::NotFound));
    assert_eq!(repo, Repository::create("dummy_repo".to_string()).unwrap());
    assert_eq!(reference.add_target(RefType::Indirect("refs/heads/y".to_string())), Ok(()));
    assert!(reference.is_indirect_ref());
}

#[test]
fn reference_that_was_never_written_is_broken() {
    let mut repo = repo();
    assert_eq!(resolve(&repo, "refs/heads/never"), Ok(RefType::Broken));
    assert_eq!(resolve(&repo, "HEAD"), Ok(RefType::Broken));
    stored(&mut repo, "refs/heads/a", RefType::Indirect("refs/heads/never".to_string()));
    assert_eq!(resolve(&repo, "refs/heads/a"), Ok(RefType::Broken));
}

#[test]
fn long_chains_resolve() {
    let mut repo = repo();
    stored(&mut repo, "r0", RefType::Direct("H".to_string()));
    for i in 1..20 {
        stored(&mut repo, &format!("r{}", i), RefType::Indirect(format!("r{}", i - 1)));
    }
    assert_eq!(resolve(&repo, "r19"), Ok(RefType::Direct("H".to_string())));
}

#[test]
fn cycles_are_reported() {
    let mut repo = repo();
    stored(&mut repo, "a", RefType::Indirect("b".to_string()));
    stored(&mut repo, "b", RefType::Indirect("c".to_string()));
    stored(&mut repo, "c", RefType::Indirect("a".to_string()));
    stored(&mut repo, "d", RefType::Indirect("a".to_string()));
    assert_eq!(resolve(&repo, "a"), Err(GitError::Cycle));
    assert_eq!(resolve(&repo, "d"), Err(GitError::Cycle));
    repo.refs.push(Ref {
        name: "self".to_string(),
        target: Some(RefType::Indirect("self".to_string())),
    });
    assert_eq!(resolve(&repo, "self"), Err(GitError::Cycle));
}

#[test]
fn writing_replaces_what_was_stored_under_the_name() {
    let mut repo = repo();
    stored(&mut repo, "refs/heads/main", RefType::Direct("one".to_string()));
    stored(&mut repo, "refs/heads/other", RefType::Direct("two".to_string()));
    stored(&mut repo, "refs/heads/main", RefType::Direct("three".to_string()));
    assert_eq!(repo.refs.len(), 3);
    assert_eq!(repo.refs[1].name, "refs/heads/main");
    assert_eq!(resolve(&repo, "refs/heads/main"), Ok(RefType::Direct("three".to_string())));
    assert_eq!(resolve(&repo, "refs/heads/other"), Ok(RefType::Direct("two".to_string())));
    assert_eq!(
        Ref::from_file("refs/heads/other".to_string(), &repo),
        Some(Ref {
            name: "refs/heads/other".to_string(),
            target: Some(RefType::Direct("two".to_string()))
        })
    );
    assert_eq!(Ref::from_file("refs/heads/none".to_string(), &repo), None);
}

#[test]
fn references_without_a_target_are_not_written() {
    let mut repo = repo();
    let empty = Ref::new("refs/heads/empty".to_string());
    assert!(empty.is_broken_or_empty_ref());
    assert!(!empty.is_indirect_ref());
    assert_eq!(empty.write(&mut repo), Err(GitError::NotFound));
    let broken = Ref { name: "refs/heads/broken".to_string(), target: Some(RefType::Broken) };
    assert!(broken.is_broken_or_empty_ref());
    assert_eq!(broken.write(&mut repo), Err(GitError::NotFound));
    assert_eq!(repo.refs.len(), 1);
    let direct = Ref { name: "x".to_string(), target: Some(RefType::Direct("h".to_string())) };
    assert!(!direct.is_broken_or_empty_ref());
    assert!(!direct.is_indirect_ref());
}

#[test]
fn all_refs_lists_what_is_stored_under_refs() {
    let mut repo = repo();
    stored(&mut repo, "refs/heads/main", RefType::Direct("one".to_string()));
    stored(&mut repo, "ORIG_HEAD", RefType::Direct("two".to_string()));
    stored(&mut repo, "refs/tags/v1", RefType::Indirect("refs/heads/main".to_string()));
    let names: Vec<String> = Ref::all_refs(&repo).into_iter().map(|r| r.name).collect();
    assert_eq!(names, vec!["refs/heads/main".to_string(), "refs/tags/v1".to_string()]);
}

#[test]
fn active_branch_is_what_head_names() {
    let mut repo = repo();
    assert_eq!(branch_get_active(&repo), Some("master".to_string()));
    stored(&mut repo, "HEAD", RefType::Indirect("refs/heads/feature/x".to_string()));
    assert_eq!(branch_get_active(&repo), Some("feature/x".to_string()));
    stored(&mut repo, "HEAD", RefType::Indirect("refs/heads/".to_string()));
    assert_eq!(branch_get_active(&repo), Some("".to_string()));
    stored(&mut repo, "HEAD", RefType::Indirect("refs/tags/v1".to_string()));
    assert_eq!(branch_get_active(&repo), None);
    stored(&mut repo, "HEAD", RefType::Direct("abc".to_string()));
    assert_eq!(branch_get_active(&repo), None);
    repo.refs.clear();
    assert_eq!(branch_get_active(&repo), None);
}

#[test]
fn references_are_kept_as_messages() {
    let direct = Ref {
        name: "refs/heads/main".to_string(),
        target: Some(RefType::Direct("abc".to_string())),
    };
    assert_eq!(direct.serialize(), Bytes::from("name refs/heads/main\ndirect abc\n"));
    let indirect = Ref {
        name: "HEAD".to_string(),
        target: Some(RefType::Indirect("refs/heads/main".to_string())),
    };
    assert_eq!(indirect.serialize(), Bytes::from("name HEAD\nindirect refs/heads/main\n"));
    let broken = Ref { name: "b".to_string(), target: Some(RefType::Broken) };
    assert_eq!(broken.serialize(), Bytes::from("name b\nbroken \n"));
    let empty = Ref::new("e".to_string());
    assert_eq!(empty.serialize(), Bytes::from("name e\n"));
    let odd = Ref {
        name: "two\nlines ".to_string(),
        target: Some(RefType::Direct(" \n".to_string())),
    };
    for reference in [direct, indirect, broken, empty, odd] {
        assert_eq!(Ref::deserialize(reference.serialize()), Ok(reference));
    }
}

#[test]
fn bytes_that_stand_for_no_reference_are_malformed() {
    for text in [
        "",
        "direct abc\n",
        "direct abc\nname x\n",
        "name x\nname y\n",
        "name x\ndirect a\ndirect b\n",
        "name x\ndirect a\nindirect b\n",
        "name x\nother a\n",
        "name x\nbroken yes\n",
        "name x\n\nbody",
        "name x",
    ] {
        assert_eq!(Ref::deserialize(Bytes::from(text)), Err(GitError::Format), "{:?}", text);
    }
    assert_eq!(
        Ref::deserialize(Bytes::from(vec![b'n', b'a', b'm', b'e', b' ', 0xff, b'\n'])),
        Err(GitError::Format)
    );
}
