use bytes::Bytes;
use rust_git::error::GitError;
use rust_git::git_object::{
    GitBlob, GitCommit, GitLeaf, GitObject, GitTag, GitTree, GitWriteable,
};
use rust_git::key_value_list_message::KeyValuePairList;
use rust_git::object_utils::{
    decode_object, encode_object, find_trimmed, object_find, object_path, object_read,
    object_write, store_object, tree_to_dict,
};
use rust_git::refs::{Ref, RefType};
use rust_git::repository::{Repository, StoredObject};

const HASH_A: &str = "8c7e5a667f1b771847fe88c01c3de34413a1b220";
const HASH_B: &str = "7371f47a6f8bd23a8fa1a8b2a9479cdd76380e54";
const HASH_TREE: &str = "bd9adfbfeceee4bea37c1bf7a2c783473c435fe6";

fn blob(text: &str) -> GitObject {
    GitObject::Blob(GitBlob { data: Some(Bytes::from(text.to_string())) })
}

fn leaf(path: &str, sha: &str) -> GitLeaf {
    GitLeaf {
        mode: "".to_string(),
        path: path.to_string(),
        sha: sha.to_string(),
        sort_key: "".to_string(),
    }
}

fn repo() -> Repository {
    Repository::create("dummy_repo".to_string()).unwrap()
}

fn store(repo: &mut Repository, sha: &str, data: &[u8]) {
    repo.objects.push(StoredObject { sha: sha.to_string(), data: Bytes::from(data.to_vec()) });
}

#[test]
fn blob_is_stored_under_the_hash_of_its_tagged_bytes() {
    let mut repo = repo();
    let sha = object_write(blob("A"), Some(&mut repo)).unwrap();
    assert_eq!(sha, HASH_A);
    assert_eq!(repo.objects.len(), 1);
    assert_eq!(repo.objects[0].sha, HASH_A);
    assert_eq!(repo.objects[0].data, Bytes::from(&b"blob 1\x00A"[..]));
    assert_eq!(
        object_write(blob(""), None),
        Ok("e69de29bb2d1d6434b8b29ae775ad8c2e48c5391".to_string())
    );
    assert_eq!(
        object_write(blob("hello world\n"), None),
        Ok("3b18e512dba79e4c8300dd08aeb37f8e728b8dad".to_string())
    );
}

#[test]
fn writing_without_a_repository_stores_nothing() {
    let repo = repo();
    assert_eq!(object_write(blob("A"), None), Ok(HASH_A.to_string()));
    assert_eq!(object_read(&repo, HASH_A.to_string()), Err(GitError::NotFound));
}

#[test]
fn writing_twice_stores_once() {
    let mut repo = repo();
    let first = object_write(blob("A"), Some(&mut repo)).unwrap();
    let second = object_write(blob("A"), Some(&mut repo)).unwrap();
    assert_eq!(first, second);
    assert_eq!(repo.objects.len(), 1);
}

#[test]
fn blob_reads_back() {
    let mut repo = repo();
    let sha = object_write(blob("some bytes \x00 in a blob"), Some(&mut repo)).unwrap();
    assert_eq!(object_read(&repo, sha), Ok(blob("some bytes \x00 in a blob")));
}

#[test]
fn blob_without_data_reads_back_as_no_bytes() {
    let mut repo = repo();
    let sha = object_write(GitObject::Blob(GitBlob::new()), Some(&mut repo)).unwrap();
    assert_eq!(sha, "e69de29bb2d1d6434b8b29ae775ad8c2e48c5391");
    assert_eq!(object_read(&repo, sha), Ok(blob("")));
}

#[test]
fn commit_reads_back() {
    let mut repo = repo();
    let mut data = KeyValuePairList::new();
    data.insert_pair("tree".to_string(), Bytes::from(HASH_TREE));
    data.insert_pair("parent".to_string(), Bytes::from(HASH_A));
    data.insert_pair("parent".to_string(), Bytes::from(HASH_B));
    data.insert_contents(Bytes::from("My first commit message"));
    let commit = GitCommit { data };
    assert_eq!(commit.get_tree_string(), Some(HASH_TREE.to_string()));
    let sha = object_write(GitObject::Commit(commit.clone()), Some(&mut repo)).unwrap();
    assert_eq!(object_read(&repo, sha), Ok(GitObject::Commit(commit)));
}

#[test]
fn tree_reads_back_in_canonical_order() {
    let mut repo = repo();
    let mut tree = GitTree::new();
    tree.add(leaf("test/file2.txt", HASH_B));
    tree.add(leaf("file1.txt", HASH_A));
    let sha = object_write(GitObject::Tree(tree), Some(&mut repo)).unwrap();
    assert_eq!(sha, HASH_TREE);
    let expected =
        GitTree { items: vec![leaf("file1.txt", HASH_A), leaf("test/file2.txt", HASH_B)] };
    assert_eq!(object_read(&repo, sha), Ok(GitObject::Tree(expected)));
}

#[test]
fn tree_payload_is_the_run_of_its_records() {
    let mut tree = GitTree::new();
    tree.add(leaf("file1.txt", HASH_A));
    tree.add(leaf("test/file2.txt", HASH_B));
    let expected = format!(
        "0\x009\x00file1.txt40\x00{}0\x000\x0014\x00test/file2.txt40\x00{}0\x00",
        HASH_A, HASH_B
    );
    assert_eq!(tree.serialize(), Bytes::from(expected));
}

#[test]
fn tree_hash_does_not_depend_on_insertion_order() {
    let leaves = vec![
        leaf("b", HASH_B),
        leaf("a/b", HASH_A),
        leaf("a", HASH_A),
        leaf("c", HASH_B),
        leaf("a", HASH_B),
    ];
    let mut forward = GitTree::new();
    for l in leaves.iter() {
        forward.add(l.clone());
    }
    let mut backward = GitTree::new();
    for l in leaves.iter().rev() {
        backward.add(l.clone());
    }
    assert_eq!(forward.serialize(), backward.serialize());
    assert_eq!(
        object_write(GitObject::Tree(forward.clone()), None),
        object_write(GitObject::Tree(backward), None)
    );
    let read = GitTree::deserialize(forward.serialize()).unwrap();
    let paths: Vec<&str> = read.items.iter().map(|l| l.path.as_str()).collect();
    assert_eq!(paths, vec!["a", "a", "a/b", "b", "c"]);
    assert_eq!(read.items[0].sha, HASH_B);
    assert_eq!(read.items[1].sha, HASH_A);
}

#[test]
fn tags_read_back() {
    let mut repo = repo();
    let light = GitTag::new_lightweight("v0".to_string(), HASH_A.to_string(), &repo).unwrap();
    let annotated = GitTag::new_object("v1".to_string(), HASH_A.to_string(), &repo).unwrap();
    assert_eq!(
        annotated.serialize(),
        Bytes::from(format!(
            "object {}\ntag v1\ntagger rust_git <test@example.com>\n",
            HASH_A
        ))
    );
    assert_eq!(light.serialize(), Bytes::from(format!("object {}\ntag v0\n", HASH_A)));
    assert_eq!(annotated.tag(), "v1");
    assert_eq!(annotated.object(), HASH_A);
    assert_eq!(annotated.tagger(), Some(&"rust_git <test@example.com>".to_string()));
    assert_eq!(light.tag(), "v0");
    assert_eq!(light.object(), HASH_A);
    assert_eq!(light.tagger(), None);
    let sha = object_write(GitObject::Tag(annotated.clone()), Some(&mut repo)).unwrap();
    assert_eq!(sha, "161845e2b0234bc0a7462fcfe921e7081eba2a18");
    assert_eq!(object_read(&repo, sha), Ok(GitObject::Tag(annotated)));
    let sha = object_write(GitObject::Tag(light.clone()), Some(&mut repo)).unwrap();
    assert_eq!(object_read(&repo, sha), Ok(GitObject::Tag(light)));
}

#[test]
fn tag_payload_must_have_the_keys_of_a_tag() {
    assert_eq!(GitTag::deserialize(Bytes::from("tag v1\nobject abc\n")), Err(GitError::Format));
    assert_eq!(GitTag::deserialize(Bytes::from("object abc\n")), Err(GitError::Format));
    assert_eq!(
        GitTag::deserialize(Bytes::from("object abc\ntag v1\n\nbody")),
        Err(GitError::Format)
    );
    assert_eq!(
        GitTag::deserialize(Bytes::from("object abc\nobject def\ntag v1\n")),
        Err(GitError::Format)
    );
    assert!(GitTag::deserialize(Bytes::from("object abc\ntag v1\n")).is_ok());
}

#[test]
fn writing_a_tag_stores_its_reference() {
    let mut repo = repo();
    let light = GitTag::new_lightweight("v0".to_string(), HASH_A.to_string(), &repo).unwrap();
    assert_eq!(light.write(&mut repo), Ok(()));
    assert_eq!(repo.objects.len(), 0);
    assert_eq!(
        Ref::new("refs/tags/v0".to_string()).fully_resolve(&repo),
        Ok(RefType::Direct(HASH_A.to_string()))
    );
    let annotated = GitTag::new_object("v1".to_string(), HASH_A.to_string(), &repo).unwrap();
    assert_eq!(annotated.write(&mut repo), Ok(()));
    assert_eq!(repo.objects.len(), 1);
    assert_eq!(
        Ref::new("refs/tags/v1".to_string()).fully_resolve(&repo),
        Ok(RefType::Direct("161845e2b0234bc0a7462fcfe921e7081eba2a18".to_string()))
    );
}

#[test]
fn new_values_are_empty_and_from_reads_data() {
    assert_eq!(<GitBlob as GitWriteable>::from(None), Ok(GitBlob { data: None }));
    assert_eq!(
        <GitBlob as GitWriteable>::from(Some(Bytes::from("x"))),
        Ok(GitBlob { data: Some(Bytes::from("x")) })
    );
    assert_eq!(<GitTree as GitWriteable>::from(None), Ok(GitTree { items: vec![] }));
    assert_eq!(
        <GitCommit as GitWriteable>::from(None),
        Ok(GitCommit { data: KeyValuePairList::new() })
    );
    assert_eq!(<GitCommit as GitWriteable>::from(Some(Bytes::from("x"))), Err(GitError::Format));
    assert_eq!(GitTag::new().serialize(), Bytes::from("object \ntag \n"));
    assert_eq!(GitBlob::format_name(), "blob");
    assert_eq!(GitCommit::format_name(), "commit");
    assert_eq!(GitTree::format_name(), "tree");
    assert_eq!(GitTag::format_name(), "tag");
}

#[test]
fn missing_object_is_not_found() {
    let repo = repo();
    assert_eq!(object_read(&repo, HASH_A.to_string()), Err(GitError::NotFound));
    assert_eq!(object_read(&repo, "".to_string()), Err(GitError::NotFound));
}

#[test]
fn malformed_headers_are_refused() {
    let mut repo = repo();
    store(&mut repo, "nospace", b"blob1\x00A");
    store(&mut repo, "nonul", b"blob 1A");
    store(&mut repo, "nolength", b"blob \x00A");
    store(&mut repo, "notnumeric", b"blob one\x00A");
    store(&mut repo, "signed", b"blob +1\x00A");
    store(&mut repo, "unknown", b"blub 1\x00A");
    store(&mut repo, "toolarge", b"blob 99999999999999999999999999999999\x00A");
    store(&mut repo, "badcommit", b"commit 3\x00abc");
    store(&mut repo, "badtree", b"tree 3\x00abc");
    store(&mut repo, "badtag", b"tag 4\x00a b\n");
    for name in [
        "nospace",
        "nonul",
        "nolength",
        "notnumeric",
        "signed",
        "unknown",
        "toolarge",
        "badcommit",
        "badtree",
        "badtag",
    ] {
        assert_eq!(object_read(&repo, name.to_string()), Err(GitError::Format), "{}", name);
    }
}

#[test]
fn wrong_length_breaks_integrity() {
    let mut repo = repo();
    store(&mut repo, "short", b"blob 2\x00A");
    store(&mut repo, "long", b"blob 1\x00AB");
    store(&mut repo, "padded", b"blob 01\x00A");
    assert_eq!(object_read(&repo, "short".to_string()), Err(GitError::Integrity));
    assert_eq!(object_read(&repo, "long".to_string()), Err(GitError::Integrity));
    assert_eq!(object_read(&repo, "padded".to_string()), Ok(blob("A")));
}

#[test]
fn encode_and_decode_are_inverse_on_bytes() {
    let data = encode_object(&blob("A")).unwrap();
    assert_eq!(data, Bytes::from(&b"blob 1\x00A"[..]));
    assert_eq!(decode_object(&data), Ok(blob("A")));
    let long = "x".repeat(1234);
    let data = encode_object(&blob(&long)).unwrap();
    assert_eq!(&data[..10], b"blob 1234\x00");
    assert_eq!(decode_object(&data), Ok(blob(&long)));
}

#[test]
fn tree_records_must_be_whole() {
    assert_eq!(GitTree::deserialize(Bytes::from("")), Ok(GitTree { items: vec![] }));
    assert_eq!(
        GitTree::deserialize(Bytes::from("1\x00m1\x00p1\x00s1\x00k")),
        Ok(GitTree {
            items: vec![GitLeaf {
                mode: "m".to_string(),
                path: "p".to_string(),
                sha: "s".to_string(),
                sort_key: "k".to_string()
            }]
        })
    );
    assert_eq!(GitTree::deserialize(Bytes::from("1\x00m1\x00p1\x00s")), Err(GitError::Format));
    assert_eq!(
        GitTree::deserialize(Bytes::from("1\x00m1\x00p1\x00s2\x00k")),
        Err(GitError::Format)
    );
    assert_eq!(
        GitTree::deserialize(Bytes::from(vec![b'1', 0, 0xff, b'0', 0, b'0', 0, b'0', 0])),
        Err(GitError::Format)
    );
}

#[test]
fn names_stand_for_themselves_and_head_for_what_it_leads_to() {
    let mut repo = repo();
    let kind = "".to_string();
    assert_eq!(object_find(&repo, &HASH_A.to_string(), &kind, true), Ok(HASH_A.to_string()));
    assert_eq!(object_find(&repo, &"HEAD".to_string(), &kind, true), Err(GitError::NotFound));
    let mut master = Ref::new("refs/heads/master".to_string());
    master.add_target(RefType::Direct(HASH_B.to_string())).unwrap();
    master.write(&mut repo).unwrap();
    assert_eq!(object_find(&repo, &"HEAD".to_string(), &kind, true), Ok(HASH_B.to_string()));
    assert_eq!(object_find(&repo, &" HEAD\n".to_string(), &kind, true), Ok(HASH_B.to_string()));
    assert_eq!(object_find(&repo, &"HEADS".to_string(), &kind, true), Ok("HEADS".to_string()));
}

#[test]
fn object_files_fan_out_by_the_first_two_characters() {
    let repo = repo();
    assert_eq!(
        object_path(&repo, &HASH_A.to_string()),
        Some("dummy_repo/.git/objects/8c/7e5a667f1b771847fe88c01c3de34413a1b220".to_string())
    );
    assert_eq!(
        object_path(&repo, &"abc".to_string()),
        Some("dummy_repo/.git/objects/ab/c".to_string())
    );
    assert_eq!(object_path(&repo, &"ab".to_string()), None);
}

#[test]
fn tree_to_dict_maps_paths_to_hashes() {
    let mut repo = repo();
    let mut tree = GitTree::new();
    tree.add(leaf("file1.txt", HASH_A));
    tree.add(leaf("test/file2.txt", HASH_B));
    let sha = object_write(GitObject::Tree(tree), Some(&mut repo)).unwrap();
    let dict = tree_to_dict(&repo, &sha, None);
    assert_eq!(dict.len(), 2);
    assert_eq!(dict.get("file1.txt"), Some(&HASH_A.to_string()));
    assert_eq!(dict.get("test/file2.txt"), Some(&HASH_B.to_string()));
    let dict = tree_to_dict(&repo, &sha, Some("below"));
    assert_eq!(dict.get("below/file1.txt"), Some(&HASH_A.to_string()));
    assert_eq!(dict.get("file1.txt"), None);
    let blob_sha = object_write(blob("A"), Some(&mut repo)).unwrap();
    assert_eq!(tree_to_dict(&repo, &blob_sha, None).len(), 0);
    assert_eq!(tree_to_dict(&repo, &"missing".to_string(), None).len(), 0);
}

#[test]
fn commit_leads_to_its_tree() {
    let mut repo = repo();
    let mut tree = GitTree::new();
    tree.add(leaf("file1.txt", HASH_A));
    let tree_sha = object_write(GitObject::Tree(tree.clone()), Some(&mut repo)).unwrap();
    let mut data = KeyValuePairList::new();
    data.insert_pair("tree".to_string(), Bytes::from(tree_sha));
    assert_eq!(GitCommit { data }.get_and_read_tree(&repo), Ok(tree));
    assert_eq!(GitCommit::new().get_tree_string(), None);
    assert_eq!(GitCommit::new().get_and_read_tree(&repo), Err(GitError::NotFound));
    let blob_sha = object_write(blob("A"), Some(&mut repo)).unwrap();
    let mut data = KeyValuePairList::new();
    data.insert_pair("tree".to_string(), Bytes::from(blob_sha));
    assert_eq!(GitCommit { data }.get_and_read_tree(&repo), Err(GitError::Format));
    let mut data = KeyValuePairList::new();
    data.insert_pair("tree".to_string(), Bytes::from("one"));
    data.insert_pair("tree".to_string(), Bytes::from("two"));
    assert_eq!(GitCommit { data }.get_tree_string(), None);
}

#[test]
fn store_keeps_what_was_stored_first() {
    let mut repo = repo();
    store_object(&mut repo, "abc".to_string(), Bytes::from("blob 1\x00A"));
    store_object(&mut repo, "def".to_string(), Bytes::from("blob 1\x00B"));
    store_object(&mut repo, "abc".to_string(), Bytes::from("blob 1\x00C"));
    assert_eq!(repo.objects.len(), 2);
    assert_eq!(object_read(&repo, "abc".to_string()), Ok(blob("A")));
    assert_eq!(object_read(&repo, "def".to_string()), Ok(blob("B")));
    assert_eq!(repo.refs.len(), 1);
}

#[test]
fn only_the_name_head_goes_through_the_references() {
    let mut repo = repo();
    let name = " HEAD ".to_string();
    assert_eq!(find_trimmed(&repo, &name, "HEAD"), Err(GitError::NotFound));
    assert_eq!(find_trimmed(&repo, &name, " HEAD "), Ok(" HEAD ".to_string()));
    assert_eq!(find_trimmed(&repo, &name, "head"), Ok(" HEAD ".to_string()));
    repo.refs.push(Ref {
        name: "refs/heads/master".to_string(),
        target: Some(RefType::Indirect("HEAD".to_string())),
    });
    assert_eq!(find_trimmed(&repo, &name, "HEAD"), Err(GitError::Cycle));
    repo.refs[1].target = Some(RefType::Direct(HASH_A.to_string()));
    assert_eq!(find_trimmed(&repo, &name, "HEAD"), Ok(HASH_A.to_string()));
}
