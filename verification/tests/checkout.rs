use bytes::Bytes;
use rust_git::checkout::{checkout_commit, CheckoutStep};
use rust_git::error::GitError;
use rust_git::git_object::{
    GitBlob, GitCommit, GitLeaf, GitObject, GitTag, GitTree, GitWriteable,
};
use rust_git::key_value_list_message::KeyValuePairList;
use rust_git::object_utils::object_write;
use rust_git::refs::{Ref, RefType};
use rust_git::repository::{Repository, StoredObject};

fn blob(text: &str) -> GitObject {
    GitObject::Blob(GitBlob { data: Some(Bytes::from(text.to_string())) })
}

fn leaf(path: &str, sha: &str) -> GitLeaf {
    GitLeaf {
        mode: "".to_string(),
        path: path.to_string(),
        sha: sha.to_string(),
        sort_key: "".to_string(),
    }
}

fn tree(leaves: Vec<GitLeaf>) -> GitTree {
    let mut tree = GitTree::new();
    for l in leaves {
        tree.add(l);
    }
    tree
}

fn commit(tree: &str, body: &str) -> GitObject {
    let mut data = KeyValuePairList::new();
    data.insert_pair("tree".to_string(), Bytes::from(tree.to_string()));
    data.insert_contents(Bytes::from(body.to_string()));
    GitObject::Commit(GitCommit { data })
}

fn file(path: &str, text: &str) -> CheckoutStep {
    CheckoutStep::File(path.to_string(), Bytes::from(text.to_string()))
}

#[test]
fn commit_checks_out_to_its_files() {
    let mut repo = Repository::create("dummy_repo".to_string()).unwrap();
    let h_a = object_write(blob("A"), Some(&mut repo)).unwrap();
    let h_b = object_write(blob("B"), Some(&mut repo)).unwrap();
    assert_eq!(h_a, "8c7e5a667f1b771847fe88c01c3de34413a1b220");
    assert_eq!(h_b, "7371f47a6f8bd23a8fa1a8b2a9479cdd76380e54");
    let t = tree(vec![leaf("file1.txt", &h_a), leaf("test/file2.txt", &h_b)]);
    let h_t = object_write(GitObject::Tree(t), Some(&mut repo)).unwrap();
    assert_eq!(h_t, "bd9adfbfeceee4bea37c1bf7a2c783473c435fe6");
    let h_c = object_write(commit(&h_t, "msg"), Some(&mut repo)).unwrap();
    assert_eq!(h_c, "f77e4046738d1202cb23884901d5b865052a854d");
    assert_eq!(
        checkout_commit(&repo, &h_c, "out"),
        Ok(vec![file("out/file1.txt", "A"), file("out/test/file2.txt", "B")])
    );
}

#[test]
fn head_checks_out_through_the_reference_graph() {
    let mut repo = Repository::create("dummy_repo".to_string()).unwrap();
    let h_a = object_write(blob("A"), Some(&mut repo)).unwrap();
    let h_t = object_write(GitObject::Tree(tree(vec![leaf("a", &h_a)])), Some(&mut repo)).unwrap();
    let h_c = object_write(commit(&h_t, "msg"), Some(&mut repo)).unwrap();
    assert_eq!(checkout_commit(&repo, &"HEAD".to_string(), "out"), Err(GitError::NotFound));
    let mut master = Ref::new("refs/heads/master".to_string());
    master.add_target(RefType::Direct(h_c)).unwrap();
    master.write(&mut repo).unwrap();
    assert_eq!(checkout_commit(&repo, &"HEAD".to_string(), "out"), Ok(vec![file("out/a", "A")]));
}

#[test]
fn subtrees_become_directories() {
    let mut repo = Repository::create("dummy_repo".to_string()).unwrap();
    let h_a = object_write(blob("A"), Some(&mut repo)).unwrap();
    let h_b = object_write(blob("B"), Some(&mut repo)).unwrap();
    let inner = tree(vec![leaf("deep.txt", &h_b)]);
    let h_inner = object_write(GitObject::Tree(inner), Some(&mut repo)).unwrap();
    let middle = tree(vec![leaf("inner", &h_inner), leaf("mid.txt", &h_a)]);
    let h_middle = object_write(GitObject::Tree(middle), Some(&mut repo)).unwrap();
    let top = tree(vec![leaf("z.txt", &h_a), leaf("dir", &h_middle)]);
    assert_eq!(
        top.checkout(&repo, "/tmp/w"),
        vec![
            file("/tmp/w/z.txt", "A"),
            CheckoutStep::Directory("/tmp/w/dir".to_string()),
            CheckoutStep::Directory("/tmp/w/dir/inner".to_string()),
            file("/tmp/w/dir/inner/deep.txt", "B"),
            file("/tmp/w/dir/mid.txt", "A"),
        ]
    );
}

#[test]
fn one_failing_leaf_does_not_stop_the_others() {
    let mut repo = Repository::create("dummy_repo".to_string()).unwrap();
    let h_a = object_write(blob("A"), Some(&mut repo)).unwrap();
    let h_c = object_write(commit("abc", "msg"), Some(&mut repo)).unwrap();
    let tag = GitTag::new_lightweight("v".to_string(), h_a.clone(), &repo).unwrap();
    let h_tag = object_write(GitObject::Tag(tag), Some(&mut repo)).unwrap();
    repo.objects.push(StoredObject {
        sha: "corrupt".to_string(),
        data: Bytes::from(&b"blob 5\x00A"[..]),
    });
    repo.objects.push(StoredObject {
        sha: "garbled".to_string(),
        data: Bytes::from(&b"blob\x00A"[..]),
    });
    let top = tree(vec![
        leaf("first", &h_a),
        leaf("missing", "0000"),
        leaf("commit", &h_c),
        leaf("tag", &h_tag),
        leaf("corrupt", "corrupt"),
        leaf("garbled", "garbled"),
        leaf("last", &h_a),
    ]);
    assert_eq!(
        top.checkout(&repo, "w"),
        vec![
            file("w/first", "A"),
            CheckoutStep::Failed("w/missing".to_string(), GitError::NotFound),
            CheckoutStep::Failed("w/commit".to_string(), GitError::Checkout),
            CheckoutStep::Failed("w/tag".to_string(), GitError::Checkout),
            CheckoutStep::Failed("w/corrupt".to_string(), GitError::Integrity),
            CheckoutStep::Failed("w/garbled".to_string(), GitError::Format),
            file("w/last", "A"),
        ]
    );
}

#[test]
fn trees_that_hold_themselves_end_in_a_failure() {
    let mut repo = Repository::create("dummy_repo".to_string()).unwrap();
    let looping = tree(vec![leaf("again", "loop")]);
    repo.objects.push(StoredObject {
        sha: "loop".to_string(),
        data: rust_git::object_utils::encode_object(&GitObject::Tree(looping.clone())).unwrap(),
    });
    assert_eq!(
        looping.checkout(&repo, "w"),
        vec![
            CheckoutStep::Directory("w/again".to_string()),
            CheckoutStep::Failed("w/again/again".to_string(), GitError::Checkout),
        ]
    );
}

#[test]
fn only_commits_check_out() {
    let mut repo = Repository::create("dummy_repo".to_string()).unwrap();
    let h_a = object_write(blob("A"), Some(&mut repo)).unwrap();
    assert_eq!(checkout_commit(&repo, &h_a, "out"), Err(GitError::Format));
    assert_eq!(checkout_commit(&repo, &"none".to_string(), "out"), Err(GitError::NotFound));
    let no_tree = object_write(
        GitObject::Commit(GitCommit { data: KeyValuePairList::new() }),
        Some(&mut repo),
    )
    .unwrap();
    assert_eq!(checkout_commit(&repo, &no_tree, "out"), Err(GitError::NotFound));
    let blob_tree = object_write(commit(&h_a, "m"), Some(&mut repo)).unwrap();
    assert_eq!(checkout_commit(&repo, &blob_tree, "out"), Err(GitError::Format));
    assert_eq!(GitTree::new().checkout(&repo, "out"), vec![]);
}
