use rust_git::config::{Config, ConfigContents, CoreContents};
use rust_git::error::GitError;
use rust_git::file_utils::{repo_file, repo_path};
use rust_git::refs::{Ref, RefType};
use rust_git::repository::Repository;

#[test]
fn repo_create_new_and_find() {
    // initialise an empty repo
    let repo = Repository::create("dummy_repo".to_string());
    println!("Created test repo: {:?} in {:?}", repo, "dummy_repo");
    assert!(repo.is_ok());
    let repo = repo.unwrap();

    // load that repo
    let repo_2 = Repository::new("dummy_repo".to_string(), Some(repo.conf.contents.clone()), false);
    println!("Found repo: {:?}", repo_2);
    assert_eq!(repo_2.unwrap().worktree, repo.worktree);
}

#[test]
fn test_repo_path() {
    let repo = Repository::create("dummy_repo".to_string());
    println!("Created test repo: {:?} in {:?}", repo, "dummy_repo");
    assert!(repo.is_ok());

    let path = repo_path(&repo.unwrap(), vec!["first".to_string(), "second".to_string()]);

    assert_eq!(path, "dummy_repo/.git/first/second");
}

#[test]
fn fresh_repository_has_head_and_nothing_else() {
    let repo = Repository::create("work".to_string()).unwrap();
    assert_eq!(repo.worktree, "work");
    assert_eq!(repo.gitdir, "work/.git");
    assert_eq!(repo.conf, Config::new("work/.git/config".to_string()));
    assert_eq!(repo.objects, vec![]);
    assert_eq!(
        repo.refs,
        vec![Ref {
            name: "HEAD".to_string(),
            target: Some(RefType::Indirect("refs/heads/master".to_string()))
        }]
    );
    assert_eq!(
        repo.create_dirs(),
        vec![
            "work/.git/branches".to_string(),
            "work/.git/objects".to_string(),
            "work/.git/refs/tags".to_string(),
            "work/.git/refs/heads".to_string()
        ]
    );
}

#[test]
fn opening_checks_the_configuration() {
    let good = ConfigContents { core: CoreContents::new() };
    let bad = ConfigContents {
        core: CoreContents { repository_format_version: 1, filemode: false, bare: false },
    };
    let bare = ConfigContents {
        core: CoreContents { repository_format_version: 0, filemode: true, bare: true },
    };
    assert_eq!(
        Repository::new("w".to_string(), None, false),
        Err(GitError::NotFound)
    );
    assert_eq!(
        Repository::new("w".to_string(), Some(bad.clone()), false),
        Err(GitError::Config)
    );
    let forced = Repository::new("w".to_string(), Some(bad.clone()), true).unwrap();
    assert_eq!(forced.conf.contents, bad);
    let opened = Repository::new("w".to_string(), Some(bare.clone()), false).unwrap();
    assert_eq!(opened.conf.contents, bare);
    assert_eq!(opened.conf.path, "w/.git/config");
    assert_eq!(opened.refs, vec![]);
    let fresh = Repository::new("w".to_string(), None, true).unwrap();
    assert_eq!(fresh.conf.contents, good);
    assert_eq!(fresh.version_check(&good), Ok(()));
    assert_eq!(fresh.version_check(&bad), Err(GitError::Config));
}

#[test]
fn default_configuration_is_format_zero() {
    let core = CoreContents::new();
    assert_eq!(core.repository_format_version, 0);
    assert!(!core.filemode);
    assert!(!core.bare);
    let config = Config::new("some/path".to_string());
    assert_eq!(config.path, "some/path");
    assert_eq!(config.contents, ConfigContents { core });
}

#[test]
fn repo_file_needs_a_segment() {
    let repo = Repository::create("r".to_string()).unwrap();
    assert_eq!(repo_file(&repo, vec![]), Err(GitError::NotFound));
    assert_eq!(repo_file(&repo, vec!["HEAD".to_string()]), Ok("r/.git/HEAD".to_string()));
    assert_eq!(
        repo_file(&repo, vec!["objects".to_string(), "ab".to_string(), "cd".to_string()]),
        Ok("r/.git/objects/ab/cd".to_string())
    );
    assert_eq!(repo_path(&repo, vec![]), "r/.git");
}

#[test]
fn every_error_has_a_description() {
    assert_eq!(GitError::Format.describe(), "malformed data");
    assert_eq!(GitError::Integrity.describe(), "payload length mismatch");
    assert_eq!(GitError::NotFound.describe(), "not found");
    assert_eq!(GitError::Cycle.describe(), "reference cycle");
    assert_eq!(GitError::Checkout.describe(), "checkout failed");
    assert_eq!(GitError::Config.describe(), "unsupported repository format");
}
