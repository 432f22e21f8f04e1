use up_rs::tasks::link::{
    resolve_directory, run, FsAction, FsNode, LinkConfig, LinkError, Tree, TreeEntry,
};
use up_rs::env::EnvEntry;

fn p(parts: &[&str]) -> Vec<String> {
    parts.iter().map(|s| s.to_string()).collect()
}

fn entry(parts: &[&str], node: FsNode) -> TreeEntry {
    TreeEntry { path: p(parts), node }
}

fn tree(entries: Vec<TreeEntry>) -> Tree {
    Tree { entries }
}

fn node_at<'a>(t: &'a Tree, parts: &[&str]) -> Option<&'a FsNode> {
    let path = p(parts);
    t.entries.iter().find(|e| e.path == path).map(|e| &e.node)
}

#[test]
fn conflict_file_becomes_directory() {
    // `from` contains a/b.txt; `to` already contains a regular file named `a`.
    let from = tree(vec![entry(&["a", "b.txt"], FsNode::File(42))]);
    let mut to = tree(vec![entry(&["a"], FsNode::File(7))]);
    let mut backup = tree(vec![]);
    let from_abs = p(&["home", "dots"]);

    let (acts, res) = run(&from, &mut to, &mut backup, &from_abs);
    assert_eq!(res, Ok(()));
    // to/a/b.txt is now a symlink at from/a/b.txt.
    assert_eq!(
        node_at(&to, &["a", "b.txt"]),
        Some(&FsNode::Symlink(p(&["home", "dots", "a", "b.txt"])))
    );
    // The original file at to/a was preserved in the backup, unchanged.
    assert_eq!(node_at(&backup, &["a"]), Some(&FsNode::File(7)));
    assert!(node_at(&to, &["a"]).is_none());
    assert!(acts.contains(&FsAction::MoveToBackup { rel: p(&["a"]) }));
}

#[test]
fn fresh_target_links_every_entry() {
    let from = tree(vec![
        entry(&[".bashrc"], FsNode::File(1)),
        entry(&["conf", "app.toml"], FsNode::File(2)),
        entry(&["conf", "deep", "x"], FsNode::File(3)),
    ]);
    let mut to = tree(vec![]);
    let mut backup = tree(vec![]);
    let from_abs = p(&["dots"]);

    let (_acts, res) = run(&from, &mut to, &mut backup, &from_abs);
    assert_eq!(res, Ok(()));
    assert_eq!(
        node_at(&to, &[".bashrc"]),
        Some(&FsNode::Symlink(p(&["dots", ".bashrc"])))
    );
    assert_eq!(
        node_at(&to, &["conf", "app.toml"]),
        Some(&FsNode::Symlink(p(&["dots", "conf", "app.toml"])))
    );
    assert_eq!(
        node_at(&to, &["conf", "deep", "x"]),
        Some(&FsNode::Symlink(p(&["dots", "conf", "deep", "x"])))
    );
    assert!(backup.entries.is_empty());
}

#[test]
fn already_linked_is_a_no_op() {
    let from = tree(vec![entry(&["a", "b.txt"], FsNode::File(42))]);
    let mut to = tree(vec![entry(
        &["a", "b.txt"],
        FsNode::Symlink(p(&["dots", "a", "b.txt"])),
    )]);
    let mut backup = tree(vec![]);
    let from_abs = p(&["dots"]);

    let before = to.clone();
    let (acts, res) = run(&from, &mut to, &mut backup, &from_abs);
    assert_eq!(res, Ok(()));
    assert!(acts.is_empty());
    assert_eq!(to, before);
    assert!(backup.entries.is_empty());
}

#[test]
fn second_run_changes_nothing() {
    let from = tree(vec![
        entry(&[".bashrc"], FsNode::File(1)),
        entry(&["a", "b.txt"], FsNode::File(2)),
    ]);
    let mut to = tree(vec![entry(&["a"], FsNode::File(9))]);
    let mut backup = tree(vec![]);
    let from_abs = p(&["dots"]);

    let (_acts, res) = run(&from, &mut to, &mut backup, &from_abs);
    assert_eq!(res, Ok(()));
    let to_after_first = to.clone();
    let backup_after_first = backup.clone();

    let (acts2, res2) = run(&from, &mut to, &mut backup, &from_abs);
    assert_eq!(res2, Ok(()));
    assert!(acts2.is_empty());
    assert_eq!(to, to_after_first);
    assert_eq!(backup, backup_after_first);
}

#[test]
fn wrong_symlink_is_replaced_without_backup() {
    let from = tree(vec![entry(&["x"], FsNode::File(5))]);
    let mut to = tree(vec![entry(&["x"], FsNode::Symlink(p(&["elsewhere", "x"])))]);
    let mut backup = tree(vec![]);
    let from_abs = p(&["dots"]);

    let (acts, res) = run(&from, &mut to, &mut backup, &from_abs);
    assert_eq!(res, Ok(()));
    assert_eq!(node_at(&to, &["x"]), Some(&FsNode::Symlink(p(&["dots", "x"]))));
    assert!(backup.entries.is_empty());
    assert!(acts.contains(&FsAction::RemoveLink { rel: p(&["x"]) }));
}

#[test]
fn blocking_directory_is_backed_up_whole() {
    // `to/f` is a directory with content, but the source has a file `f`.
    let from = tree(vec![entry(&["f"], FsNode::File(1))]);
    let mut to = tree(vec![entry(&["f", "inner.txt"], FsNode::File(9))]);
    let mut backup = tree(vec![]);
    let from_abs = p(&["dots"]);

    let (acts, res) = run(&from, &mut to, &mut backup, &from_abs);
    assert_eq!(res, Ok(()));
    assert_eq!(node_at(&to, &["f"]), Some(&FsNode::Symlink(p(&["dots", "f"]))));
    assert_eq!(node_at(&backup, &["f", "inner.txt"]), Some(&FsNode::File(9)));
    assert!(acts.contains(&FsAction::MoveToBackup { rel: p(&["f"]) }));
}

#[test]
fn empty_source_directories_are_not_linked() {
    let from = tree(vec![
        entry(&["d"], FsNode::EmptyDir),
        entry(&["x"], FsNode::File(1)),
    ]);
    let mut to = tree(vec![]);
    let mut backup = tree(vec![]);
    let from_abs = p(&["dots"]);

    let (_acts, res) = run(&from, &mut to, &mut backup, &from_abs);
    assert_eq!(res, Ok(()));
    assert!(node_at(&to, &["d"]).is_none());
    assert!(node_at(&to, &["x"]).is_some());
}

#[test]
fn symlink_ancestor_is_removed_not_backed_up() {
    let from = tree(vec![entry(&["a", "b"], FsNode::File(3))]);
    let mut to = tree(vec![entry(&["a"], FsNode::Symlink(p(&["somewhere"])))]);
    let mut backup = tree(vec![]);
    let from_abs = p(&["dots"]);

    let (acts, res) = run(&from, &mut to, &mut backup, &from_abs);
    assert_eq!(res, Ok(()));
    assert_eq!(
        node_at(&to, &["a", "b"]),
        Some(&FsNode::Symlink(p(&["dots", "a", "b"])))
    );
    assert!(backup.entries.is_empty());
    assert!(acts.contains(&FsAction::RemoveLink { rel: p(&["a"]) }));
}

#[test]
fn resolve_directory_accepts_existing_directories() {
    let fs = tree(vec![
        entry(&["home", "sam", "file"], FsNode::File(1)),
        entry(&["empty"], FsNode::EmptyDir),
    ]);
    assert_eq!(resolve_directory(&fs, &p(&["home", "sam"]), "From"), Ok(p(&["home", "sam"])));
    assert_eq!(resolve_directory(&fs, &p(&["empty"]), "To"), Ok(p(&["empty"])));
    assert_eq!(resolve_directory(&fs, &[].to_vec(), "Root"), Ok(vec![]));
    match resolve_directory(&fs, &p(&["nope"]), "Backup") {
        Err(LinkError::MissingDir { name, path }) => {
            assert_eq!(name, "Backup");
            assert_eq!(path, p(&["nope"]));
        }
        other => panic!("expected MissingDir, got {:?}", other),
    }
    // A file is not a directory.
    match resolve_directory(&fs, &p(&["home", "sam", "file"]), "From") {
        Err(LinkError::MissingDir { .. }) => {}
        other => panic!("expected MissingDir, got {:?}", other),
    }
}

#[test]
fn link_config_resolves_fields() {
    let env = vec![
        EnvEntry { key: "ROOT".to_string(), value: "/data".to_string() },
    ];
    let mut cfg = LinkConfig {
        from_dir: "~/dots".to_string(),
        to_dir: "$ROOT/home".to_string(),
        backup_dir: "${ROOT}/backup".to_string(),
    };
    cfg.resolve_env(&env, &Some("/home/sam".to_string())).expect("should resolve");
    assert_eq!(cfg.from_dir, "/home/sam/dots");
    assert_eq!(cfg.to_dir, "/data/home");
    assert_eq!(cfg.backup_dir, "/data/backup");

    let mut bad = LinkConfig {
        from_dir: "$MISSING".to_string(),
        to_dir: "x".to_string(),
        backup_dir: "y".to_string(),
    };
    match bad.resolve_env(&env, &None) {
        Err(up_rs::env::EnvError::EnvLookup { var }) => assert_eq!(var, "MISSING"),
        other => panic!("expected EnvLookup, got {:?}", other),
    }
}

#[test]
fn backup_collision_fails_with_rename_error() {
    // The backup tree already holds content at the displacement target;
    // nothing may be overwritten, so the run stops.
    let from = tree(vec![entry(&["x"], FsNode::File(1))]);
    let mut to = tree(vec![entry(&["x"], FsNode::File(2))]);
    let mut backup = tree(vec![entry(&["x"], FsNode::File(9))]);
    let from_abs = p(&["dots"]);

    let (_acts, res) = run(&from, &mut to, &mut backup, &from_abs);
    match res {
        Err(LinkError::RenameError { from_path, to_path }) => {
            assert_eq!(from_path, p(&["x"]));
            assert_eq!(to_path, p(&["x"]));
        }
        other => panic!("expected RenameError, got {:?}", other),
    }
    // Nothing was lost: both files are still where they were.
    assert_eq!(node_at(&to, &["x"]), Some(&FsNode::File(2)));
    assert_eq!(node_at(&backup, &["x"]), Some(&FsNode::File(9)));
}

#[test]
fn backup_blocking_file_fails_with_create_dir_error() {
    // A file in the backup tree blocks the scaffolding directories that the
    // displaced file would need.
    let from = tree(vec![entry(&["a", "b"], FsNode::File(1))]);
    let mut to = tree(vec![entry(&["a", "b"], FsNode::File(2))]);
    let mut backup = tree(vec![entry(&["a"], FsNode::File(9))]);
    let from_abs = p(&["dots"]);

    let (_acts, res) = run(&from, &mut to, &mut backup, &from_abs);
    match res {
        Err(LinkError::CreateDirError { path }) => assert_eq!(path, p(&["a"])),
        other => panic!("expected CreateDirError, got {:?}", other),
    }
    assert_eq!(node_at(&to, &["a", "b"]), Some(&FsNode::File(2)));
    assert_eq!(node_at(&backup, &["a"]), Some(&FsNode::File(9)));
}
