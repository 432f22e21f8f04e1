use up_rs::generate::git::{keep_path, run, GenerateGitConfig, GitConfig, GitRemote};
use up_rs::env::EnvEntry;

fn cfg(path: &str) -> GitConfig {
    GitConfig {
        path: path.to_string(),
        branch: None,
        remotes: vec![GitRemote {
            name: "origin".to_string(),
            url: format!("git@example.com:{}.git", path),
            push_url: None,
        }],
    }
}

#[test]
fn run_sorts_configs_by_path() {
    let configs = vec![cfg("b/repo"), cfg("a/repo"), cfg("c/repo")];
    let sorted = run(configs);
    let paths: Vec<&str> = sorted.iter().map(|c| c.path.as_str()).collect();
    assert_eq!(paths, vec!["a/repo", "b/repo", "c/repo"]);
}

#[test]
fn run_keeps_duplicates_and_payloads() {
    let configs = vec![cfg("z"), cfg("a"), cfg("z"), cfg("m")];
    let sorted = run(configs);
    let paths: Vec<&str> = sorted.iter().map(|c| c.path.as_str()).collect();
    assert_eq!(paths, vec!["a", "m", "z", "z"]);
    assert_eq!(sorted[0].remotes[0].url, "git@example.com:a.git");
}

#[test]
fn run_on_empty_input_is_empty() {
    let sorted = run(vec![]);
    assert!(sorted.is_empty());
}

#[test]
fn keep_path_without_excludes_keeps_everything() {
    assert!(keep_path(&"/a/b/.git".to_string(), &None));
}

#[test]
fn keep_path_filters_matching_fragments() {
    let ex = Some(vec!["tmp".to_string(), "scratch".to_string()]);
    assert!(!keep_path(&"/a/tmp/b".to_string(), &ex));
    assert!(!keep_path(&"/work/scratch".to_string(), &ex));
    assert!(keep_path(&"/a/real/b".to_string(), &ex));
}

#[test]
fn keep_path_empty_fragment_excludes_all() {
    let ex = Some(vec!["".to_string()]);
    assert!(!keep_path(&"/anything".to_string(), &ex));
}

#[test]
fn generate_config_resolves_paths() {
    let env = vec![EnvEntry { key: "CODE".to_string(), value: "/code".to_string() }];
    let mut cfg = GenerateGitConfig {
        path: "~/up.toml".to_string(),
        search_paths: vec!["$CODE/work".to_string(), "$CODE/play".to_string()],
        excludes: Some(vec!["$CODE/tmp".to_string()]),
    };
    cfg.resolve_env(&env, &Some("/home/sam".to_string())).expect("should resolve");
    assert_eq!(cfg.path, "/home/sam/up.toml");
    assert_eq!(cfg.search_paths, vec!["/code/work".to_string(), "/code/play".to_string()]);
    assert_eq!(cfg.excludes, Some(vec!["/code/tmp".to_string()]));

    let mut bad = GenerateGitConfig {
        path: "$GONE".to_string(),
        search_paths: vec![],
        excludes: None,
    };
    match bad.resolve_env(&env, &None) {
        Err(up_rs::env::EnvError::EnvLookup { var }) => assert_eq!(var, "GONE"),
        other => panic!("expected EnvLookup, got {:?}", other),
    }
}
