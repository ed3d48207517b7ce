use ignore::config::{join_dir, repo_path_from_url, GITIGNORE_DEFAULT_REPO};
use ignore::{BaseRepoConfig, Config, Operation, RepoConfig, RepoSource};

fn default_cache_dir() -> String {
    let mut parent_dir = dirs_next::cache_dir().unwrap();
    parent_dir.push("ignore/repos");
    parent_dir.into_os_string().into_string().unwrap()
}

fn system_cache_root() -> String {
    dirs_next::cache_dir().unwrap().into_os_string().into_string().unwrap()
}

fn expected_default() -> Config {
    Config::from_parts(
        "".to_owned(),
        BaseRepoConfig {
            cache_dir: default_cache_dir(),
            config: vec![RepoConfig {
                auto_update: false,
                skip: false,
                url: GITIGNORE_DEFAULT_REPO.to_owned(),
                path: "github/gitignore".to_owned(),
            }],
        },
    )
}

#[test]
fn config_variable_test() {
    let config = Config::new(&system_cache_root());
    let test_config = expected_default();
    assert!(test_config.eq(&config));
}

#[test]
fn config_create_test() {
    let config = Config::new(&system_cache_root());
    let hardcode_config = expected_default();
    assert!(hardcode_config.repository.eq(&config.repository));
}

#[test]
fn config_config_var_create_test() {
    let config = Config::new(&system_cache_root());
    let hardcode_config = expected_default();
    assert!(hardcode_config.repository.eq(&config.repository));
}

#[test]
fn config_file_config_var_create_test() {
    let config = Config::new(&system_cache_root());
    let hardcode_config = expected_default();
    assert!(hardcode_config.eq(&config));
}

#[test]
fn repo_path_from_url_cases() {
    assert_eq!(
        repo_path_from_url("https://github.com/github/gitignore"),
        Some("github/gitignore".to_string())
    );
    assert_eq!(
        repo_path_from_url("https://github.com/toptal//gitignore/"),
        Some("toptal/gitignore".to_string())
    );
    assert_eq!(repo_path_from_url("gitignore"), Some("undefined/gitignore".to_string()));
    assert_eq!(repo_path_from_url(""), None);
    assert_eq!(repo_path_from_url("///"), None);
}

#[test]
fn join_dir_cases() {
    assert_eq!(join_dir("/home/u/.cache", "ignore/repos"), "/home/u/.cache/ignore/repos");
    assert_eq!(join_dir("/home/u/.cache/", "ignore/repos"), "/home/u/.cache/ignore/repos");
    assert_eq!(join_dir("", "ignore/repos"), "ignore/repos");
}

fn sample_config() -> Config {
    Config::from_parts(
        "/cfg/config.toml".to_string(),
        BaseRepoConfig {
            cache_dir: "/cache".to_string(),
            config: vec![
                RepoConfig { auto_update: true, skip: false, path: "a/one".into(), url: "https://x/a/one".into() },
                RepoConfig { auto_update: false, skip: true, path: "b/two".into(), url: "https://x/b/two".into() },
                RepoConfig { auto_update: false, skip: false, path: "local".into(), url: "".into() },
            ],
        },
    )
}

#[test]
fn index_sources_skip_skipped_repositories() {
    let config = sample_config();
    assert_eq!(config.path(), "/cfg/config.toml");
    assert_eq!(
        config.index_sources(),
        vec![
            RepoSource { root: "/cache/a/one".into(), url: "https://x/a/one".into() },
            RepoSource { root: "/cache/local".into(), url: "".into() },
        ]
    );
}

#[test]
fn refresh_sources_by_operation() {
    let config = sample_config();
    assert_eq!(
        config.refresh_sources(Operation::GenerateGitignore),
        vec![RepoSource { root: "/cache/a/one".into(), url: "https://x/a/one".into() }]
    );
    assert_eq!(
        config.refresh_sources(Operation::UpdateRepositories),
        vec![
            RepoSource { root: "/cache/a/one".into(), url: "https://x/a/one".into() },
            RepoSource { root: "/cache/b/two".into(), url: "https://x/b/two".into() },
        ]
    );
}
