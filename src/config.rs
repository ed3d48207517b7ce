//! The configured template repositories, and which of them each operation
//! works on.

use vstd::prelude::*;
use crate::text::{chars_of, string_of};

verus! {

/// The template repository configured when no configuration exists.
pub const GITIGNORE_DEFAULT_REPO: &'static str = "https://github.com/github/gitignore";

/// Where, under the system's cache directory, template repositories are
/// cached.
pub const GITIGNORE_REPO_CACHE_DIR: &'static str = "ignore/repos";

/// One configured template repository.
#[derive(Debug, Clone, PartialEq, Eq)]
pub struct RepoConfig {
    /// Whether the repository is refreshed when the cache is stale.
    pub auto_update: bool,
    /// Whether the repository is left out of every operation but a forced
    /// refresh.
    pub skip: bool,
    /// The repository's directory, relative to the cache directory.
    pub path: String,
    /// The remote the repository is cloned from.
    pub url: String,
}

impl RepoConfig {
    pub open spec fn view(&self) -> (bool, bool, Seq<char>, Seq<char>) {
        (self.auto_update, self.skip, self.path@, self.url@)
    }
}

/// The cache directory and the repositories cached in it.
#[derive(Debug, Clone, PartialEq, Eq)]
pub struct BaseRepoConfig {
    pub cache_dir: String,
    pub config: Vec<RepoConfig>,
}

/// The configuration: the repositories, and the file it is kept in.
#[derive(Debug, Clone, PartialEq, Eq)]
pub struct Config {
    config_path: String,
    pub repository: BaseRepoConfig,
}

/// The operation the user asked for.
#[derive(Debug, Clone, Copy, PartialEq, Eq, Structural)]
pub enum Operation {
    ListAvailableTemplates,
    UpdateRepositories,
    GenerateGitignore,
    GenerateCompletions,
    Else,
}

/// The files that persist between runs.
#[derive(Debug, Clone, Copy, PartialEq, Eq, Structural)]
pub enum RuntimeFile {
    /// The configuration file.
    ConfigFile,
    /// The state file.
    StateFile,
}

/// A repository to work on: its local directory and its remote.
#[derive(Debug, Clone, PartialEq, Eq)]
pub struct RepoSource {
    pub root: String,
    pub url: String,
}

impl RepoSource {
    pub open spec fn view(&self) -> (Seq<char>, Seq<char>) {
        (self.root@, self.url@)
    }
}

/// The finished `/`-separated segments of `s` so far, and the segment still
/// open, after reading all of `s`. Empty segments are dropped.
pub open spec fn segment_state(s: Seq<char>) -> (Seq<Seq<char>>, Seq<char>)
    decreases s.len(),
{
    if s.len() == 0 {
        (seq![], seq![])
    } else {
        let (done, open) = segment_state(s.drop_last());
        if s.last() == '/' {
            if open.len() > 0 {
                (done.push(open), seq![])
            } else {
                (done, seq![])
            }
        } else {
            (done, open.push(s.last()))
        }
    }
}

/// The non-empty `/`-separated segments of `s`.
pub open spec fn segments(s: Seq<char>) -> Seq<Seq<char>> {
    let (done, open) = segment_state(s);
    if open.len() > 0 {
        done.push(open)
    } else {
        done
    }
}

/// The cache directory of a repository cloned from `url`: its last two
/// segments, `owner/name`; `undefined/name` when it has one; none when it
/// has none.
pub open spec fn repo_dir_of(url: Seq<char>) -> Option<Seq<char>> {
    let segs = segments(url);
    if segs.len() == 0 {
        None
    } else if segs.len() < 2 {
        Some("undefined/"@ + segs.last())
    } else {
        Some(segs[segs.len() - 2] + seq!['/'] + segs[segs.len() - 1])
    }
}

/// `child` placed under the directory `parent`.
pub open spec fn join_path(parent: Seq<char>, child: Seq<char>) -> Seq<char> {
    if parent.len() == 0 {
        child
    } else if parent.last() == '/' {
        parent + child
    } else {
        parent + seq!['/'] + child
    }
}

/// The cache directory of a repository cloned from `url`: `owner/name` from
/// its last two segments, `undefined/name` when it has only one, `None` when
/// it has none.
pub fn repo_path_from_url(url: &str) -> (r: Option<String>)
    ensures
        match r {
            Some(p) => repo_dir_of(url@) == Some(p@),
            None => repo_dir_of(url@) is None,
        },
{
    let cs = chars_of(url);
    let mut done: Vec<Vec<char>> = Vec::new();
    let mut open: Vec<char> = Vec::new();
    let mut i: usize = 0;
    while i < cs.len()
        invariant
            i <= cs@.len(),
            done@.len() == segment_state(cs@.take(i as int)).0.len(),
            forall|k: int|
                0 <= k < done@.len() ==> #[trigger] done@[k]@ == segment_state(cs@.take(i as int)).0[k],
            open@ == segment_state(cs@.take(i as int)).1,
        decreases cs@.len() - i,
    {
        let c = cs[i];
        proof {
            assert(cs@.take(i + 1).drop_last() =~= cs@.take(i as int));
            assert(cs@.take(i + 1).last() == c);
        }
        if c == '/' {
            if open.len() > 0 {
                let seg = open;
                open = Vec::new();
                done.push(seg);
            }
        } else {
            open.push(c);
        }
        i += 1;
    }
    proof {
        assert(cs@.take(cs@.len() as int) =~= cs@);
    }
    if open.len() > 0 {
        done.push(open);
    }
    let n = done.len();
    if n == 0 {
        None
    } else if n < 2 {
        let mut p = String::from_str("undefined/");
        let last = string_of(&done[n - 1]);
        p.append(last.as_str());
        Some(p)
    } else {
        let mut p = string_of(&done[n - 2]);
        p.append("/");
        let last = string_of(&done[n - 1]);
        p.append(last.as_str());
        proof {
            reveal_strlit("/");
        }
        Some(p)
    }
}

/// `child` placed under the directory `parent`, as `PathBuf::push` places a
/// relative path.
pub fn join_dir(parent: &str, child: &str) -> (r: String)
    ensures
        r@ == join_path(parent@, child@),
{
    let ps = chars_of(parent);
    let mut r = String::from_str(parent);
    if ps.len() > 0 && ps[ps.len() - 1] != '/' {
        r.append("/");
        proof {
            reveal_strlit("/");
        }
    }
    r.append(child);
    r
}

/// The local directory of a repository whose cache path is `path`.
pub open spec fn repo_root(cache_dir: Seq<char>, path: Seq<char>) -> Seq<char> {
    cache_dir + seq!['/'] + path
}

/// The repositories indexed for templates: those not skipped, in order.
pub open spec fn index_sources_of(cache_dir: Seq<char>, confs: Seq<(bool, bool, Seq<char>, Seq<char>)>) -> Seq<
    (Seq<char>, Seq<char>),
>
    decreases confs.len(),
{
    if confs.len() == 0 {
        seq![]
    } else {
        let pre = index_sources_of(cache_dir, confs.drop_last());
        let c = confs.last();
        if !c.1 {
            pre.push((repo_root(cache_dir, c.2), c.3))
        } else {
            pre
        }
    }
}

/// Whether a repository is refreshed by a refresh running for `operation`:
/// it has a remote, and it is refreshed automatically or the user asked for
/// the refresh.
pub open spec fn refreshed(c: (bool, bool, Seq<char>, Seq<char>), operation: Operation) -> bool {
    c.3.len() > 0 && (c.0 || operation == Operation::UpdateRepositories)
}

/// The repositories a refresh running for `operation` works on, in order.
pub open spec fn refresh_sources_of(
    cache_dir: Seq<char>,
    confs: Seq<(bool, bool, Seq<char>, Seq<char>)>,
    operation: Operation,
) -> Seq<(Seq<char>, Seq<char>)>
    decreases confs.len(),
{
    if confs.len() == 0 {
        seq![]
    } else {
        let pre = refresh_sources_of(cache_dir, confs.drop_last(), operation);
        let c = confs.last();
        if refreshed(c, operation) {
            pre.push((repo_root(cache_dir, c.2), c.3))
        } else {
            pre
        }
    }
}

fn source_of(cache_dir: &String, conf: &RepoConfig) -> (r: RepoSource)
    ensures
        r.view() == (repo_root(cache_dir@, conf.path@), conf.url@),
{
    let mut root = cache_dir.clone();
    root.append("/");
    root.append(conf.path.as_str());
    proof {
        reveal_strlit("/");
    }
    RepoSource { root, url: conf.url.clone() }
}

impl Config {
    /// The repository settings.
    pub closed spec fn repos(&self) -> BaseRepoConfig {
        self.repository
    }

    /// The repositories, as values.
    pub open spec fn confs(&self) -> Seq<(bool, bool, Seq<char>, Seq<char>)> {
        self.repos().config@.map_values(|c: RepoConfig| c.view())
    }

    /// The file the configuration is kept in.
    pub closed spec fn path_view(&self) -> Seq<char> {
        self.config_path@
    }

    /// The default configuration under the system cache directory
    /// `cache_root`: one repository, the default remote, cached under its
    /// `owner/name`, neither refreshed automatically nor skipped.
    pub fn new(cache_root: &str) -> (r: Config)
        ensures
            r.repos().cache_dir@ == join_path(cache_root@, GITIGNORE_REPO_CACHE_DIR@),
            r.confs() == seq![
                (
                    false,
                    false,
                    match repo_dir_of(GITIGNORE_DEFAULT_REPO@) {
                        Some(p) => p,
                        None => GITIGNORE_DEFAULT_REPO@,
                    },
                    GITIGNORE_DEFAULT_REPO@,
                ),
            ],
            r.path_view().len() == 0,
    {
        let path = match repo_path_from_url(GITIGNORE_DEFAULT_REPO) {
            Some(p) => p,
            None => GITIGNORE_DEFAULT_REPO.to_owned(),
        };
        let repo = RepoConfig {
            auto_update: false,
            skip: false,
            path,
            url: GITIGNORE_DEFAULT_REPO.to_owned(),
        };
        let mut config: Vec<RepoConfig> = Vec::new();
        config.push(repo);
        let r = Config {
            config_path: String::new(),
            repository: BaseRepoConfig { cache_dir: join_dir(cache_root, GITIGNORE_REPO_CACHE_DIR), config },
        };
        proof {
            assert(r.confs() =~= seq![r.repository.config@[0].view()]);
        }
        r
    }

    /// A configuration of these repositories, kept in the file `path`.
    pub fn from_parts(path: String, repository: BaseRepoConfig) -> (r: Config)
        ensures
            r.repos() == repository,
            r.path_view() == path@,
    {
        Config { config_path: path, repository }
    }

    /// The file the configuration is kept in.
    pub fn path(&self) -> (r: &String)
        ensures
            r@ == self.path_view(),
    {
        &self.config_path
    }

    /// The repositories indexed for templates: every one not skipped, in
    /// configuration order, with its directory under the cache directory.
    pub fn index_sources(&self) -> (r: Vec<RepoSource>)
        ensures
            r@.map_values(|s: RepoSource| s.view()) == index_sources_of(
                self.repos().cache_dir@,
                self.confs(),
            ),
    {
        let ghost cs = self.confs();
        let confs = &self.repository.config;
        let mut out: Vec<RepoSource> = Vec::new();
        let mut i: usize = 0;
        while i < confs.len()
            invariant
                i <= confs@.len(),
                cs == self.confs(),
                confs == &self.repository.config,
                out@.map_values(|s: RepoSource| s.view()) == index_sources_of(
                    self.repository.cache_dir@,
                    cs.take(i as int),
                ),
            decreases confs@.len() - i,
        {
            proof {
                assert(cs.take(i + 1).drop_last() =~= cs.take(i as int));
                assert(cs.take(i + 1).last() == confs@[i as int].view());
            }
            if !confs[i].skip {
                let ghost before = out@.map_values(|s: RepoSource| s.view());
                let src = source_of(&self.repository.cache_dir, &confs[i]);
                out.push(src);
                proof {
                    assert(out@.map_values(|s: RepoSource| s.view()) =~= before.push(src.view()));
                }
            }
            i += 1;
        }
        proof {
            assert(cs.take(confs@.len() as int) =~= cs);
        }
        out
    }

    /// The repositories a refresh running for `operation` works on: those
    /// with a remote that are refreshed automatically, or all with a remote
    /// when the user asked for the refresh; in configuration order.
    pub fn refresh_sources(&self, operation: Operation) -> (r: Vec<RepoSource>)
        ensures
            r@.map_values(|s: RepoSource| s.view()) == refresh_sources_of(
                self.repos().cache_dir@,
                self.confs(),
                operation,
            ),
    {
        let ghost cs = self.confs();
        let confs = &self.repository.config;
        let mut out: Vec<RepoSource> = Vec::new();
        let mut i: usize = 0;
        while i < confs.len()
            invariant
                i <= confs@.len(),
                cs == self.confs(),
                confs == &self.repository.config,
                out@.map_values(|s: RepoSource| s.view()) == refresh_sources_of(
                    self.repository.cache_dir@,
                    cs.take(i as int),
                    operation,
                ),
            decreases confs@.len() - i,
        {
            proof {
                assert(cs.take(i + 1).drop_last() =~= cs.take(i as int));
                assert(cs.take(i + 1).last() == confs@[i as int].view());
            }
            let conf = &confs[i];
            let forced = match operation {
                Operation::UpdateRepositories => true,
                _ => false,
            };
            if !conf.url.as_str().is_empty() && (conf.auto_update || forced) {
                let ghost before = out@.map_values(|s: RepoSource| s.view());
                let src = source_of(&self.repository.cache_dir, conf);
                out.push(src);
                proof {
                    assert(out@.map_values(|s: RepoSource| s.view()) =~= before.push(src.view()));
                }
            }
            i += 1;
        }
        proof {
            assert(cs.take(confs@.len() as int) =~= cs);
        }
        out
    }
}

} // verus!
