//! Consolidation of ignore-file templates gathered from cached template
//! repositories: indexing the repositories, selecting templates by name,
//! merging their bodies, and deciding when the cache must be refreshed.

pub mod text;
pub mod errors;
pub mod index;
pub mod consolidate;
pub mod state;
pub mod config;
pub mod listing;

pub use config::{BaseRepoConfig, Config, Operation, RepoConfig, RepoSource, RuntimeFile};
pub use consolidate::{concatenate_templates, dedup_templates, LoadedTemplate};
pub use errors::{Error, ErrorKind};
pub use index::{
    ignore_file, is_hidden, parse_templates, remove_filetype, ScanEntry, ScanStep, TemplatePaths,
    TemplateScan,
};
pub use state::{check_staleness, State, Timestamp};
