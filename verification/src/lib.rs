//! Working parts of a Mihomo command line.
//!
//! A subscription brings three sections of a configuration: `proxies`, `proxy-groups` and
//! `rules`. They are put into a configuration text in place of the sections of these names, and
//! every other line of the text stays as it is ([`merge`], [`merge_laws`], [`section_laws`],
//! [`subscription`], [`config`]). The text is looked at line by line ([`lines`], [`line_laws`],
//! [`sections`]), and values are read and written with `serde_yml` ([`yaml`], [`reading`],
//! [`writing`]).
//!
//! Around this stand the address that a subscription is fetched from ([`meta_url`]), the choice
//! and the check of what is downloaded ([`release`], [`download`], [`digest`]), and the paths
//! and stages of an installation ([`paths`], [`install`]).

pub mod text;
pub mod lines;
pub mod line_laws;
pub mod sections;
pub mod merge;
pub mod merge_laws;
pub mod section_laws;
pub mod yaml;
pub mod reading;
pub mod writing;
pub mod subscription;
pub mod config;
pub mod meta_url;
pub mod digest;
pub mod release;
pub mod download;
pub mod paths;
pub mod install;
