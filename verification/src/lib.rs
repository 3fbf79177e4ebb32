//! Verified core of the media-operations toolkit: the naming, path, archive
//! triage, volume layout, service-orchestration and log-buffer rules.
pub mod archive;
pub mod cbz;
pub mod classify;
pub mod collectors;
pub mod comicinfo;
pub mod compose;
pub mod config;
pub mod convert;
pub mod dispatch;
pub mod error;
pub mod fake;
pub mod image;
pub mod inspect;
pub mod layout;
pub mod logs;
pub mod paths;
pub mod resource;
pub mod rpc;
pub mod text;
pub mod title;
pub mod video;
pub mod video_inspect;
