//! reel_core — the verified engine behind the reel footage manager.
pub mod archive;
pub mod cards;
pub mod config;
pub mod cut;
pub mod dedup;
pub mod import;
pub mod digest;
pub mod edit;
pub mod ledger;
pub mod log;
pub mod media;
pub mod model;
pub mod order;
pub mod organize;
pub mod paths;
pub mod serve;
pub mod share;
pub mod sessions;
pub mod store;
pub mod sync;
pub mod text;
pub mod thumbs;
pub mod pull;
pub mod proxy;
pub mod push;
pub mod rclone;
pub mod remove;
pub mod restore;
pub mod review;
pub mod timeline;
pub mod still;
pub mod trips;
pub mod wipe;
