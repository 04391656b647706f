//! Verified core of `bksync`: what to transfer between a local directory and a bucket of
//! S3-compatible object storage, what to keep, and what to remember of it.
pub mod cache;
pub mod checksum;
pub mod cli;
pub mod config;
pub mod daemon;
pub mod error;
pub mod filter;
pub mod keys;
pub mod local;
pub mod progress;
pub mod run;
pub mod s3;
pub mod sync;
pub mod text;
pub mod time;
