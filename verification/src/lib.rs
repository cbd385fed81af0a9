//! Replicated metadata service of a distributed file system, with the
//! decision logic of its S3 front end.

pub mod bytes;
pub mod calls;
pub mod clock;
pub mod ids;
pub mod master;
pub mod parse;
pub mod raft;
pub mod ranges;
pub mod reading;
pub mod s3;
pub mod shards;
pub mod sorting;
pub mod strmap;
pub mod text;
pub mod words;
