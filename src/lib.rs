//! An in-memory key/value cache with publish/subscribe, speaking a
//! RESP-style framed wire protocol.

pub mod error;
pub mod frame;
pub mod entity;
pub mod codec_laws;
pub mod storage;
pub mod parse;
pub mod cmd;
pub mod subscribe;
pub mod cache_laws;
pub mod listener;
