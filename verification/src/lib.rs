//! Verified core of the emblem swapper: the emblem record format, the
//! decisions of the intercepting HTTP proxy, and the bookkeeping of the
//! emblem library on disk.
pub mod bytes;
pub mod sort;
pub mod text;
pub mod emblem;
pub mod paths;
pub mod proxy;
pub mod state;
pub mod storage;
pub mod backup;
pub mod diagnostics;
pub mod broadcast;
pub mod commands;
pub mod head_framing;
pub mod chunked_decoding;
pub mod routing;
