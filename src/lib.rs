//! Storage engine core of a time-series database: the TSM file format, the
//! compaction of TSM files, the manifest of file edits and the coordinator's
//! vnode migration decisions.

pub mod block;
pub mod bloom;
pub mod bytes;
pub mod column;
pub mod compact;
pub mod edit_codec;
pub mod reader;
pub mod summary;
pub mod tsm;
pub mod version;
pub mod vnode_mgr;
