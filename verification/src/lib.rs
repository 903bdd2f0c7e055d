//! A verified core for exposing an encrypted iOS device backup as a
//! read-only filesystem: keybag parsing and class-key unwrapping,
//! random-access AES-256-CBC reading, the manifest inode tree, and the
//! request logic behind the filesystem callbacks.

pub mod adapter;
pub mod archive;
pub mod enc_reader;
pub mod fstree;
pub mod hexid;
pub mod keybag;
pub mod kw;
