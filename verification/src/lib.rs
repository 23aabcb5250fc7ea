//! Verified core of a URL-scheme I/O subsystem: an extent-based on-disk
//! filesystem served through a block-request pipeline, a minimal user-space
//! TCP endpoint over a raw IP transport, a framebuffer resource, and the
//! small time and key types shared by their clients.

pub mod disk;
pub mod display;
pub mod encoding;
pub mod extent;
pub mod file;
pub mod fs;
pub mod key;
pub mod resource;
pub mod tcp;
pub mod tcp_conn;
pub mod time;
