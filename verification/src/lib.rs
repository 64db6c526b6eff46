//! Verified core of a small screenshot-gallery web server.
//!
//! The server walks a fixed directory shape under a root directory,
//! presents the discovered images newest-first, and serves individual
//! files back on request.  Everything with an invariant worth stating
//! lives here and is verified:
//!
//! - [`path_guard`]: validates an untrusted relative path before it may
//!   be joined to the root (no traversal, `jpg` extension only);
//! - [`pattern`]: the fixed directory-shape matcher that decides which
//!   files count as screenshots;
//! - [`gallery`]: orders matched entries newest-first and derives the
//!   companion thumbnail path for each.
//!
//! The HTTP routing, template rendering and filesystem walk around this
//! library are plain I/O and stay outside it.

pub mod gallery;
pub mod path_guard;
pub mod pattern;
