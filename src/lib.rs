//! Repackages a zipped application bundle into an installable archive with a
//! `Payload/<Bundle>.app/` layout, and holds the decisions of the directory
//! watcher that drives the repackaging unattended.

pub mod archive;
pub mod bundle;
pub mod layout;
pub mod naming;
pub mod payload;
pub mod tree;
pub mod watch;
