//! Reading installer packages: resolving where each file of a package installs,
//! finding its embedded cabinet, and the safe layer over the native installer
//! library, with the decisions of the package viewer's change stream.

pub mod bindings;
pub mod chat;
pub mod columns;
pub mod dirtree;
pub mod events;
pub mod names;
pub mod package;
pub mod scan;
pub mod wrapper;
