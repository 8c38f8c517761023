//! Locates the newest installed version of an auto-updating desktop
//! application and describes a desktop shortcut that launches it with a
//! multi-instance flag.
//!
//! The heart of the crate is the version resolver: directory names of the
//! form `app-<semver>` are parsed against the semantic-version grammar and
//! the greatest version under full semantic-version precedence is selected.
//! The shortcut writer is modelled as a descriptor built from sanitized
//! paths; the platform link file itself is written by a thin binary around
//! this library.

pub mod version;
pub mod order;
pub mod resolver;
pub mod shortcut;
