//! Application discovery, fuzzy ranking and launch-command handling for a
//! desktop launcher, with a small browser app-mode flow.

pub mod text;
pub mod index;
pub mod rank;
pub mod launch;
pub mod browser;
pub mod install;
