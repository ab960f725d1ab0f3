//! Secrets for local commands: the verified core of macrun.
pub mod text;
pub mod util;
pub mod vault;
pub mod index;
pub mod strmap;
pub mod keychain;
pub mod sealed;
pub mod k2mx;
pub mod config;
pub mod cli;
pub mod app;
