//! The commands and options of the command line, as plain data.
use vstd::prelude::*;

verus! {

/// What to put in an encrypted archive.
#[derive(Clone, Copy, Debug, PartialEq, Eq, Structural)]
pub enum ArchiveExportMode {
    /// The resolved project/env scope.
    Scope,
    /// The resolved project, with every environment.
    Project,
}

/// How `env` prints a scope.
#[derive(Clone, Copy, Debug, PartialEq, Eq, Structural)]
pub enum EnvFormat {
    Shell,
    Json,
}

/// The version of a Vault KV engine.
#[derive(Clone, Copy, Debug, PartialEq, Eq, Structural)]
pub enum KvVersionArg {
    V1,
    V2,
}

/// Subcommands of `vault`.
#[derive(Clone, Debug)]
pub enum VaultCommands {
    Encrypt {
        env_key: String,
        vault_addr: String,
        transit_path: String,
        vault_key: String,
        verify_decrypt: bool,
    },
    Push {
        env_keys: Vec<String>,
        vault_addr: String,
        mount: String,
        path: String,
        kv_version: KvVersionArg,
    },
}

/// Subcommands of `master`.
#[derive(Clone, Debug)]
pub enum MasterCommands {
    SetSecret { stdin: bool },
    Clear,
    Status,
}

/// Subcommands of `archive`.
#[derive(Clone, Debug)]
pub enum ArchiveCommands {
    Export { file: String, mode: ArchiveExportMode },
    Import { file: String, replace: bool },
}

/// The commands.
#[derive(Clone, Debug)]
pub enum Commands {
    Init { project: Option<String>, env: Option<String>, force: bool },
    SetSecret { parts: Vec<String>, stdin: bool, from_env: Option<String>, source: String, note: Option<String> },
    Get { name: String },
    Import { file: String, replace: bool, source: String },
    List { scope: Vec<String>, show_metadata: bool },
    Run { scope: Vec<String>, command: Vec<String> },
    Exec {
        vault_encrypt: Vec<String>,
        vault_addr: Option<String>,
        transit_path: String,
        vault_key: Option<String>,
        command: Vec<String>,
    },
    Env { format: EnvFormat },
    Remove { parts: Vec<String> },
    Unset { parts: Vec<String> },
    Purge { yes: bool },
    Vault { command: VaultCommands },
    Master { command: MasterCommands },
    Archive { command: ArchiveCommands },
    Doctor,
}

/// A parsed command line.
#[derive(Clone, Debug)]
pub struct Cli {
    pub project: Option<String>,
    pub env: Option<String>,
    pub json: bool,
    pub show_version: bool,
    pub show_license: bool,
    pub command: Option<Commands>,
}

} // verus!
