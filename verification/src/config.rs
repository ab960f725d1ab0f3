//! The local project binding (`.macrun.toml`) and the scope a command works in.
use vstd::prelude::*;

use crate::text::copy_str;

verus! {

broadcast use vstd::string::group_string_axioms;

/// The name of the file that binds a working tree to a project.
pub const CONFIG_FILE_NAME: &'static str = ".macrun.toml";

/// The project key of secrets that belong to the machine.
pub const DEFAULT_PROJECT_KEY: &'static str = "__default_project__";

/// The environment used when none is named.
pub const DEFAULT_ENV: &'static str = "dev";

/// The file that binds a working tree to a project.
pub open spec fn config_file_name_spec() -> Seq<char> {
    seq!['.', 'm', 'a', 'c', 'r', 'u', 'n', '.', 't', 'o', 'm', 'l']
}

/// The name of the file that binds a working tree to a project: `.macrun.toml`.
pub fn config_file_name() -> (r: String)
    ensures
        r@ == config_file_name_spec(),
{
    let r = copy_str(".macrun.toml");
    proof { reveal_strlit(".macrun.toml"); }
    assert(r@ =~= config_file_name_spec());
    r
}

/// The contents of `.macrun.toml`.
#[derive(Clone, Debug)]
pub struct LocalConfig {
    pub project: String,
    pub default_env: String,
}

/// A `.macrun.toml` that was found, and where.
#[derive(Clone, Debug)]
pub struct LocalConfigHit {
    pub path: String,
    pub config: LocalConfig,
}

/// The project and environment a command works in.
#[derive(Clone, Debug)]
pub struct ResolvedScope {
    pub project: String,
    pub env: String,
    pub config_path: Option<String>,
}

/// The project key of secrets that belong to the machine.
pub open spec fn default_project_key_spec() -> Seq<char> {
    seq!['_', '_', 'd', 'e', 'f', 'a', 'u', 'l', 't', '_', 'p', 'r', 'o', 'j', 'e', 'c', 't', '_', '_']
}

/// The environment used when none is named.
pub open spec fn default_env_spec() -> Seq<char> {
    seq!['d', 'e', 'v']
}

/// The project key of secrets that belong to the machine: `__default_project__`.
pub fn default_project_key() -> (r: String)
    ensures
        r@ == default_project_key_spec(),
{
    let r = copy_str("__default_project__");
    proof { reveal_strlit("__default_project__"); }
    assert(r@ =~= default_project_key_spec());
    r
}

/// The environment used when none is named: `dev`.
pub fn default_env() -> (r: String)
    ensures
        r@ == default_env_spec(),
{
    let r = copy_str("dev");
    proof { reveal_strlit("dev"); }
    assert(r@ =~= default_env_spec());
    r
}

/// The scope from explicit options first, then the local binding, then the machine's
/// default project and `dev`.
pub fn resolve_scope(project: Option<String>, env: Option<String>, local: Option<LocalConfigHit>) -> (r: ResolvedScope)
    ensures
        r.project@ == (match project {
            Some(p) => p@,
            None => match local {
                Some(h) => h.config.project@,
                None => default_project_key_spec(),
            },
        }),
        r.env@ == (match env {
            Some(e) => e@,
            None => match local {
                Some(h) => h.config.default_env@,
                None => default_env_spec(),
            },
        }),
        r.config_path == (match local {
            Some(h) => Some(h.path),
            None => None::<String>,
        }),
{
    let resolved_project = match project {
        Some(p) => p,
        None => match &local {
            Some(h) => h.config.project.clone(),
            None => default_project_key(),
        },
    };
    let resolved_env = match env {
        Some(e) => e,
        None => match &local {
            Some(h) => h.config.default_env.clone(),
            None => default_env(),
        },
    };
    let config_path = match local {
        Some(h) => Some(h.path),
        None => None,
    };
    ResolvedScope { project: resolved_project, env: resolved_env, config_path }
}

} // verus!
