//! The decisions of the commands: scopes, what `set`, `unset`, `import`, `purge` and
//! the archives do to the stored secrets and the index, and what a child process gets.
use vstd::prelude::*;

use crate::cli::ArchiveExportMode;
use crate::config::{default_env, default_env_spec, default_project_key, default_project_key_spec, ResolvedScope};
use crate::index::{has_key, in_scope, key_of, records, IndexFile, StoredSecretMeta};
use crate::keychain::{
    delete_names, delete_secret, read_scope_secrets, secrets_view, settle, spec_delete, spec_read, spec_scope,
    spec_store, spec_write_scope, store_pairs, store_secret, write_scope_secrets, BundleView,
    ProjectSecretBundle, ScopeSecrets,
};
use crate::sealed::SealedScopePayload;
use crate::strmap::StrMap;
use crate::text::{chars_of, copy_str, push_str_chars, str_eq, string_from_chars};
use crate::util::{parse_env_mapping, parse_env_mapping_spec, shell_quote, escape_single_quotes, EnvMapping};
use crate::util::{
    check_env_name, pairs_view, parse_pair, parse_pair_spec, prepend_ok, validate_env_name, EnvError,
    EnvErrorView,
};

verus! {

broadcast use vstd::string::group_string_axioms;

/// Where the tool keeps its state.
#[derive(Clone, Debug)]
pub struct App {
    pub state_dir: String,
    pub index_path: String,
}

/// Why a command was refused.
#[derive(Clone, Debug)]
pub enum AppError {
    /// More than two scope words.
    ScopeShape,
    /// An empty project word.
    EmptyProject,
    /// The project word is the machine's reserved project key.
    ReservedProject,
    /// An empty environment word.
    EmptyEnvironment,
    /// The scope was given both as words and as options.
    ScopeGivenTwice,
    /// The scope holds no secret to run a command with.
    NoSecretsForScope,
    /// No command after `--`.
    MissingCommand,
    /// The secret's value is empty.
    EmptySecretValue,
    /// The master secret is empty.
    EmptyMasterSecret,
    /// The master secret and its confirmation differ.
    MasterSecretMismatch,
    /// The scope to archive holds no secret.
    NothingToExportForScope,
    /// The project to archive holds no secret.
    NothingToExportForProject,
    /// `--env` with a whole-project archive.
    EnvWithProjectArchive,
    /// `purge` without `--yes`.
    PurgeNotConfirmed,
    /// `--vault-encrypt` without `--vault-addr`.
    VaultAddrRequired,
    /// `--vault-encrypt` without `--vault-key`.
    VaultKeyRequired,
    /// `init` without `--project`.
    InitNeedsProject,
    /// `init` with the reserved project key.
    InitReservedProject,
    /// A refused name or pair.
    Env(EnvError),
}

/// How the machine's project is shown.
pub const DEFAULT_PROJECT_LABEL: &'static str = "(default)";

/// The label shown for the machine's project.
pub open spec fn default_project_label_spec() -> Seq<char> {
    seq!['(', 'd', 'e', 'f', 'a', 'u', 'l', 't', ')']
}

/// How a project is shown: the machine's project as `(default)`.
pub open spec fn display_name(project: Seq<char>) -> Seq<char> {
    if project == default_project_key_spec() {
        default_project_label_spec()
    } else {
        project
    }
}

/// The project that an archive's project name stands for: the label `(default)` is
/// the machine's project.
pub open spec fn imported_project(project: Seq<char>) -> Seq<char> {
    if project == default_project_label_spec() {
        default_project_key_spec()
    } else {
        project
    }
}

/// Whether `project` is the machine's project.
pub fn is_machine_project(project: &str) -> (r: bool)
    ensures
        r == (project@ == default_project_key_spec()),
{
    let key = default_project_key();
    str_eq(project, key.as_str())
}

/// The scope named by `parts` (nothing, `PROJECT`, or `PROJECT ENVIRONMENT`).
pub open spec fn simple_scope_spec(parts: Seq<Seq<char>>) -> Option<(Seq<char>, Seq<char>)> {
    if parts.len() == 0 {
        Some((default_project_key_spec(), default_env_spec()))
    } else if parts.len() == 1 {
        Some((parts[0], default_env_spec()))
    } else if parts.len() == 2 {
        Some((parts[0], parts[1]))
    } else {
        None
    }
}

/// The character sequences of a list of strings.
pub open spec fn strings_view(v: Seq<String>) -> Seq<Seq<char>> {
    v.map_values(|s: String| s@)
}

/// Reads the scope words of `set`, `list`, `run` and `unset`: none is the machine,
/// one is a project (environment `dev`), two are a project and an environment.
pub fn simple_scope(parts: &[String]) -> (r: Result<ResolvedScope, AppError>)
    ensures
        simple_scope_spec(strings_view(parts@)) is None ==> r matches Err(AppError::ScopeShape),
        simple_scope_spec(strings_view(parts@)) matches Some(pe) ==> {
            &&& pe.0.len() == 0 ==> (r matches Err(AppError::EmptyProject))
            &&& pe.0.len() != 0 && pe.0 == default_project_key_spec() && parts@.len() > 0 ==> (r matches Err(AppError::ReservedProject))
            &&& pe.0.len() != 0 && !(pe.0 == default_project_key_spec() && parts@.len() > 0) && pe.1.len() == 0 ==> (r matches Err(AppError::EmptyEnvironment))
            &&& pe.0.len() != 0 && !(pe.0 == default_project_key_spec() && parts@.len() > 0) && pe.1.len() != 0 ==> (r matches Ok(s))
        },
        r matches Ok(s) ==> (simple_scope_spec(strings_view(parts@)) == Some((s.project@, s.env@)) && s.config_path is None),
{
    let ghost views = strings_view(parts@);
    let (project, env) = if parts.len() == 0 {
        (default_project_key(), default_env())
    } else if parts.len() == 1 {
        assert(views[0] == parts@[0]@);
        (parts[0].clone(), default_env())
    } else if parts.len() == 2 {
        assert(views[0] == parts@[0]@ && views[1] == parts@[1]@);
        (parts[0].clone(), parts[1].clone())
    } else {
        return Err(AppError::ScopeShape);
    };
    if project.as_str().is_empty() {
        return Err(AppError::EmptyProject);
    }
    assert(project@.len() != 0);
    let key = default_project_key();
    if str_eq(project.as_str(), key.as_str()) && parts.len() != 0 {
        return Err(AppError::ReservedProject);
    }
    if env.as_str().is_empty() {
        return Err(AppError::EmptyEnvironment);
    }
    Ok(ResolvedScope { project, env, config_path: None })
}

/// Where a command's scope comes from.
pub enum PublicScope {
    /// From the scope words.
    Words(ResolvedScope),
    /// From the `--project`/`--env` options, completed by the local binding.
    Options { project: Option<String>, env: Option<String> },
}

impl App {
    /// How the project of `scope` is shown: the machine's project as `(default)`.
    pub fn display_project<'a>(&self, scope: &'a ResolvedScope) -> (r: &'a str)
        ensures
            r@ == display_name(scope.project@),
    {
        let key = default_project_key();
        if str_eq(scope.project.as_str(), key.as_str()) {
            let label = "(default)";
            proof {
                reveal_strlit("(default)");
                assert(label@ =~= default_project_label_spec());
            }
            label
        } else {
            scope.project.as_str()
        }
    }

    /// The project name written into an archive: the name shown for it.
    pub fn export_project_name<'a>(&self, scope: &'a ResolvedScope) -> (r: &'a str)
        ensures
            r@ == display_name(scope.project@),
    {
        self.display_project(scope)
    }

    /// The project an archive's project name is imported into: `(default)` is the
    /// machine's project.
    pub fn import_project_name(&self, project: String) -> (r: String)
        ensures
            r@ == imported_project(project@),
    {
        let label = "(default)";
        proof {
            reveal_strlit("(default)");
            assert(label@ =~= default_project_label_spec());
        }
        if str_eq(project.as_str(), label) {
            default_project_key()
        } else {
            project
        }
    }

    /// Where a single-scope archive is imported: the `--project` and `--env` options
    /// when given, else the archive's own project and environment.
    pub fn archive_scope_target(&self, project_override: Option<String>, env_override: Option<String>, project: String, env: String) -> (r: ResolvedScope)
        ensures
            r.project@ == imported_project(match project_override {
                Some(p) => p@,
                None => project@,
            }),
            r.env@ == (match env_override {
                Some(e) => e@,
                None => env@,
            }),
            r.config_path is None,
    {
        let p = match project_override {
            Some(p) => p,
            None => project,
        };
        let e = match env_override {
            Some(e) => e,
            None => env,
        };
        ResolvedScope { project: self.import_project_name(p), env: e, config_path: None }
    }

    /// The project a whole-project archive is imported into: the `--project` option when
    /// given, else the archive's own. `--env` is refused, as such an archive holds every
    /// environment.
    pub fn archive_project_target(&self, project_override: Option<String>, env_override: &Option<String>, project: String) -> (r: Result<String, AppError>)
        ensures
            env_override is Some ==> (r matches Err(AppError::EnvWithProjectArchive)),
            env_override is None ==> (r matches Ok(t) && t@ == imported_project(match project_override {
                Some(p) => p@,
                None => project@,
            })),
    {
        if env_override.is_some() {
            return Err(AppError::EnvWithProjectArchive);
        }
        let p = match project_override {
            Some(p) => p,
            None => project,
        };
        Ok(self.import_project_name(p))
    }

    /// The secrets a command in `scope` receives: those of the scope's environment in
    /// the project's bundle.
    pub fn selected_env(&self, bundle: &ProjectSecretBundle, scope: &ResolvedScope) -> (r: ScopeSecrets)
        ensures
            secrets_view(r@) == spec_scope(bundle@, scope.env@),
    {
        read_scope_secrets(bundle, scope.env.as_str())
    }

    /// Where the scope of `set`, `run` and `unset` comes from: the words, or the
    /// `--project`/`--env` options, not both.
    pub fn resolve_public_scope(&self, parts: &[String], legacy_project: Option<String>, legacy_env: Option<String>) -> (r: Result<PublicScope, AppError>)
        ensures
            (legacy_project is Some || legacy_env is Some) && parts@.len() > 0 ==> (r matches Err(AppError::ScopeGivenTwice)),
            (legacy_project is Some || legacy_env is Some) && parts@.len() == 0 ==> (r matches Ok(PublicScope::Options { project, env }) && project == legacy_project && env == legacy_env),
            (legacy_project is None && legacy_env is None) ==> (match r {
                Ok(PublicScope::Words(s)) => simple_scope_spec(strings_view(parts@)) == Some((s.project@, s.env@)) && s.config_path is None,
                Ok(PublicScope::Options { .. }) => false,
                Err(_) => true,
            }),
            (legacy_project is None && legacy_env is None) ==> (r is Ok <==> (simple_scope_spec(strings_view(parts@)) matches Some(pe) && pe.0.len() != 0 && !(pe.0 == default_project_key_spec() && parts@.len() > 0) && pe.1.len() != 0)),
    {
        if legacy_project.is_some() || legacy_env.is_some() {
            if parts.len() != 0 {
                return Err(AppError::ScopeGivenTwice);
            }
            Ok(PublicScope::Options { project: legacy_project, env: legacy_env })
        } else {
            match simple_scope(parts) {
                Ok(s) => Ok(PublicScope::Words(s)),
                Err(e) => Err(e),
            }
        }
    }

    /// The scope of `list` and the hidden `remove`: the words.
    pub fn resolve_simple_scope(&self, parts: &[String]) -> (r: Result<ResolvedScope, AppError>)
        ensures
            r matches Ok(s) ==> simple_scope_spec(strings_view(parts@)) == Some((s.project@, s.env@)) && s.config_path is None,
            r is Ok <==> (simple_scope_spec(strings_view(parts@)) matches Some(pe) && pe.0.len() != 0 && !(pe.0 == default_project_key_spec() && parts@.len() > 0) && pe.1.len() != 0),
    {
        simple_scope(parts)
    }
}

/// Splits the words of `set` and `unset`, `SCOPE... NAME`, into the scope words and
/// the secret's name. The last word is always the name, even when it holds `=`; name
/// validation then refuses it.
pub fn split_scope_and_name(parts: &[String]) -> (r: (Vec<String>, String))
    requires
        parts@.len() > 0,
    ensures
        r.0@ == parts@.drop_last(),
        r.1 == parts@.last(),
{
    let mut scope: Vec<String> = Vec::new();
    let n = parts.len() - 1;
    let mut i: usize = 0;
    while i < n
        invariant
            n == parts@.len() - 1,
            i <= n,
            scope@ == parts@.take(i as int),
        decreases n - i,
    {
        scope.push(parts[i].clone());
        assert(scope@ =~= parts@.take(i + 1));
        i = i + 1;
    }
    assert(scope@ =~= parts@.drop_last());
    (scope, parts[n].clone())
}

/// Whether `list` reads the scope from options (with `--show-metadata`, `--project`,
/// `--env` or `--json`) rather than from its words.
pub fn list_uses_options(show_metadata: bool, project_given: bool, env_given: bool, json: bool) -> (r: bool)
    ensures
        r == (show_metadata || project_given || env_given || json),
{
    show_metadata || project_given || env_given || json
}

/// The exit status of the tool after a child: the child's code as a byte, or 1 when
/// it had none (it was killed by a signal).
pub fn exit_status_for(code: Option<i32>) -> (r: u8)
    ensures
        match code {
            Some(c) => r == c as u8,
            None => r == 1,
        },
{
    match code {
        Some(c) => c as u8,
        None => 1,
    }
}

/// Whether a child may be started: the scope must hold a secret and a command must
/// be given.
pub fn check_spawn(env_map: &ScopeSecrets, command: &[String]) -> (r: Result<(), AppError>)
    ensures
        env_map@.dom() == Set::<Seq<char>>::empty() ==> (r matches Err(AppError::NoSecretsForScope)),
        env_map@.dom() != Set::<Seq<char>>::empty() && command@.len() == 0 ==> (r matches Err(AppError::MissingCommand)),
        r is Ok <==> (env_map@.dom() != Set::<Seq<char>>::empty() && command@.len() > 0),
{
    if env_map.is_empty() {
        return Err(AppError::NoSecretsForScope);
    }
    if command.len() == 0 {
        return Err(AppError::MissingCommand);
    }
    Ok(())
}

// ---------------------------------------------------------------------------
// Storing and removing
// ---------------------------------------------------------------------------
/// Every key but those of `(project, env)` with a name in `names` is present in `b`
/// exactly when it is present in `a`.
pub open spec fn index_frame(a: Seq<StoredSecretMeta>, b: Seq<StoredSecretMeta>, project: Seq<char>, env: Seq<char>, names: Seq<Seq<char>>) -> bool {
    forall|k: (Seq<char>, Seq<char>, Seq<char>)| !(k.0 == project && k.1 == env && names.contains(k.2)) ==> has_key(b, k) == has_key(a, k)
}

/// The pairs `NAME=value` read from `inputs`, or the error of the first refused one.
pub open spec fn parse_pairs_spec(inputs: Seq<Seq<char>>) -> Result<Seq<(Seq<char>, Seq<char>)>, EnvErrorView>
    decreases inputs.len(),
{
    if inputs.len() == 0 {
        Ok(seq![])
    } else {
        match parse_pair_spec(inputs[0]) {
            Err(e) => Err(e),
            Ok(p) => prepend_ok(seq![p], parse_pairs_spec(inputs.drop_first())),
        }
    }
}

/// The first components of a list of pairs.
pub open spec fn pair_names(pairs: Seq<(Seq<char>, Seq<char>)>) -> Seq<Seq<char>> {
    pairs.map_values(|p: (Seq<char>, Seq<char>)| p.0)
}

/// The index entry that records `name` in `scope` now.
fn record(index: &mut IndexFile, scope: &ResolvedScope, name: &str, source: &str, note: &Option<String>)
    ensures
        has_key(final(index).entries@, (scope.project@, scope.env@, name@)),
        index_frame(old(index).entries@, final(index).entries@, scope.project@, scope.env@, seq![name@]),
        forall|k: (Seq<char>, Seq<char>, Seq<char>)| has_key(old(index).entries@, k) ==> has_key(final(index).entries@, k),
        records(final(index).entries@, (scope.project@, scope.env@, name@), source@, *note),
        forall|k: (Seq<char>, Seq<char>, Seq<char>), src: Seq<char>, n: Option<String>|
            k != (scope.project@, scope.env@, name@) && #[trigger] records(old(index).entries@, k, src, n) ==> records(final(index).entries@, k, src, n),
        forall|m: StoredSecretMeta| old(index).entries@.contains(m) && key_of(m) != (scope.project@, scope.env@, name@) ==> #[trigger] final(index).entries@.contains(m),
{
    let n = match note {
        Some(t) => Some(t.clone()),
        None => None,
    };
    let meta = StoredSecretMeta::new(scope.project.clone(), scope.env.clone(), copy_str(name), copy_str(source), n);
    let ghost before = index.entries@;
    index.upsert(meta);
    proof {
        let w = choose|w: int| 0 <= w < index.entries@.len() && index.entries@[w] == meta;
        assert(key_of(index.entries@[w]) == (scope.project@, scope.env@, name@));
        assert forall|k: (Seq<char>, Seq<char>, Seq<char>), src: Seq<char>, nt: Option<String>|
            k != (scope.project@, scope.env@, name@) && #[trigger] records(before, k, src, nt) implies records(index.entries@, k, src, nt) by {
            let i = choose|i: int| 0 <= i < before.len() && key_of(#[trigger] before[i]) == k && before[i].source@ == src && before[i].note == nt;
            let m = before[i];
            assert(before.contains(m));
            assert(index.entries@.contains(m));
            let u = choose|u: int| 0 <= u < index.entries@.len() && index.entries@[u] == m;
            assert(key_of(index.entries@[u]) == k);
        }
    }
    proof {
        assert forall|k: (Seq<char>, Seq<char>, Seq<char>)| !(k.0 == scope.project@ && k.1 == scope.env@ && seq![name@].contains(k.2)) implies has_key(index.entries@, k) == has_key(old(index).entries@, k) by {
            if k == (scope.project@, scope.env@, name@) {
                assert(seq![name@][0] == name@);
            }
        }
    }
}

/// The source recorded for a secret set by hand: `manual`.
pub open spec fn manual_source() -> Seq<char> {
    seq!['m', 'a', 'n', 'u', 'a', 'l']
}

impl App {
    /// `set` with one secret: checks the name, stores the value in the scope, and
    /// records the name in the index with source `manual`.
    pub fn set_one(&self, bundle: &mut ProjectSecretBundle, index: &mut IndexFile, scope: &ResolvedScope, name: &str, value: String) -> (r: Result<(), AppError>)
        ensures
            r is Ok <==> check_env_name(name@) is Ok,
            r matches Err(e) ==> (e matches AppError::Env(v) && check_env_name(name@) == Err::<(), EnvErrorView>(v@))
                && final(bundle)@ == old(bundle)@ && final(index).entries@ == old(index).entries@,
            r is Ok ==> final(bundle)@ == spec_store(old(bundle)@, scope.env@, name@, value@)
                && has_key(final(index).entries@, (scope.project@, scope.env@, name@))
                && records(final(index).entries@, (scope.project@, scope.env@, name@), manual_source(), None)
                && index_frame(old(index).entries@, final(index).entries@, scope.project@, scope.env@, seq![name@])
                && (forall|k: (Seq<char>, Seq<char>, Seq<char>), src: Seq<char>, n: Option<String>|
                    k != (scope.project@, scope.env@, name@) && #[trigger] records(old(index).entries@, k, src, n) ==> records(final(index).entries@, k, src, n)),
    {
        if let Err(e) = validate_env_name(name) {
            return Err(AppError::Env(e));
        }
        store_secret(bundle, scope.env.as_str(), name, value.as_str());
        let source = "manual";
        proof {
            reveal_strlit("manual");
            assert(source@ =~= manual_source());
        }
        record(index, scope, name, source, &None);
        Ok(())
    }

    /// `unset`: checks the name, deletes it from the scope and drops it from the
    /// index. Deleting an absent name changes nothing else.
    pub fn remove_simple(&self, bundle: &mut ProjectSecretBundle, index: &mut IndexFile, scope: &ResolvedScope, name: &str) -> (r: Result<(), AppError>)
        ensures
            r is Ok <==> check_env_name(name@) is Ok,
            r matches Err(e) ==> (e matches AppError::Env(v) && check_env_name(name@) == Err::<(), EnvErrorView>(v@))
                && final(bundle)@ == old(bundle)@ && final(index).entries@ == old(index).entries@,
            r is Ok ==> final(bundle)@ == spec_delete(old(bundle)@, scope.env@, name@)
                && final(index).entries@ == old(index).entries@.filter(|m: StoredSecretMeta| key_of(m) != (scope.project@, scope.env@, name@))
                && !has_key(final(index).entries@, (scope.project@, scope.env@, name@)),
    {
        if let Err(e) = validate_env_name(name) {
            return Err(AppError::Env(e));
        }
        delete_secret(bundle, scope.env.as_str(), name);
        index.remove(scope.project.as_str(), scope.env.as_str(), name);
        Ok(())
    }

    /// Stores `NAME=value` pairs in the scope: reads every pair first (the first bad one
    /// refuses them all, changing nothing), then stores each and records it with
    /// `source` and `note`, and writes the environment back. Gives the names, in order.
    pub fn set_pairs(&self, bundle: &mut ProjectSecretBundle, index: &mut IndexFile, scope: &ResolvedScope, pairs: Vec<String>, source: &str, note: Option<String>) -> (r: Result<Vec<String>, AppError>)
        ensures
            r matches Err(e) ==> (e matches AppError::Env(v) && parse_pairs_spec(strings_view(pairs@)) == Err::<Seq<(Seq<char>, Seq<char>)>, EnvErrorView>(v@))
                && final(bundle)@ == old(bundle)@ && final(index).entries@ == old(index).entries@,
            r matches Ok(names) ==> (parse_pairs_spec(strings_view(pairs@)) matches Ok(ps)
                && strings_view(names@) == pair_names(ps)
                && final(bundle)@ == settle(store_pairs(old(bundle)@, scope.env@, ps), scope.env@)
                && (forall|i: int| 0 <= i < ps.len() ==> has_key(final(index).entries@, (scope.project@, scope.env@, #[trigger] ps[i].0)))
                && (forall|i: int| 0 <= i < ps.len() ==> records(final(index).entries@, (scope.project@, scope.env@, #[trigger] ps[i].0), source@, note))
                && index_frame(old(index).entries@, final(index).entries@, scope.project@, scope.env@, pair_names(ps))
                && (forall|k: (Seq<char>, Seq<char>, Seq<char>), src: Seq<char>, n: Option<String>|
                    !(k.0 == scope.project@ && k.1 == scope.env@ && pair_names(ps).contains(k.2)) && #[trigger] records(old(index).entries@, k, src, n)
                    ==> records(final(index).entries@, k, src, n))),
    {
        // Read every pair before changing anything.
        let ghost inputs = strings_view(pairs@);
        let mut parsed: Vec<(String, String)> = Vec::new();
        let mut i: usize = 0;
        proof {
            assert(inputs.skip(0) =~= inputs);
            assert(pairs_view(parsed@) =~= Seq::<(Seq<char>, Seq<char>)>::empty());
            if let Ok(r) = parse_pairs_spec(inputs) {
                assert(Seq::<(Seq<char>, Seq<char>)>::empty() + r =~= r);
            }
        }
        while i < pairs.len()
            invariant
                inputs == strings_view(pairs@),
                i <= pairs@.len(),
                parse_pairs_spec(inputs) == prepend_ok(pairs_view(parsed@), parse_pairs_spec(inputs.skip(i as int))),
            decreases pairs.len() - i,
        {
            assert(inputs.skip(i as int)[0] == pairs@[i as int]@);
            assert(inputs.skip(i as int).drop_first() =~= inputs.skip(i + 1));
            match parse_pair(pairs[i].as_str()) {
                Err(e) => return Err(AppError::Env(e)),
                Ok(p) => {
                    let ghost before = parsed@;
                    parsed.push(p);
                    proof {
                        assert(pairs_view(parsed@) =~= pairs_view(before) + seq![(p.0@, p.1@)]);
                        assert(forall|x: Seq<(Seq<char>, Seq<char>)>|
                            (pairs_view(before) + seq![(p.0@, p.1@)]) + x =~= pairs_view(before) + (
                            seq![(p.0@, p.1@)] + x));
                    }
                },
            }
            i = i + 1;
        }
        assert(inputs.skip(i as int) =~= Seq::<Seq<char>>::empty());
        assert(pairs_view(parsed@) =~= pairs_view(parsed@) + Seq::<(Seq<char>, Seq<char>)>::empty());
        let ghost ps = pairs_view(parsed@);
        let ghost b0 = bundle@;
        let ghost ix0 = index.entries@;
        let mut written: Vec<String> = Vec::new();
        let mut j: usize = 0;
        while j < parsed.len()
            invariant
                ps == pairs_view(parsed@),
                j <= parsed@.len(),
                bundle@ == store_pairs(b0, scope.env@, ps.take(j as int)),
                strings_view(written@) == pair_names(ps.take(j as int)),
                forall|t: int| 0 <= t < j ==> has_key(index.entries@, (scope.project@, scope.env@, #[trigger] ps[t].0)),
                forall|t: int| 0 <= t < j ==> records(index.entries@, (scope.project@, scope.env@, #[trigger] ps[t].0), source@, note),
                index_frame(ix0, index.entries@, scope.project@, scope.env@, pair_names(ps.take(j as int))),
                forall|k: (Seq<char>, Seq<char>, Seq<char>), src: Seq<char>, n: Option<String>|
                    !(k.0 == scope.project@ && k.1 == scope.env@ && pair_names(ps.take(j as int)).contains(k.2)) && #[trigger] records(ix0, k, src, n)
                    ==> records(index.entries@, k, src, n),
            decreases parsed.len() - j,
        {
            let ghost ix_before = index.entries@;
            let name = parsed[j].0.as_str();
            let value = parsed[j].1.as_str();
            assert(ps[j as int] == (name@, value@));
            store_secret(bundle, scope.env.as_str(), name, value);
            record(index, scope, name, source, &note);
            written.push(parsed[j].0.clone());
            proof {
                assert(ps.take(j + 1).drop_last() =~= ps.take(j as int));
                assert(pair_names(ps.take(j + 1)) =~= pair_names(ps.take(j as int)).push(name@));
                assert(strings_view(written@) =~= pair_names(ps.take(j + 1)));
                assert forall|t: int| 0 <= t < j + 1 implies has_key(index.entries@, (scope.project@, scope.env@, #[trigger] ps[t].0)) by {
                    if t < j {
                        assert(has_key(ix_before, (scope.project@, scope.env@, ps[t].0)));
                        if ps[t].0 != name@ {
                            assert(!seq![name@].contains(ps[t].0));
                        }
                    }
                }
                assert forall|t: int| 0 <= t < j + 1 implies records(index.entries@, (scope.project@, scope.env@, #[trigger] ps[t].0), source@, note) by {
                    if t < j && ps[t].0 != name@ {
                        assert(records(ix_before, (scope.project@, scope.env@, ps[t].0), source@, note));
                    }
                }
                let nj = pair_names(ps.take(j + 1));
                assert forall|k: (Seq<char>, Seq<char>, Seq<char>), src: Seq<char>, n: Option<String>|
                    !(k.0 == scope.project@ && k.1 == scope.env@ && nj.contains(k.2)) && #[trigger] records(ix0, k, src, n)
                    implies records(index.entries@, k, src, n) by {
                    if k.0 == scope.project@ && k.1 == scope.env@ {
                        assert(!pair_names(ps.take(j as int)).contains(k.2)) by {
                            if pair_names(ps.take(j as int)).contains(k.2) {
                                let w = choose|w: int| 0 <= w < pair_names(ps.take(j as int)).len() && pair_names(ps.take(j as int))[w] == k.2;
                                assert(nj[w] == k.2);
                            }
                        }
                        assert(k.2 != name@) by {
                            assert(nj[j as int] == name@);
                        }
                    }
                    assert(records(ix_before, k, src, n));
                }
                assert forall|k: (Seq<char>, Seq<char>, Seq<char>)| !(k.0 == scope.project@ && k.1 == scope.env@ && nj.contains(k.2)) implies has_key(index.entries@, k) == has_key(ix0, k) by {
                    if k.0 == scope.project@ && k.1 == scope.env@ {
                        assert(!seq![name@].contains(k.2)) by {
                            if seq![name@].contains(k.2) {
                                assert(nj[j as int] == name@);
                            }
                        }
                        assert(!pair_names(ps.take(j as int)).contains(k.2)) by {
                            if pair_names(ps.take(j as int)).contains(k.2) {
                                let w = choose|w: int| 0 <= w < pair_names(ps.take(j as int)).len() && pair_names(ps.take(j as int))[w] == k.2;
                                assert(nj[w] == k.2);
                            }
                        }
                    }
                }
            }
            j = j + 1;
        }
        assert(ps.take(j as int) =~= ps);
        let s = read_scope_secrets(bundle, scope.env.as_str());
        write_scope_secrets(bundle, scope.env.as_str(), &s);
        Ok(written)
    }
}

// ---------------------------------------------------------------------------
// Importing
// ---------------------------------------------------------------------------
/// Which of `names` an import takes, in order: all of them when replacing; otherwise
/// a name is skipped when the index already records it in the scope, the names
/// imported just before included.
pub open spec fn import_flags(present: Set<Seq<char>>, names: Seq<Seq<char>>, replace: bool) -> Seq<bool>
    decreases names.len(),
{
    if names.len() == 0 {
        seq![]
    } else {
        let take = replace || !present.contains(names[0]);
        seq![take] + import_flags(if take { present.insert(names[0]) } else { present }, names.drop_first(), replace)
    }
}

/// The elements of `s` whose flag is `keep`.
pub open spec fn pick<A>(s: Seq<A>, flags: Seq<bool>, keep: bool) -> Seq<A>
    decreases s.len(),
{
    if s.len() == 0 {
        seq![]
    } else if flags[s.len() - 1] == keep {
        pick(s.drop_last(), flags.drop_last(), keep).push(s.last())
    } else {
        pick(s.drop_last(), flags.drop_last(), keep)
    }
}

/// The names that the index records in scope `(project, env)`.
pub open spec fn recorded_names(ix: Seq<StoredSecretMeta>, project: Seq<char>, env: Seq<char>) -> Set<Seq<char>> {
    Set::new(|n: Seq<char>| has_key(ix, (project, env, n)))
}

/// An import decides once per name.
proof fn lemma_import_flags_len(present: Set<Seq<char>>, names: Seq<Seq<char>>, replace: bool)
    ensures
        import_flags(present, names, replace).len() == names.len(),
    decreases names.len(),
{
    if names.len() > 0 {
        let take = replace || !present.contains(names[0]);
        lemma_import_flags_len(if take { present.insert(names[0]) } else { present }, names.drop_first(), replace);
    }
}

impl App {
    /// Imports `pairs` into the scope: each pair is stored and recorded with `source`
    /// and `note`, unless `replace` is off and the index already records its name in
    /// the scope, when it is skipped; skipped names keep their index entries as they were.
    /// The environment is then written back, and dropped when it holds no secret. Gives
    /// the imported and the skipped names.
    pub fn import_pairs(
        &self,
        bundle: &mut ProjectSecretBundle,
        index: &mut IndexFile,
        scope: &ResolvedScope,
        pairs: &Vec<(String, String)>,
        replace: bool,
        source: &str,
        note: &Option<String>,
    ) -> (r: (Vec<String>, Vec<String>))
        ensures
            ({
                let ps = pairs_view(pairs@);
                let flags = import_flags(recorded_names(old(index).entries@, scope.project@, scope.env@), pair_names(ps), replace);
                &&& strings_view(r.0@) == pick(pair_names(ps), flags, true)
                &&& strings_view(r.1@) == pick(pair_names(ps), flags, false)
                &&& final(bundle)@ == settle(store_pairs(old(bundle)@, scope.env@, pick(ps, flags, true)), scope.env@)
                &&& forall|i: int| 0 <= i < ps.len() ==> has_key(final(index).entries@, (scope.project@, scope.env@, #[trigger] ps[i].0)) || has_key(old(index).entries@, (scope.project@, scope.env@, ps[i].0))
                &&& index_frame(old(index).entries@, final(index).entries@, scope.project@, scope.env@, pair_names(ps))
                &&& forall|k: (Seq<char>, Seq<char>, Seq<char>)| has_key(old(index).entries@, k) ==> has_key(final(index).entries@, k)
                &&& forall|t: int| 0 <= t < ps.len() && #[trigger] flags[t] ==> records(final(index).entries@, (scope.project@, scope.env@, ps[t].0), source@, *note)
                &&& forall|k: (Seq<char>, Seq<char>, Seq<char>), src: Seq<char>, n: Option<String>|
                    !(k.0 == scope.project@ && k.1 == scope.env@ && pair_names(ps).contains(k.2)) && #[trigger] records(old(index).entries@, k, src, n)
                    ==> records(final(index).entries@, k, src, n)
                &&& forall|m: StoredSecretMeta| old(index).entries@.contains(m)
                    && !(m.project@ == scope.project@ && m.profile@ == scope.env@ && pick(pair_names(ps), flags, true).contains(m.key@))
                    ==> #[trigger] final(index).entries@.contains(m)
            }),
    {
        let r = self.import_uniform(bundle, index, scope, pairs, replace, source, note);
        let s = read_scope_secrets(bundle, scope.env.as_str());
        write_scope_secrets(bundle, scope.env.as_str(), &s);
        r
    }

    /// Imports `pairs` into the scope's environment as [`App::import_pairs`] does, but
    /// leaves the environment in the bundle even when nothing is stored in it.
    #[verifier::rlimit(40)]
    fn import_uniform(
        &self,
        bundle: &mut ProjectSecretBundle,
        index: &mut IndexFile,
        scope: &ResolvedScope,
        pairs: &Vec<(String, String)>,
        replace: bool,
        source: &str,
        note: &Option<String>,
    ) -> (r: (Vec<String>, Vec<String>))
        ensures
            ({
                let ps = pairs_view(pairs@);
                let flags = import_flags(recorded_names(old(index).entries@, scope.project@, scope.env@), pair_names(ps), replace);
                &&& strings_view(r.0@) == pick(pair_names(ps), flags, true)
                &&& strings_view(r.1@) == pick(pair_names(ps), flags, false)
                &&& final(bundle)@ == store_pairs(old(bundle)@, scope.env@, pick(ps, flags, true))
                &&& forall|i: int| 0 <= i < ps.len() ==> has_key(final(index).entries@, (scope.project@, scope.env@, #[trigger] ps[i].0)) || has_key(old(index).entries@, (scope.project@, scope.env@, ps[i].0))
                &&& index_frame(old(index).entries@, final(index).entries@, scope.project@, scope.env@, pair_names(ps))
                &&& forall|k: (Seq<char>, Seq<char>, Seq<char>)| has_key(old(index).entries@, k) ==> has_key(final(index).entries@, k)
                &&& forall|t: int| 0 <= t < ps.len() && #[trigger] flags[t] ==> records(final(index).entries@, (scope.project@, scope.env@, ps[t].0), source@, *note)
                &&& forall|k: (Seq<char>, Seq<char>, Seq<char>), src: Seq<char>, n: Option<String>|
                    !(k.0 == scope.project@ && k.1 == scope.env@ && pair_names(ps).contains(k.2)) && #[trigger] records(old(index).entries@, k, src, n)
                    ==> records(final(index).entries@, k, src, n)
                &&& forall|m: StoredSecretMeta| old(index).entries@.contains(m)
                    && !(m.project@ == scope.project@ && m.profile@ == scope.env@ && pick(pair_names(ps), flags, true).contains(m.key@))
                    ==> #[trigger] final(index).entries@.contains(m)
            }),
    {
        let mut metas: Vec<(String, Option<String>)> = Vec::new();
        let mut i: usize = 0;
        while i < pairs.len()
            invariant
                i <= pairs@.len(),
                metas@.len() == i,
                forall|t: int| 0 <= t < i ==> (#[trigger] metas@[t]).0@ == source@ && metas@[t].1 == *note,
            decreases pairs.len() - i,
        {
            let n = match note {
                Some(t) => Some(t.clone()),
                None => None,
            };
            metas.push((copy_str(source), n));
            i = i + 1;
        }
        let ghost ix0 = index.entries@;
        let r = self.import_with_meta(bundle, index, scope, pairs, replace, &metas);
        proof {
            let ps = pairs_view(pairs@);
            let flags = import_flags(recorded_names(ix0, scope.project@, scope.env@), pair_names(ps), replace);
            assert forall|t: int| 0 <= t < ps.len() && #[trigger] flags[t] implies records(index.entries@, (scope.project@, scope.env@, ps[t].0), source@, *note) by {
                let u = choose|u: int| t <= u < ps.len() && ps[u].0 == ps[t].0 && flags[u]
                    && #[trigger] records(index.entries@, (scope.project@, scope.env@, ps[t].0), metas@[u].0@, metas@[u].1);
                assert(metas@[u].0@ == source@ && metas@[u].1 == *note);
            }
        }
        r
    }

    /// As [`App::import_pairs`], each pair recorded with its own source and note.
    #[verifier::rlimit(60)]
    pub fn import_with_meta(
        &self,
        bundle: &mut ProjectSecretBundle,
        index: &mut IndexFile,
        scope: &ResolvedScope,
        pairs: &Vec<(String, String)>,
        replace: bool,
        metas: &Vec<(String, Option<String>)>,
    ) -> (r: (Vec<String>, Vec<String>))
        requires
            metas@.len() == pairs@.len(),
        ensures
            ({
                let ps = pairs_view(pairs@);
                let flags = import_flags(recorded_names(old(index).entries@, scope.project@, scope.env@), pair_names(ps), replace);
                &&& strings_view(r.0@) == pick(pair_names(ps), flags, true)
                &&& strings_view(r.1@) == pick(pair_names(ps), flags, false)
                &&& final(bundle)@ == store_pairs(old(bundle)@, scope.env@, pick(ps, flags, true))
                &&& forall|i: int| 0 <= i < ps.len() ==> has_key(final(index).entries@, (scope.project@, scope.env@, #[trigger] ps[i].0)) || has_key(old(index).entries@, (scope.project@, scope.env@, ps[i].0))
                &&& index_frame(old(index).entries@, final(index).entries@, scope.project@, scope.env@, pair_names(ps))
                &&& forall|k: (Seq<char>, Seq<char>, Seq<char>)| has_key(old(index).entries@, k) ==> has_key(final(index).entries@, k)
                &&& forall|t: int| 0 <= t < ps.len() && #[trigger] flags[t] ==> exists|u: int| t <= u < ps.len() && ps[u].0 == ps[t].0 && flags[u]
                    && #[trigger] records(final(index).entries@, (scope.project@, scope.env@, ps[t].0), metas@[u].0@, metas@[u].1)
                &&& forall|k: (Seq<char>, Seq<char>, Seq<char>), src: Seq<char>, n: Option<String>|
                    !(k.0 == scope.project@ && k.1 == scope.env@ && pair_names(ps).contains(k.2)) && #[trigger] records(old(index).entries@, k, src, n)
                    ==> records(final(index).entries@, k, src, n)
                &&& forall|m: StoredSecretMeta| old(index).entries@.contains(m)
                    && !(m.project@ == scope.project@ && m.profile@ == scope.env@ && pick(pair_names(ps), flags, true).contains(m.key@))
                    ==> #[trigger] final(index).entries@.contains(m)
            }),
    {
        let ghost ps = pairs_view(pairs@);
        let ghost names = pair_names(ps);
        let ghost p0 = recorded_names(index.entries@, scope.project@, scope.env@);
        let ghost flags = import_flags(p0, names, replace);
        let ghost b0 = bundle@;
        let ghost ix0 = index.entries@;
        let mut imported: Vec<String> = Vec::new();
        let mut skipped: Vec<String> = Vec::new();
        let mut i: usize = 0;
        proof {
            lemma_import_flags_len(p0, names, replace);
            assert(names.skip(0) =~= names);
            assert(flags =~= flags.take(0) + import_flags(recorded_names(index.entries@, scope.project@, scope.env@), names.skip(0), replace));
        }
        while i < pairs.len()
            invariant
                ps == pairs_view(pairs@),
                names == pair_names(ps),
                flags == import_flags(p0, names, replace),
                flags.len() == names.len(),
                metas@.len() == pairs@.len(),
                i <= pairs@.len(),
                flags == flags.take(i as int) + import_flags(recorded_names(index.entries@, scope.project@, scope.env@), names.skip(i as int), replace),
                strings_view(imported@) == pick(names.take(i as int), flags.take(i as int), true),
                strings_view(skipped@) == pick(names.take(i as int), flags.take(i as int), false),
                bundle@ == store_pairs(b0, scope.env@, pick(ps.take(i as int), flags.take(i as int), true)),
                forall|t: int| 0 <= t < i ==> has_key(index.entries@, (scope.project@, scope.env@, #[trigger] ps[t].0)) || has_key(ix0, (scope.project@, scope.env@, ps[t].0)),
                index_frame(ix0, index.entries@, scope.project@, scope.env@, names.take(i as int)),
                forall|k: (Seq<char>, Seq<char>, Seq<char>)| has_key(ix0, k) ==> has_key(index.entries@, k),
                forall|t: int| 0 <= t < i && #[trigger] flags[t] ==> exists|u: int| t <= u < i && ps[u].0 == ps[t].0 && flags[u]
                    && #[trigger] records(index.entries@, (scope.project@, scope.env@, ps[t].0), metas@[u].0@, metas@[u].1),
                forall|k: (Seq<char>, Seq<char>, Seq<char>), src: Seq<char>, n: Option<String>|
                    !(k.0 == scope.project@ && k.1 == scope.env@ && names.take(i as int).contains(k.2)) && #[trigger] records(ix0, k, src, n)
                    ==> records(index.entries@, k, src, n),
                forall|m: StoredSecretMeta| ix0.contains(m)
                    && !(m.project@ == scope.project@ && m.profile@ == scope.env@ && pick(names.take(i as int), flags.take(i as int), true).contains(m.key@))
                    ==> #[trigger] index.entries@.contains(m),
            decreases pairs.len() - i,
        {
            let name = pairs[i].0.as_str();
            let value = pairs[i].1.as_str();
            let ghost ix_before = index.entries@;
            let ghost pres = recorded_names(ix_before, scope.project@, scope.env@);
            assert(ps[i as int] == (name@, value@));
            assert(names[i as int] == name@);
            proof {
                let rest = names.skip(i as int);
                assert(rest[0] == name@);
                assert(rest.drop_first() =~= names.skip(i + 1));
                assert(flags[i as int] == import_flags(pres, rest, replace)[0]);
            }
            let present = index.contains(scope.project.as_str(), scope.env.as_str(), name);
            assert(present == pres.contains(name@));
            if !replace && present {
                skipped.push(pairs[i].0.clone());
            } else {
                store_secret(bundle, scope.env.as_str(), name, value);
                record(index, scope, name, metas[i].0.as_str(), &metas[i].1);
                imported.push(pairs[i].0.clone());
                proof {
                    assert(recorded_names(index.entries@, scope.project@, scope.env@) =~= pres.insert(name@)) by {
                        assert forall|n: Seq<char>| #[trigger] recorded_names(index.entries@, scope.project@, scope.env@).contains(n) == pres.insert(name@).contains(n) by {
                            if n != name@ {
                                assert(!seq![name@].contains(n));
                            }
                        }
                    }
                }
            }
            proof {
                let f = flags[i as int];
                let rest = names.skip(i as int);
                let pres2 = recorded_names(index.entries@, scope.project@, scope.env@);
                assert(pres2 == (if f { pres.insert(name@) } else { pres }));
                assert(import_flags(pres, rest, replace) =~= seq![f] + import_flags(pres2, names.skip(i + 1), replace));
                assert(flags.take(i + 1) =~= flags.take(i as int).push(f));
                assert(flags =~= flags.take(i + 1) + import_flags(pres2, names.skip(i + 1), replace));
                assert(names.take(i + 1).drop_last() =~= names.take(i as int));
                assert(ps.take(i + 1).drop_last() =~= ps.take(i as int));
                assert(flags.take(i + 1).drop_last() =~= flags.take(i as int));
                assert(names.take(i + 1).last() == name@);
                assert(ps.take(i + 1).last() == (name@, value@));
                let prev_names = pick(names.take(i as int), flags.take(i as int), true);
                let next_names = pick(names.take(i + 1), flags.take(i + 1), true);
                if f {
                    assert(next_names == prev_names.push(name@));
                } else {
                    assert(next_names == prev_names);
                }
                assert forall|m: StoredSecretMeta| ix0.contains(m)
                    && !(m.project@ == scope.project@ && m.profile@ == scope.env@ && next_names.contains(m.key@))
                    implies #[trigger] index.entries@.contains(m) by {
                    if prev_names.contains(m.key@) {
                        let w = choose|w: int| 0 <= w < prev_names.len() && prev_names[w] == m.key@;
                        if f {
                            assert(next_names[w] == m.key@);
                        }
                    }
                    assert(ix_before.contains(m));
                    if f {
                        assert(key_of(m) != (scope.project@, scope.env@, name@)) by {
                            if key_of(m) == (scope.project@, scope.env@, name@) {
                                assert(next_names[prev_names.len() as int] == name@);
                            }
                        }
                    }
                }
                let prev = pick(ps.take(i as int), flags.take(i as int), true);
                if f {
                    assert(pick(ps.take(i + 1), flags.take(i + 1), true) == prev.push((name@, value@)));
                    assert(prev.push((name@, value@)).drop_last() =~= prev);
                    assert(store_pairs(b0, scope.env@, prev.push((name@, value@))) == spec_store(store_pairs(b0, scope.env@, prev), scope.env@, name@, value@));
                } else {
                    assert(pick(ps.take(i + 1), flags.take(i + 1), true) == prev);
                }
                let ni = names.take(i + 1);
                assert forall|k: (Seq<char>, Seq<char>, Seq<char>)| !(k.0 == scope.project@ && k.1 == scope.env@ && ni.contains(k.2)) implies has_key(index.entries@, k) == has_key(ix0, k) by {
                    if k.0 == scope.project@ && k.1 == scope.env@ {
                        assert(!seq![name@].contains(k.2)) by {
                            if seq![name@].contains(k.2) {
                                assert(ni[i as int] == name@);
                            }
                        }
                        assert(!names.take(i as int).contains(k.2)) by {
                            if names.take(i as int).contains(k.2) {
                                let w = choose|w: int| 0 <= w < names.take(i as int).len() && names.take(i as int)[w] == k.2;
                                assert(ni[w] == k.2);
                            }
                        }
                    }
                }
                assert forall|t: int| 0 <= t < i + 1 && #[trigger] flags[t] implies exists|u: int| t <= u < i + 1 && ps[u].0 == ps[t].0 && flags[u]
                    && #[trigger] records(index.entries@, (scope.project@, scope.env@, ps[t].0), metas@[u].0@, metas@[u].1) by {
                    if ps[t].0 == name@ && f {
                        assert(records(index.entries@, (scope.project@, scope.env@, ps[i as int].0), metas@[i as int].0@, metas@[i as int].1));
                    } else if t < i {
                        let u = choose|u: int| t <= u < i && ps[u].0 == ps[t].0 && flags[u]
                            && #[trigger] records(ix_before, (scope.project@, scope.env@, ps[t].0), metas@[u].0@, metas@[u].1);
                        assert(records(index.entries@, (scope.project@, scope.env@, ps[t].0), metas@[u].0@, metas@[u].1));
                    }
                }
                assert forall|k: (Seq<char>, Seq<char>, Seq<char>), src: Seq<char>, n: Option<String>|
                    !(k.0 == scope.project@ && k.1 == scope.env@ && ni.contains(k.2)) && #[trigger] records(ix0, k, src, n)
                    implies records(index.entries@, k, src, n) by {
                    if k.0 == scope.project@ && k.1 == scope.env@ {
                        assert(!names.take(i as int).contains(k.2)) by {
                            if names.take(i as int).contains(k.2) {
                                let w = choose|w: int| 0 <= w < names.take(i as int).len() && names.take(i as int)[w] == k.2;
                                assert(ni[w] == k.2);
                            }
                        }
                        assert(k.2 != name@) by {
                            assert(ni[i as int] == name@);
                        }
                    }
                    assert(records(ix_before, k, src, n));
                }
                assert forall|t: int| 0 <= t < i + 1 implies has_key(index.entries@, (scope.project@, scope.env@, #[trigger] ps[t].0)) || has_key(ix0, (scope.project@, scope.env@, ps[t].0)) by {
                    if t == i {
                        if !f {
                            assert(pres.contains(name@));
                        }
                    } else if ps[t].0 != name@ {
                        assert(!seq![name@].contains(ps[t].0));
                    } else {
                        if f {
                        } else {
                            assert(pres.contains(name@));
                        }
                    }
                }
            }
            i = i + 1;
        }
        assert(names.take(i as int) =~= names);
        assert(ps.take(i as int) =~= ps);
        assert(flags.take(i as int) =~= flags);
        (imported, skipped)
    }
}

// ---------------------------------------------------------------------------
// Laws of importing
// ---------------------------------------------------------------------------
/// The map that a list of pairs spells, a later pair overriding an earlier one with
/// the same name.
pub open spec fn pairs_to_map(ps: Seq<(Seq<char>, Seq<char>)>) -> Map<Seq<char>, Seq<char>>
    decreases ps.len(),
{
    if ps.len() == 0 {
        Map::empty()
    } else {
        pairs_to_map(ps.drop_last()).insert(ps.last().0, ps.last().1)
    }
}

/// Storing pairs in `env` lays them over what `env` held.
proof fn lemma_store_pairs_scope(b: BundleView, env: Seq<char>, ps: Seq<(Seq<char>, Seq<char>)>)
    ensures
        spec_scope(store_pairs(b, env, ps), env) == spec_scope(b, env).union_prefer_right(pairs_to_map(ps)),
    decreases ps.len(),
{
    if ps.len() == 0 {
        assert(spec_scope(b, env).union_prefer_right(Map::empty()) =~= spec_scope(b, env));
    } else {
        lemma_store_pairs_scope(b, env, ps.drop_last());
        let prev = store_pairs(b, env, ps.drop_last());
        let s = spec_scope(prev, env).insert(ps.last().0, ps.last().1);
        assert(s.contains_key(ps.last().0));
        assert(s.dom() != Set::<Seq<char>>::empty());
        assert(spec_scope(store_pairs(b, env, ps), env) == s);
        assert(s =~= spec_scope(b, env).union_prefer_right(pairs_to_map(ps)));
    }
}

/// With `--replace`, an import takes every pair.
proof fn lemma_replace_takes_all(present: Set<Seq<char>>, names: Seq<Seq<char>>)
    ensures
        import_flags(present, names, true).len() == names.len(),
        forall|i: int| 0 <= i < names.len() ==> #[trigger] import_flags(present, names, true)[i],
    decreases names.len(),
{
    lemma_import_flags_len(present, names, true);
    if names.len() > 0 {
        lemma_replace_takes_all(present.insert(names[0]), names.drop_first());
        let rest = import_flags(present.insert(names[0]), names.drop_first(), true);
        assert(import_flags(present, names, true) == seq![true] + rest);
        assert forall|i: int| 0 <= i < names.len() implies #[trigger] import_flags(present, names, true)[i] by {
            if i > 0 {
                assert(import_flags(present, names, true)[i] == rest[i - 1]);
            }
        }
    }
}

/// Picking with every flag set keeps everything.
proof fn lemma_pick_all<A>(s: Seq<A>, flags: Seq<bool>)
    requires
        flags.len() == s.len(),
        forall|i: int| 0 <= i < s.len() ==> #[trigger] flags[i],
    ensures
        pick(s, flags, true) == s,
    decreases s.len(),
{
    if s.len() > 0 {
        lemma_pick_all(s.drop_last(), flags.drop_last());
        assert(flags[s.len() - 1]);
        assert(s.drop_last().push(s.last()) =~= s);
    }
}

/// Every element picked carries its flag.
proof fn lemma_pick_members<A>(s: Seq<A>, flags: Seq<bool>, x: A)
    requires
        flags.len() == s.len(),
        pick(s, flags, true).contains(x),
    ensures
        exists|i: int| 0 <= i < s.len() && s[i] == x && flags[i],
    decreases s.len(),
{
    if s.len() > 0 {
        let prev = pick(s.drop_last(), flags.drop_last(), true);
        if flags[s.len() - 1] && x == s.last() {
            assert(s[s.len() - 1] == x);
        } else {
            if flags[s.len() - 1] {
                let w = choose|w: int| 0 <= w < prev.push(s.last()).len() && prev.push(s.last())[w] == x;
                assert(w < prev.len());
                assert(prev[w] == x);
            }
            assert(prev.contains(x));
            lemma_pick_members(s.drop_last(), flags.drop_last(), x);
            let i = choose|i: int| 0 <= i < s.drop_last().len() && s.drop_last()[i] == x && flags.drop_last()[i];
            assert(s[i] == x && flags[i]);
        }
    }
}

/// Without `--replace`, an import takes no name that was recorded when it started.
proof fn lemma_skip_recorded(present: Set<Seq<char>>, names: Seq<Seq<char>>, i: int)
    requires
        0 <= i < names.len(),
        import_flags(present, names, false)[i],
    ensures
        !present.contains(names[i]),
    decreases names.len(),
{
    let take = !present.contains(names[0]);
    let next = if take { present.insert(names[0]) } else { present };
    let rest = import_flags(next, names.drop_first(), false);
    assert(import_flags(present, names, false) == seq![take] + rest);
    if i > 0 {
        lemma_import_flags_len(next, names.drop_first(), false);
        assert(rest[i - 1]);
        lemma_skip_recorded(next, names.drop_first(), i - 1);
        assert(names.drop_first()[i - 1] == names[i]);
    }
}

/// Storing pairs that all name something else leaves `name` as it was.
proof fn lemma_store_pairs_other_names(b: BundleView, env: Seq<char>, qs: Seq<(Seq<char>, Seq<char>)>, name: Seq<char>)
    requires
        forall|t: int| 0 <= t < qs.len() ==> (#[trigger] qs[t]).0 != name,
    ensures
        spec_read(store_pairs(b, env, qs), env, name) == spec_read(b, env, name),
    decreases qs.len(),
{
    if qs.len() > 0 {
        lemma_store_pairs_other_names(b, env, qs.drop_last(), name);
        assert(qs[qs.len() - 1].0 != name);
        crate::keychain::law_store_isolated(store_pairs(b, env, qs.drop_last()), env, qs.last().0, qs.last().1, env, name);
    }
}

/// The pairs of a map with ascending keys spell the map.
proof fn lemma_pairs_to_map_of_secrets(secrets: ScopeSecrets)
    requires
        crate::strmap::strictly_ascending(secrets.spec_pairs()),
    ensures
        pairs_to_map(secret_pairs(secrets)) == secrets_view(secrets@),
{
    let sp = secrets.spec_pairs();
    let ps = secret_pairs(secrets);
    assert forall|i: int, j: int| 0 <= i < j < ps.len() implies (#[trigger] ps[i]).0 != (#[trigger] ps[j]).0 by {
        assert(crate::text::chars_lt(sp[i].0@, sp[j].0@));
        crate::text::lemma_chars_lt_irreflexive(sp[i].0@);
    }
    lemma_pairs_to_map_values(ps);
    assert forall|x: Seq<char>| #[trigger] pairs_to_map(ps).contains_key(x) == secrets_view(secrets@).contains_key(x) by {
        lemma_pairs_to_map_dom(ps, x);
        if secrets@.contains_key(x) {
            secrets.lemma_key_in_pairs(x);
            let i = choose|i: int| 0 <= i < sp.len() && (#[trigger] sp[i]).0@ == x;
            assert(ps[i].0 == x);
        }
        if pairs_to_map(ps).contains_key(x) {
            let i = choose|i: int| 0 <= i < ps.len() && (#[trigger] ps[i]).0 == x;
            secrets.lemma_pair_in_map(i);
        }
    }
    assert forall|x: Seq<char>| #[trigger] pairs_to_map(ps).contains_key(x) implies pairs_to_map(ps)[x] == secrets_view(secrets@)[x] by {
        lemma_pairs_to_map_dom(ps, x);
        let i = choose|i: int| 0 <= i < ps.len() && (#[trigger] ps[i]).0 == x;
        secrets.lemma_pair_in_map(i);
        assert(pairs_to_map(ps)[ps[i].0] == ps[i].1);
    }
    assert(pairs_to_map(ps) =~= secrets_view(secrets@));
}

/// The names of `pairs_to_map(ps)` are those of its pairs.
proof fn lemma_pairs_to_map_dom(ps: Seq<(Seq<char>, Seq<char>)>, x: Seq<char>)
    ensures
        pairs_to_map(ps).contains_key(x) <==> exists|i: int| 0 <= i < ps.len() && (#[trigger] ps[i]).0 == x,
    decreases ps.len(),
{
    if ps.len() > 0 {
        lemma_pairs_to_map_dom(ps.drop_last(), x);
        if exists|i: int| 0 <= i < ps.drop_last().len() && (#[trigger] ps.drop_last()[i]).0 == x {
            let i = choose|i: int| 0 <= i < ps.drop_last().len() && (#[trigger] ps.drop_last()[i]).0 == x;
            assert(ps[i].0 == x);
        }
        if exists|i: int| 0 <= i < ps.len() && (#[trigger] ps[i]).0 == x {
            let i = choose|i: int| 0 <= i < ps.len() && (#[trigger] ps[i]).0 == x;
            if i < ps.len() - 1 {
                assert(ps.drop_last()[i].0 == x);
            }
        }
    }
}

/// With distinct names, each name maps to the value of its pair.
proof fn lemma_pairs_to_map_values(ps: Seq<(Seq<char>, Seq<char>)>)
    requires
        forall|i: int, j: int| 0 <= i < j < ps.len() ==> (#[trigger] ps[i]).0 != (#[trigger] ps[j]).0,
    ensures
        forall|i: int| 0 <= i < ps.len() ==> #[trigger] pairs_to_map(ps)[ps[i].0] == ps[i].1,
    decreases ps.len(),
{
    if ps.len() > 0 {
        let p = ps.drop_last();
        assert forall|i: int, j: int| 0 <= i < j < p.len() implies (#[trigger] p[i]).0 != (#[trigger] p[j]).0 by {
            assert(p[i] == ps[i] && p[j] == ps[j]);
        }
        lemma_pairs_to_map_values(p);
        assert forall|i: int| 0 <= i < ps.len() implies #[trigger] pairs_to_map(ps)[ps[i].0] == ps[i].1 by {
            assert(pairs_to_map(ps) == pairs_to_map(p).insert(ps.last().0, ps.last().1));
            if i < ps.len() - 1 {
                assert(p[i] == ps[i]);
                assert(ps[i].0 != ps[ps.len() - 1].0);
                assert(pairs_to_map(p)[p[i].0] == p[i].1);
            } else {
                assert(ps[i] == ps.last());
            }
        }
    }
}

/// Writing an environment back as it is leaves what it holds unchanged.
proof fn lemma_settle_scope(b: BundleView, env: Seq<char>)
    ensures
        spec_scope(settle(b, env), env) == spec_scope(b, env),
{
    if spec_scope(b, env).dom() == Set::<Seq<char>>::empty() {
        assert(spec_scope(b, env) =~= Map::<Seq<char>, Seq<char>>::empty());
    }
}

/// Importing with `--replace` lays the imported pairs over the environment: each name
/// ends with the value of its last pair, and every other name keeps its value.
pub proof fn law_import_replace_overlays(b: BundleView, env: Seq<char>, ps: Seq<(Seq<char>, Seq<char>)>, recorded: Set<Seq<char>>)
    ensures
        spec_scope(settle(store_pairs(b, env, pick(ps, import_flags(recorded, pair_names(ps), true), true)), env), env)
            == spec_scope(b, env).union_prefer_right(pairs_to_map(ps)),
{
    lemma_settle_scope(store_pairs(b, env, pick(ps, import_flags(recorded, pair_names(ps), true), true)), env);
    lemma_replace_takes_all(recorded, pair_names(ps));
    lemma_pick_all(ps, import_flags(recorded, pair_names(ps), true));
    lemma_store_pairs_scope(b, env, ps);
}

/// Importing without `--replace` leaves every name that the index recorded in the scope
/// with the value it had.
pub proof fn law_import_keeps_recorded(b: BundleView, env: Seq<char>, ps: Seq<(Seq<char>, Seq<char>)>, recorded: Set<Seq<char>>, name: Seq<char>)
    requires
        recorded.contains(name),
    ensures
        spec_read(settle(store_pairs(b, env, pick(ps, import_flags(recorded, pair_names(ps), false), true)), env), env, name)
            == spec_read(b, env, name),
{
    lemma_settle_scope(store_pairs(b, env, pick(ps, import_flags(recorded, pair_names(ps), false), true)), env);
    let names = pair_names(ps);
    let flags = import_flags(recorded, names, false);
    lemma_import_flags_len(recorded, names, false);
    let qs = pick(ps, flags, true);
    assert forall|t: int| 0 <= t < qs.len() implies (#[trigger] qs[t]).0 != name by {
        assert(qs.contains(qs[t]));
        lemma_pick_members(ps, flags, qs[t]);
        let i = choose|i: int| 0 <= i < ps.len() && ps[i] == qs[t] && flags[i];
        lemma_skip_recorded(recorded, names, i);
        assert(names[i] == ps[i].0);
    }
    lemma_store_pairs_other_names(b, env, qs, name);
}

/// A scope's secrets, sealed in an archive and imported back with `--replace`, lie over
/// what the environment held: imported into an empty environment, exactly the same
/// secrets come back.
pub proof fn law_archive_scope_round_trip(b: BundleView, env: Seq<char>, secrets: ScopeSecrets, recorded: Set<Seq<char>>)
    requires
        crate::strmap::strictly_ascending(secrets.spec_pairs()),
    ensures
        spec_scope(settle(store_pairs(b, env, pick(secret_pairs(secrets), import_flags(recorded, pair_names(secret_pairs(secrets)), true), true)), env), env)
            == spec_scope(b, env).union_prefer_right(secrets_view(secrets@)),
        spec_scope(b, env).dom() == Set::<Seq<char>>::empty() ==> spec_scope(
            settle(store_pairs(b, env, pick(secret_pairs(secrets), import_flags(recorded, pair_names(secret_pairs(secrets)), true), true)), env),
            env,
        ) == secrets_view(secrets@),
{
    law_import_replace_overlays(b, env, secret_pairs(secrets), recorded);
    lemma_pairs_to_map_of_secrets(secrets);
    if spec_scope(b, env).dom() == Set::<Seq<char>>::empty() {
        assert(spec_scope(b, env).union_prefer_right(secrets_view(secrets@)) =~= secrets_view(secrets@));
    }
}

/// The source recorded for a secret imported from an archive: `archive`.
pub open spec fn archive_source() -> Seq<char> {
    seq!['a', 'r', 'c', 'h', 'i', 'v', 'e']
}

/// `<env>/<name>`, as archive imports report a secret of a whole-project archive.
pub open spec fn env_label(env: Seq<char>, name: Seq<char>) -> Seq<char> {
    env + seq!['/'] + name
}

/// Each of `names` as `<env>/<name>`.
pub open spec fn labelled(env: Seq<char>, names: Seq<Seq<char>>) -> Seq<Seq<char>> {
    names.map_values(|n: Seq<char>| env_label(env, n))
}

/// `b` with environment `env` present, empty when it was missing.
pub open spec fn ensure_env(b: BundleView, env: Seq<char>) -> BundleView {
    if b.contains_key(env) {
        b
    } else {
        b.insert(env, Map::empty())
    }
}

/// The secrets of `s` as pairs of character sequences, in ascending name order.
pub open spec fn secret_pairs(s: ScopeSecrets) -> Seq<(Seq<char>, Seq<char>)> {
    pairs_view(s.spec_pairs())
}

/// Which secrets `s` of environment `env` of a whole-project archive an import takes,
/// given the index `ix` it started from.
pub open spec fn archive_flags(ix: Seq<StoredSecretMeta>, project: Seq<char>, env: Seq<char>, s: ScopeSecrets, replace: bool) -> Seq<bool> {
    import_flags(recorded_names(ix, project, env), pair_names(secret_pairs(s)), replace)
}

/// The bundle after importing the environments `envs` of a whole-project archive, in
/// order: each is created when missing, then its secrets are stored as an import does.
pub open spec fn archive_bundle(b: BundleView, envs: Seq<(String, ScopeSecrets)>, ix: Seq<StoredSecretMeta>, project: Seq<char>, replace: bool) -> BundleView
    decreases envs.len(),
{
    if envs.len() == 0 {
        b
    } else {
        let e = envs.last().0@;
        let s = envs.last().1;
        store_pairs(
            ensure_env(archive_bundle(b, envs.drop_last(), ix, project, replace), e),
            e,
            pick(secret_pairs(s), archive_flags(ix, project, e, s, replace), true),
        )
    }
}

/// The secrets of a whole-project archive that an import takes (`keep`) or skips
/// (`!keep`), as `<env>/<name>`, environment by environment.
pub open spec fn archive_report(envs: Seq<(String, ScopeSecrets)>, ix: Seq<StoredSecretMeta>, project: Seq<char>, replace: bool, keep: bool) -> Seq<Seq<char>>
    decreases envs.len(),
{
    if envs.len() == 0 {
        seq![]
    } else {
        let e = envs.last().0@;
        let s = envs.last().1;
        archive_report(envs.drop_last(), ix, project, replace, keep)
            + labelled(e, pick(pair_names(secret_pairs(s)), archive_flags(ix, project, e, s, replace), keep))
    }
}

/// Whether one of the first `i` environments of `envs` is `env` and holds `name`.
pub open spec fn in_archive_prefix(envs: Seq<(String, ScopeSecrets)>, i: int, env: Seq<char>, name: Seq<char>) -> bool {
    exists|t: int| 0 <= t < i && (#[trigger] envs[t]).0@ == env && envs[t].1@.contains_key(name)
}

/// Whether one of the first `i` environments of a whole-project archive is `env` and an
/// import takes `name` from it.
pub open spec fn archive_took(envs: Seq<(String, ScopeSecrets)>, i: int, ix: Seq<StoredSecretMeta>, project: Seq<char>, replace: bool, env: Seq<char>, name: Seq<char>) -> bool {
    exists|t: int| 0 <= t < i && (#[trigger] envs[t]).0@ == env
        && pick(pair_names(secret_pairs(envs[t].1)), archive_flags(ix, project, env, envs[t].1, replace), true).contains(name)
}

/// Appends each of `names` as `<env>/<name>`.
fn push_labels(out: &mut Vec<String>, env: &str, names: &Vec<String>)
    ensures
        strings_view(final(out)@) == strings_view(old(out)@) + labelled(env@, strings_view(names@)),
{
    let ghost start = strings_view(out@);
    let mut i: usize = 0;
    while i < names.len()
        invariant
            i <= names@.len(),
            strings_view(out@) == start + labelled(env@, strings_view(names@.take(i as int))),
        decreases names.len() - i,
    {
        let mut v: Vec<char> = Vec::new();
        push_str_chars(&mut v, env);
        v.push('/');
        push_str_chars(&mut v, names[i].as_str());
        assert(v@ =~= env_label(env@, names@[i as int]@));
        let ghost before = out@;
        out.push(string_from_chars(&v));
        assert(strings_view(names@.take(i + 1)) =~= strings_view(names@.take(i as int)).push(names@[i as int]@));
        assert(strings_view(out@) =~= strings_view(before).push(env_label(env@, names@[i as int]@)));
        assert(labelled(env@, strings_view(names@.take(i + 1))) =~= labelled(env@, strings_view(names@.take(i as int))).push(env_label(env@, names@[i as int]@)));
        i = i + 1;
    }
    assert(names@.take(i as int) =~= names@);
}

impl App {
    /// Imports a whole-project archive into `project`: each environment of `envs`, in
    /// ascending order, is created in the bundle when missing, then its secrets are
    /// imported as by [`App::import_pairs`] with source `archive`. Gives the imported
    /// and the skipped secrets as `<env>/<name>`.
    pub fn import_project_archive(
        &self,
        bundle: &mut ProjectSecretBundle,
        index: &mut IndexFile,
        project: &str,
        envs: &StrMap<ScopeSecrets>,
        replace: bool,
        note: &Option<String>,
    ) -> (r: (Vec<String>, Vec<String>))
        ensures
            final(bundle)@ == archive_bundle(old(bundle)@, envs.spec_pairs(), old(index).entries@, project@, replace),
            strings_view(r.0@) == archive_report(envs.spec_pairs(), old(index).entries@, project@, replace, true),
            strings_view(r.1@) == archive_report(envs.spec_pairs(), old(index).entries@, project@, replace, false),
            forall|k: (Seq<char>, Seq<char>, Seq<char>)| #[trigger] has_key(final(index).entries@, k)
                == (has_key(old(index).entries@, k) || (k.0 == project@ && envs@.contains_key(k.1) && envs@[k.1]@.contains_key(k.2))),
            forall|t: int, q: int| 0 <= t < envs.spec_pairs().len() && 0 <= q < secret_pairs(envs.spec_pairs()[t].1).len()
                && #[trigger] archive_flags(old(index).entries@, project@, envs.spec_pairs()[t].0@, envs.spec_pairs()[t].1, replace)[q]
                ==> records(final(index).entries@, (project@, envs.spec_pairs()[t].0@, secret_pairs(envs.spec_pairs()[t].1)[q].0), archive_source(), *note),
            forall|k: (Seq<char>, Seq<char>, Seq<char>), src: Seq<char>, n: Option<String>|
                !(k.0 == project@ && envs@.contains_key(k.1) && envs@[k.1]@.contains_key(k.2)) && #[trigger] records(old(index).entries@, k, src, n)
                ==> records(final(index).entries@, k, src, n),
            forall|m: StoredSecretMeta| old(index).entries@.contains(m)
                && !(m.project@ == project@ && archive_took(envs.spec_pairs(), envs.spec_pairs().len() as int, old(index).entries@, project@, replace, m.profile@, m.key@))
                ==> #[trigger] final(index).entries@.contains(m),
            forall|e: Seq<char>| #[trigger] envs@.contains_key(e) ==> final(bundle)@.contains_key(e),
            forall|e: Seq<char>| !envs@.contains_key(e) ==> spec_scope(final(bundle)@, e) == spec_scope(old(bundle)@, e),
    {
        let mut imported: Vec<String> = Vec::new();
        let mut skipped: Vec<String> = Vec::new();
        let env_pairs = envs.pairs();
        let source = "archive";
        proof {
            reveal_strlit("archive");
            assert(source@ =~= archive_source());
        }
        let ghost ix0 = index.entries@;
        let ghost b0 = bundle@;
        let mut i: usize = 0;
        proof {
            assert(env_pairs@.take(0) =~= Seq::<(String, ScopeSecrets)>::empty());
            assert(strings_view(imported@) =~= Seq::<Seq<char>>::empty());
            assert(strings_view(skipped@) =~= Seq::<Seq<char>>::empty());
        }
        while i < env_pairs.len()
            invariant
                env_pairs@ == envs.spec_pairs(),
                crate::strmap::strictly_ascending(env_pairs@),
                crate::strmap::pairs_map(env_pairs@) == envs@,
                i <= env_pairs@.len(),
                bundle@ == archive_bundle(b0, env_pairs@.take(i as int), ix0, project@, replace),
                strings_view(imported@) == archive_report(env_pairs@.take(i as int), ix0, project@, replace, true),
                strings_view(skipped@) == archive_report(env_pairs@.take(i as int), ix0, project@, replace, false),
                forall|k: (Seq<char>, Seq<char>, Seq<char>)| #[trigger] has_key(index.entries@, k)
                    == (has_key(ix0, k) || (k.0 == project@ && in_archive_prefix(env_pairs@, i as int, k.1, k.2))),
                forall|t: int| 0 <= t < i ==> bundle@.contains_key((#[trigger] env_pairs@[t]).0@),
                forall|e: Seq<char>| !envs@.contains_key(e) ==> spec_scope(bundle@, e) == spec_scope(b0, e),
                source@ == archive_source(),
                forall|m: StoredSecretMeta| ix0.contains(m)
                    && !(m.project@ == project@ && archive_took(env_pairs@, i as int, ix0, project@, replace, m.profile@, m.key@))
                    ==> #[trigger] index.entries@.contains(m),
                forall|k: (Seq<char>, Seq<char>, Seq<char>), src: Seq<char>, n: Option<String>|
                    !(k.0 == project@ && in_archive_prefix(env_pairs@, i as int, k.1, k.2)) && #[trigger] records(ix0, k, src, n)
                    ==> records(index.entries@, k, src, n),
                forall|t: int, q: int| 0 <= t < i && 0 <= q < secret_pairs(env_pairs@[t].1).len()
                    && #[trigger] archive_flags(ix0, project@, env_pairs@[t].0@, env_pairs@[t].1, replace)[q]
                    ==> records(index.entries@, (project@, env_pairs@[t].0@, secret_pairs(env_pairs@[t].1)[q].0), archive_source(), *note),
            decreases env_pairs.len() - i,
        {
            let env = env_pairs[i].0.as_str();
            let secrets = &env_pairs[i].1;
            let ghost ixb = index.entries@;
            let ghost bb = bundle@;
            proof {
                envs.lemma_pair_in_map(i as int);
            }
            if bundle.envs.get(env).is_none() {
                let fresh: ScopeSecrets = StrMap::new();
                assert(secrets_view(fresh@) =~= Map::<Seq<char>, Seq<char>>::empty());
                bundle.envs.insert(copy_str(env), fresh);
                assert(bundle@ =~= ensure_env(bb, env@));
            }
            let ghost bm = bundle@;
            assert(bm =~= ensure_env(bb, env@));
            let scope = ResolvedScope { project: copy_str(project), env: copy_str(env), config_path: None };
            let pairs = secrets.pairs();
            let ghost ps = pairs_view(pairs@);
            assert(ps == secret_pairs(*secrets));
            // The environments before this one differ from it, so the index still records
            // in it exactly what it recorded at the start.
            assert(recorded_names(ixb, project@, env@) =~= recorded_names(ix0, project@, env@)) by {
                assert forall|n: Seq<char>| #[trigger] recorded_names(ixb, project@, env@).contains(n) == recorded_names(ix0, project@, env@).contains(n) by {
                    if in_archive_prefix(env_pairs@, i as int, env@, n) {
                        let t = choose|t: int| 0 <= t < i && (#[trigger] env_pairs@[t]).0@ == env@ && env_pairs@[t].1@.contains_key(n);
                        assert(crate::text::chars_lt(env_pairs@[t].0@, env_pairs@[i as int].0@));
                        crate::text::lemma_chars_lt_irreflexive(env@);
                    }
                    assert(has_key(ixb, (project@, env@, n)) == has_key(ix0, (project@, env@, n)));
                }
            }
            let ghost flags = archive_flags(ix0, project@, env@, *secrets, replace);
            let (imp, skp) = self.import_uniform(bundle, index, &scope, pairs, replace, source, note);
            let ghost imported_before = strings_view(imported@);
            let ghost skipped_before = strings_view(skipped@);
            push_labels(&mut imported, env, &imp);
            push_labels(&mut skipped, env, &skp);
            proof {
                let prefix = env_pairs@.take(i as int);
                let grown = env_pairs@.take(i + 1);
                assert(grown.drop_last() =~= prefix);
                assert(grown.last() == env_pairs@[i as int]);
                assert(bundle@ == archive_bundle(b0, grown, ix0, project@, replace));
                assert(strings_view(imported@) =~= archive_report(grown, ix0, project@, replace, true));
                assert(strings_view(skipped@) =~= archive_report(grown, ix0, project@, replace, false));
                crate::keychain::lemma_store_pairs_keeps_env(bm, env@, pick(ps, flags, true));
                crate::keychain::lemma_store_pairs_other_env(bm, env@, pick(ps, flags, true));
                assert forall|t: int| 0 <= t < i + 1 implies bundle@.contains_key((#[trigger] env_pairs@[t]).0@) by {
                    if t < i {
                        assert(bb.contains_key(env_pairs@[t].0@));
                        assert(env_pairs@[t].0@ != env@) by {
                            assert(crate::text::chars_lt(env_pairs@[t].0@, env_pairs@[i as int].0@));
                            crate::text::lemma_chars_lt_irreflexive(env@);
                        }
                        assert(bm.contains_key(env_pairs@[t].0@));
                    }
                }
                assert forall|t: int, q: int| 0 <= t < i + 1 && 0 <= q < secret_pairs(env_pairs@[t].1).len()
                    && #[trigger] archive_flags(ix0, project@, env_pairs@[t].0@, env_pairs@[t].1, replace)[q]
                    implies records(index.entries@, (project@, env_pairs@[t].0@, secret_pairs(env_pairs@[t].1)[q].0), archive_source(), *note) by {
                    if t < i {
                        let k = (project@, env_pairs@[t].0@, secret_pairs(env_pairs@[t].1)[q].0);
                        assert(env_pairs@[t].0@ != env@) by {
                            assert(crate::text::chars_lt(env_pairs@[t].0@, env_pairs@[i as int].0@));
                            crate::text::lemma_chars_lt_irreflexive(env@);
                        }
                        assert(records(ixb, k, archive_source(), *note));
                    } else {
                        assert(flags[q]);
                    }
                }
                assert forall|k: (Seq<char>, Seq<char>, Seq<char>), src: Seq<char>, n: Option<String>|
                    !(k.0 == project@ && in_archive_prefix(env_pairs@, i + 1, k.1, k.2)) && #[trigger] records(ix0, k, src, n)
                    implies records(index.entries@, k, src, n) by {
                    let names = pair_names(ps);
                    if in_archive_prefix(env_pairs@, i as int, k.1, k.2) {
                        let t = choose|t: int| 0 <= t < i && (#[trigger] env_pairs@[t]).0@ == k.1 && env_pairs@[t].1@.contains_key(k.2);
                        assert(in_archive_prefix(env_pairs@, i + 1, k.1, k.2));
                    }
                    assert(records(ixb, k, src, n));
                    if k.0 == project@ && k.1 == env@ && names.contains(k.2) {
                        let w = choose|w: int| 0 <= w < names.len() && names[w] == k.2;
                        assert(ps[w].0 == k.2);
                        assert(pairs@[w].0@ == k.2);
                        assert(crate::strmap::has_key_at(pairs@, k.2));
                        assert(secrets@.contains_key(k.2));
                        assert(in_archive_prefix(env_pairs@, i + 1, k.1, k.2));
                    }
                }
                assert forall|m: StoredSecretMeta| ix0.contains(m)
                    && !(m.project@ == project@ && archive_took(env_pairs@, i + 1, ix0, project@, replace, m.profile@, m.key@))
                    implies #[trigger] index.entries@.contains(m) by {
                    if m.project@ == project@ && archive_took(env_pairs@, i as int, ix0, project@, replace, m.profile@, m.key@) {
                        let t = choose|t: int| 0 <= t < i && (#[trigger] env_pairs@[t]).0@ == m.profile@
                            && pick(pair_names(secret_pairs(env_pairs@[t].1)), archive_flags(ix0, project@, m.profile@, env_pairs@[t].1, replace), true).contains(m.key@);
                        assert(archive_took(env_pairs@, i + 1, ix0, project@, replace, m.profile@, m.key@));
                    }
                    assert(ixb.contains(m));
                    if m.project@ == project@ && m.profile@ == env@ && pick(pair_names(ps), flags, true).contains(m.key@) {
                        assert(env_pairs@[i as int].0@ == m.profile@);
                        assert(archive_took(env_pairs@, i + 1, ix0, project@, replace, m.profile@, m.key@));
                    }
                }
                assert forall|e: Seq<char>| !envs@.contains_key(e) implies spec_scope(bundle@, e) == spec_scope(b0, e) by {
                    assert(e != env@);
                    assert(spec_scope(bm, e) == spec_scope(bb, e));
                }
                assert forall|k: (Seq<char>, Seq<char>, Seq<char>)| #[trigger] has_key(index.entries@, k)
                    == (has_key(ix0, k) || (k.0 == project@ && in_archive_prefix(env_pairs@, i + 1, k.1, k.2))) by {
                    let names = pair_names(ps);
                    if k.0 == project@ && k.1 == env@ && names.contains(k.2) {
                        let w = choose|w: int| 0 <= w < names.len() && names[w] == k.2;
                        assert(ps[w].0 == k.2);
                        assert(has_key(index.entries@, k));
                        assert(pairs@[w].0@ == k.2);
                        assert(crate::strmap::has_key_at(pairs@, k.2));
                        assert(secrets@.contains_key(k.2));
                        assert(in_archive_prefix(env_pairs@, i + 1, k.1, k.2));
                    } else {
                        assert(has_key(index.entries@, k) == has_key(ixb, k));
                        if in_archive_prefix(env_pairs@, i + 1, k.1, k.2) && !in_archive_prefix(env_pairs@, i as int, k.1, k.2) {
                            let t = choose|t: int| 0 <= t < i + 1 && (#[trigger] env_pairs@[t]).0@ == k.1 && env_pairs@[t].1@.contains_key(k.2);
                            assert(t == i);
                            secrets.lemma_key_in_pairs(k.2);
                            let w = choose|w: int| 0 <= w < secrets.spec_pairs().len() && (#[trigger] secrets.spec_pairs()[w]).0@ == k.2;
                            assert(names[w] == k.2);
                            if k.0 == project@ {
                                assert(names.contains(k.2));
                            }
                        }
                        if in_archive_prefix(env_pairs@, i as int, k.1, k.2) {
                            let t = choose|t: int| 0 <= t < i && (#[trigger] env_pairs@[t]).0@ == k.1 && env_pairs@[t].1@.contains_key(k.2);
                            assert(in_archive_prefix(env_pairs@, i + 1, k.1, k.2));
                        }
                    }
                }
            }
            i = i + 1;
        }
        proof {
            assert(env_pairs@.take(i as int) =~= env_pairs@);
            assert forall|e: Seq<char>| #[trigger] envs@.contains_key(e) implies bundle@.contains_key(e) by {
                let j = crate::strmap::key_index(env_pairs@, e);
                assert(env_pairs@[j].0@ == e);
            }
            assert forall|k: (Seq<char>, Seq<char>, Seq<char>), src: Seq<char>, n: Option<String>|
                !(k.0 == project@ && envs@.contains_key(k.1) && envs@[k.1]@.contains_key(k.2)) && #[trigger] records(ix0, k, src, n)
                implies records(index.entries@, k, src, n) by {
                if in_archive_prefix(env_pairs@, i as int, k.1, k.2) {
                    let t = choose|t: int| 0 <= t < i && (#[trigger] env_pairs@[t]).0@ == k.1 && env_pairs@[t].1@.contains_key(k.2);
                    envs.lemma_pair_in_map(t);
                }
            }
            assert forall|k: (Seq<char>, Seq<char>, Seq<char>)| #[trigger] has_key(index.entries@, k)
                == (has_key(ix0, k) || (k.0 == project@ && envs@.contains_key(k.1) && envs@[k.1]@.contains_key(k.2))) by {
                if in_archive_prefix(env_pairs@, i as int, k.1, k.2) {
                    let t = choose|t: int| 0 <= t < i && (#[trigger] env_pairs@[t]).0@ == k.1 && env_pairs@[t].1@.contains_key(k.2);
                    envs.lemma_pair_in_map(t);
                }
                if envs@.contains_key(k.1) && envs@[k.1]@.contains_key(k.2) {
                    let j = crate::strmap::key_index(env_pairs@, k.1);
                    envs.lemma_pair_in_map(j);
                    assert(env_pairs@[j].0@ == k.1);
                    assert(in_archive_prefix(env_pairs@, i as int, k.1, k.2));
                }
            }
        }
        (imported, skipped)
    }
}

/// Keeping every element keeps the sequence.
proof fn lemma_filter_all_true(s: Seq<StoredSecretMeta>)
    ensures
        s.filter(|m: StoredSecretMeta| true) == s,
    decreases s.len(),
{
    reveal_with_fuel(Seq::<_>::filter, 1);
    if s.len() > 0 {
        lemma_filter_all_true(s.drop_last());
        assert(s.drop_last().push(s.last()) =~= s);
    }
}

// ---------------------------------------------------------------------------
// Purging and archives
// ---------------------------------------------------------------------------
impl App {
    /// `purge`: refused without `--yes`; otherwise drops every index entry of the scope
    /// and every secret of its environment. Gives the purged names, in index order.
    pub fn purge_scope(&self, bundle: &mut ProjectSecretBundle, index: &mut IndexFile, scope: &ResolvedScope, yes: bool) -> (r: Result<Vec<String>, AppError>)
        ensures
            !yes ==> (r matches Err(AppError::PurgeNotConfirmed)) && final(bundle)@ == old(bundle)@ && final(index).entries@ == old(index).entries@,
            yes ==> (r matches Ok(keys)
                && strings_view(keys@) == old(index).entries@.filter(|m: StoredSecretMeta| in_scope(m, scope.project@, scope.env@)).map_values(|m: StoredSecretMeta| m.key@)
                && final(bundle)@ == old(bundle)@.remove(scope.env@)
                && final(index).entries@ == old(index).entries@.filter(|m: StoredSecretMeta| !in_scope(m, scope.project@, scope.env@))
                && (forall|n: Seq<char>| !has_key(final(index).entries@, (scope.project@, scope.env@, n)))
                && (forall|k: (Seq<char>, Seq<char>, Seq<char>)| !(k.0 == scope.project@ && k.1 == scope.env@) ==> has_key(final(index).entries@, k) == has_key(old(index).entries@, k))
                && (forall|k: (Seq<char>, Seq<char>, Seq<char>), src: Seq<char>, n: Option<String>|
                    !(k.0 == scope.project@ && k.1 == scope.env@) && #[trigger] records(old(index).entries@, k, src, n) ==> records(final(index).entries@, k, src, n))),
    {
        if !yes {
            return Err(AppError::PurgeNotConfirmed);
        }
        let entries = index.entries_owned_for_scope(scope.project.as_str(), scope.env.as_str());
        let ghost pred = |m: StoredSecretMeta| in_scope(m, scope.project@, scope.env@);
        let ghost ix0 = index.entries@;
        let ghost keyf = |m: StoredSecretMeta| m.key@;
        let mut keys: Vec<String> = Vec::new();
        let mut i: usize = 0;
        proof {
            let p0 = |m: StoredSecretMeta| !(in_scope(m, scope.project@, scope.env@) && entries@.take(0).map_values(keyf).contains(m.key@));
            crate::index::lemma_filter_agree(ix0, p0, |m: StoredSecretMeta| true);
            reveal_with_fuel(Seq::<_>::filter, 1);
            lemma_filter_all_true(ix0);
        }
        while i < entries.len()
            invariant
                entries@ == ix0.filter(pred),
                keyf == (|m: StoredSecretMeta| m.key@),
                index.entries@ == ix0.filter(|m: StoredSecretMeta| !(in_scope(m, scope.project@, scope.env@) && entries@.take(i as int).map_values(keyf).contains(m.key@))),
                pred == (|m: StoredSecretMeta| in_scope(m, scope.project@, scope.env@)),
                i <= entries@.len(),
                keys@.len() == i,
                forall|t: int| 0 <= t < i ==> (#[trigger] keys@[t])@ == entries@[t].key@,
                forall|t: int| 0 <= t < i ==> !has_key(index.entries@, (scope.project@, scope.env@, (#[trigger] entries@[t]).key@)),
                forall|k: (Seq<char>, Seq<char>, Seq<char>)| !(k.0 == scope.project@ && k.1 == scope.env@) ==> has_key(index.entries@, k) == has_key(ix0, k),
                forall|k: (Seq<char>, Seq<char>, Seq<char>)| has_key(index.entries@, k) ==> has_key(ix0, k),
                forall|k: (Seq<char>, Seq<char>, Seq<char>), src: Seq<char>, n: Option<String>|
                    !(k.0 == scope.project@ && k.1 == scope.env@) && #[trigger] records(ix0, k, src, n) ==> records(index.entries@, k, src, n),
            decreases entries.len() - i,
        {
            let key = entries[i].key.as_str();
            let ghost before = index.entries@;
            index.remove(scope.project.as_str(), scope.env.as_str(), key);
            keys.push(entries[i].key.clone());
            proof {
                let ri = entries@.take(i as int).map_values(keyf);
                let rj = entries@.take(i + 1).map_values(keyf);
                assert(rj =~= ri.push(key@));
                let pi = |m: StoredSecretMeta| !(in_scope(m, scope.project@, scope.env@) && ri.contains(m.key@));
                let pj = |m: StoredSecretMeta| !(in_scope(m, scope.project@, scope.env@) && rj.contains(m.key@));
                let q = |m: StoredSecretMeta| key_of(m) != (scope.project@, scope.env@, key@);
                crate::index::lemma_filter_twice(ix0, pi, q);
                let pq = |m: StoredSecretMeta| pi(m) && q(m);
                assert forall|m: StoredSecretMeta| #[trigger] pq(m) == pj(m) by {
                    if rj.contains(m.key@) && !ri.contains(m.key@) {
                        let w = choose|w: int| 0 <= w < rj.len() && rj[w] == m.key@;
                        if w < ri.len() {
                            assert(ri[w] == rj[w]);
                        }
                        assert(m.key@ == key@);
                    }
                    if ri.contains(m.key@) {
                        let w = choose|w: int| 0 <= w < ri.len() && ri[w] == m.key@;
                        assert(rj[w] == ri[w]);
                    }
                    if m.key@ == key@ {
                        assert(rj[ri.len() as int] == key@);
                    }
                }
                crate::index::lemma_filter_same(ix0, pq, pj);
            }
            proof {
                assert forall|t: int| 0 <= t < i + 1 implies !has_key(index.entries@, (scope.project@, scope.env@, (#[trigger] entries@[t]).key@)) by {
                    if t < i && entries@[t].key@ != key@ {
                        assert(!has_key(before, (scope.project@, scope.env@, entries@[t].key@)));
                    }
                }
                assert forall|k: (Seq<char>, Seq<char>, Seq<char>), src: Seq<char>, n: Option<String>|
                    !(k.0 == scope.project@ && k.1 == scope.env@) && #[trigger] records(ix0, k, src, n) implies records(index.entries@, k, src, n) by {
                    assert(records(before, k, src, n));
                }
                assert forall|k: (Seq<char>, Seq<char>, Seq<char>)| has_key(index.entries@, k) implies has_key(ix0, k) by {
                    if k == (scope.project@, scope.env@, key@) {
                    } else {
                        assert(has_key(before, k));
                    }
                }
            }
            i = i + 1;
        }
        let empty = StrMap::new();
        write_scope_secrets(bundle, scope.env.as_str(), &empty);
        proof {
            let rn = entries@.take(i as int).map_values(keyf);
            let pn = |m: StoredSecretMeta| !(in_scope(m, scope.project@, scope.env@) && rn.contains(m.key@));
            let out = |m: StoredSecretMeta| !in_scope(m, scope.project@, scope.env@);
            assert(entries@.take(i as int) =~= entries@);
            assert forall|w: int| 0 <= w < ix0.len() implies pn(#[trigger] ix0[w]) == out(ix0[w]) by {
                if in_scope(ix0[w], scope.project@, scope.env@) {
                    ix0.lemma_filter_contains(pred, w);
                    let u = choose|u: int| 0 <= u < entries@.len() && entries@[u] == ix0[w];
                    assert(rn[u] == ix0[w].key@);
                }
            }
            crate::index::lemma_filter_agree(ix0, pn, out);
        }
        proof {
            assert(secrets_view(empty@).dom() =~= Set::<Seq<char>>::empty());
            assert(strings_view(keys@) =~= entries@.map_values(|m: StoredSecretMeta| m.key@));
            assert forall|n: Seq<char>| !has_key(index.entries@, (scope.project@, scope.env@, n)) by {
                if has_key(index.entries@, (scope.project@, scope.env@, n)) {
                    assert(has_key(ix0, (scope.project@, scope.env@, n)));
                    let w = choose|w: int| 0 <= w < ix0.len() && key_of(#[trigger] ix0[w]) == (scope.project@, scope.env@, n);
                    assert(pred(ix0[w]));
                    assert(ix0.filter(pred).contains(ix0[w])) by {
                        ix0.lemma_filter_contains_rev(pred, ix0[w]);
                    }
                    let u = choose|u: int| 0 <= u < entries@.len() && entries@[u] == ix0[w];
                    assert(entries@[u].key@ == n);
                }
            }
        }
        Ok(keys)
    }

    /// What `archive export` puts in the archive: the scope's secrets (refused when there
    /// are none), or every environment of the project (refused when there is none).
    /// The project is named as it is shown.
    pub fn archive_payload(&self, bundle: &ProjectSecretBundle, scope: &ResolvedScope, mode: ArchiveExportMode) -> (r: Result<SealedScopePayload, AppError>)
        ensures
            mode == ArchiveExportMode::Scope ==> (if spec_scope(bundle@, scope.env@).dom() == Set::<Seq<char>>::empty() {
                r matches Err(AppError::NothingToExportForScope)
            } else {
                r matches Ok(SealedScopePayload::Scope { project, env, secrets })
                    && project@ == display_name(scope.project@) && env@ == scope.env@
                    && secrets_view(secrets@) == spec_scope(bundle@, scope.env@)
            }),
            mode == ArchiveExportMode::Project ==> (if bundle@.dom() == Set::<Seq<char>>::empty() {
                r matches Err(AppError::NothingToExportForProject)
            } else {
                r matches Ok(SealedScopePayload::Project { project, envs })
                    && project@ == display_name(scope.project@)
                    && envs@.dom() == bundle@.dom()
                    && (forall|e: Seq<char>| #[trigger] envs@.contains_key(e) ==> secrets_view(envs@[e]@) == bundle@[e])
            }),
    {
        match mode {
            ArchiveExportMode::Scope => {
                let secrets = self.selected_env(bundle, scope);
                if secrets.is_empty() {
                    assert(secrets_view(secrets@).dom() =~= secrets@.dom());
                    return Err(AppError::NothingToExportForScope);
                }
                assert(secrets_view(secrets@).dom() =~= secrets@.dom());
                let project = copy_str(self.export_project_name(scope));
                Ok(SealedScopePayload::Scope { project, env: scope.env.clone(), secrets })
            },
            ArchiveExportMode::Project => {
                assert(bundle@.dom() =~= bundle.envs@.dom());
                if bundle.envs.is_empty() {
                    return Err(AppError::NothingToExportForProject);
                }
                let envs = bundle.envs.duplicate_nested();
                let project = copy_str(self.export_project_name(scope));
                Ok(SealedScopePayload::Project { project, envs })
            },
        }
    }
}

// ---------------------------------------------------------------------------
// Moving secrets out of older layouts
// ---------------------------------------------------------------------------
/// Whether the index entry `m` of `project` names a secret missing from bundle `b`.
pub open spec fn missing_from_bundle(m: StoredSecretMeta, project: Seq<char>, b: BundleView) -> bool {
    m.project@ == project && spec_read(b, m.profile@, m.key@) is None
}

/// `b` after storing each `(env, key, value)`, in order.
pub open spec fn store_triples(b: BundleView, t: Seq<(Seq<char>, Seq<char>, Seq<char>)>) -> BundleView
    decreases t.len(),
{
    if t.len() == 0 {
        b
    } else {
        spec_store(store_triples(b, t.drop_last()), t.last().0, t.last().1, t.last().2)
    }
}

impl App {
    /// The `(env, key)` of each index entry of `project` that the project's bundle does
    /// not hold, in index order: the secrets that may still sit in one-item-per-secret
    /// Keychain entries.
    pub fn bundle_migration_candidates(&self, index: &IndexFile, bundle: &ProjectSecretBundle, project: &str) -> (r: Vec<(String, String)>)
        ensures
            pairs_view(r@) == index.entries@.filter(|m: StoredSecretMeta| missing_from_bundle(m, project@, bundle@)).map_values(
                |m: StoredSecretMeta| (m.profile@, m.key@),
            ),
    {
        let ghost pred = |m: StoredSecretMeta| missing_from_bundle(m, project@, bundle@);
        let ghost f = |m: StoredSecretMeta| (m.profile@, m.key@);
        let mut out: Vec<(String, String)> = Vec::new();
        let mut i: usize = 0;
        while i < index.entries.len()
            invariant
                pred == (|m: StoredSecretMeta| missing_from_bundle(m, project@, bundle@)),
                f == (|m: StoredSecretMeta| (m.profile@, m.key@)),
                i <= index.entries@.len(),
                pairs_view(out@) == index.entries@.take(i as int).filter(pred).map_values(f),
            decreases index.entries.len() - i,
        {
            reveal_with_fuel(Seq::<_>::filter, 1);
            let ghost before = out@;
            let ghost sub = index.entries@.take(i as int).filter(pred);
            assert(index.entries@.take(i + 1).drop_last() =~= index.entries@.take(i as int));
            let m = &index.entries[i];
            if str_eq(m.project.as_str(), project) {
                if crate::keychain::read_secret(bundle, m.profile.as_str(), m.key.as_str()).is_none() {
                    out.push((m.profile.clone(), m.key.clone()));
                    assert(pairs_view(out@) =~= pairs_view(before).push(f(*m)));
                    assert(sub.push(*m).map_values(f) =~= sub.map_values(f).push(f(*m)));
                }
            }
            i = i + 1;
        }
        assert(index.entries@.take(i as int) =~= index.entries@);
        out
    }

    /// Stores each `(env, key, value)` recovered from the older layout into the bundle,
    /// in order; tells whether anything was stored.
    pub fn absorb_legacy_secrets(&self, bundle: &mut ProjectSecretBundle, found: &Vec<(String, String, String)>) -> (r: bool)
        ensures
            final(bundle)@ == store_triples(old(bundle)@, found@.map_values(|t: (String, String, String)| (t.0@, t.1@, t.2@))),
            r == (found@.len() > 0),
    {
        let ghost g = |t: (String, String, String)| (t.0@, t.1@, t.2@);
        let ghost b0 = bundle@;
        let mut i: usize = 0;
        while i < found.len()
            invariant
                g == (|t: (String, String, String)| (t.0@, t.1@, t.2@)),
                i <= found@.len(),
                bundle@ == store_triples(b0, found@.take(i as int).map_values(g)),
            decreases found.len() - i,
        {
            store_secret(bundle, found[i].0.as_str(), found[i].1.as_str(), found[i].2.as_str());
            assert(found@.take(i + 1).map_values(g).drop_last() =~= found@.take(i as int).map_values(g));
            assert(found@.take(i + 1).map_values(g).last() == g(found@[i as int]));
            i = i + 1;
        }
        assert(found@.take(i as int) =~= found@);
        found.len() > 0
    }

    /// Moves the machine's secrets from the project that older versions called
    /// `default` into the machine's project, for environment `env`. `moved` holds each
    /// index entry of `default`/`env` with its value. A secret is stored under the
    /// machine's project unless the index already records it there (as an import
    /// without replacing would); every one is then deleted from the `default` bundle
    /// and its `default` index entry dropped.
    pub fn migrate_default_scope(
        &self,
        env: &str,
        index: &mut IndexFile,
        machine_bundle: &mut ProjectSecretBundle,
        legacy_bundle: &mut ProjectSecretBundle,
        moved: &Vec<(StoredSecretMeta, String)>,
    )
        ensures
            ({
                let ps = moved@.map_values(|t: (StoredSecretMeta, String)| (t.0.key@, t.1@));
                let flags = import_flags(recorded_names(old(index).entries@, default_project_key_spec(), env@), pair_names(ps), false);
                &&& final(machine_bundle)@ == store_pairs(old(machine_bundle)@, env@, pick(ps, flags, true))
                &&& forall|i: int| 0 <= i < ps.len() ==> has_key(final(index).entries@, (default_project_key_spec(), env@, #[trigger] ps[i].0))
                &&& forall|i: int| 0 <= i < ps.len() ==> !has_key(final(index).entries@, (legacy_default_project(), env@, #[trigger] ps[i].0))
                &&& forall|i: int| 0 <= i < ps.len() ==> spec_read(final(legacy_bundle)@, env@, #[trigger] ps[i].0) is None
                &&& forall|t: int| 0 <= t < ps.len() && #[trigger] flags[t] ==> exists|u: int| t <= u < ps.len() && ps[u].0 == ps[t].0 && flags[u]
                    && #[trigger] records(final(index).entries@, (default_project_key_spec(), env@, ps[t].0), moved@[u].0.source@, moved@[u].0.note)
                &&& final(legacy_bundle)@ == delete_names(old(legacy_bundle)@, env@, pair_names(ps))
                &&& forall|m: StoredSecretMeta| old(index).entries@.contains(m)
                    && !(m.profile@ == env@ && ((m.project@ == default_project_key_spec() && pick(pair_names(ps), flags, true).contains(m.key@))
                        || (m.project@ == legacy_default_project() && pair_names(ps).contains(m.key@))))
                    ==> #[trigger] final(index).entries@.contains(m)
                &&& forall|k: (Seq<char>, Seq<char>, Seq<char>)|
                    !(k.1 == env@ && pair_names(ps).contains(k.2) && (k.0 == default_project_key_spec() || k.0 == legacy_default_project()))
                    ==> #[trigger] has_key(final(index).entries@, k) == has_key(old(index).entries@, k)
                &&& forall|k: (Seq<char>, Seq<char>, Seq<char>), src: Seq<char>, n: Option<String>|
                    !(k.1 == env@ && pair_names(ps).contains(k.2) && (k.0 == default_project_key_spec() || k.0 == legacy_default_project()))
                    && #[trigger] records(old(index).entries@, k, src, n) ==> records(final(index).entries@, k, src, n)
            }),
    {
        let ghost g = |t: (StoredSecretMeta, String)| (t.0.key@, t.1@);
        let ghost ps = moved@.map_values(g);
        let mut pairs: Vec<(String, String)> = Vec::new();
        let mut metas: Vec<(String, Option<String>)> = Vec::new();
        let mut i: usize = 0;
        while i < moved.len()
            invariant
                g == (|t: (StoredSecretMeta, String)| (t.0.key@, t.1@)),
                ps == moved@.map_values(g),
                i <= moved@.len(),
                pairs@.len() == i,
                metas@.len() == i,
                pairs_view(pairs@) == ps.take(i as int),
                forall|t: int| 0 <= t < i ==> (#[trigger] metas@[t]).0@ == moved@[t].0.source@ && metas@[t].1 == moved@[t].0.note,
            decreases moved.len() - i,
        {
            let note = match &moved[i].0.note {
                Some(n) => Some(n.clone()),
                None => None,
            };
            pairs.push((moved[i].0.key.clone(), moved[i].1.clone()));
            metas.push((moved[i].0.source.clone(), note));
            assert(pairs_view(pairs@) =~= ps.take(i + 1));
            i = i + 1;
        }
        assert(ps.take(i as int) =~= ps);
        let target = ResolvedScope { project: default_project_key(), env: copy_str(env), config_path: None };
        let ghost ix0 = index.entries@;
        let _ = self.import_with_meta(machine_bundle, index, &target, &pairs, false, &metas);
        assert(pairs_view(pairs@) == ps);
        let legacy = legacy_default_project_name();
        let ghost ix1 = index.entries@;
        let ghost lb0 = legacy_bundle@;
        let ghost names = pair_names(ps);
        assert(names.take(0) =~= Seq::<Seq<char>>::empty());
        assert(default_project_key_spec() != legacy_default_project()) by {
            assert(default_project_key_spec()[0] != legacy_default_project()[0]);
        }
        let mut j: usize = 0;
        while j < pairs.len()
            invariant
                pairs_view(pairs@) == ps,
                legacy@ == legacy_default_project(),
                j <= pairs@.len(),
                forall|t: int| 0 <= t < j ==> spec_read(legacy_bundle@, env@, #[trigger] ps[t].0) is None,
                forall|t: int| 0 <= t < j ==> !has_key(index.entries@, (legacy_default_project(), env@, #[trigger] ps[t].0)),
                forall|k: (Seq<char>, Seq<char>, Seq<char>)| k.0 != legacy_default_project() ==> has_key(index.entries@, k) == has_key(ix1, k),
                forall|k: (Seq<char>, Seq<char>, Seq<char>)| !(k.1 == env@ && names.take(j as int).contains(k.2)) ==> #[trigger] has_key(index.entries@, k) == has_key(ix1, k),
                forall|t: int| 0 <= t < ps.len() ==> has_key(ix1, (default_project_key_spec(), env@, #[trigger] ps[t].0)),
                default_project_key_spec() != legacy_default_project(),
                names == pair_names(ps),
                legacy_bundle@ == delete_names(lb0, env@, names.take(j as int)),
                forall|m: StoredSecretMeta| ix1.contains(m)
                    && !(m.project@ == legacy_default_project() && m.profile@ == env@ && names.take(j as int).contains(m.key@))
                    ==> #[trigger] index.entries@.contains(m),
                forall|k: (Seq<char>, Seq<char>, Seq<char>), src: Seq<char>, n: Option<String>|
                    !(k.0 == legacy_default_project() && k.1 == env@ && names.take(j as int).contains(k.2)) && #[trigger] records(ix1, k, src, n)
                    ==> records(index.entries@, k, src, n),
            decreases pairs.len() - j,
        {
            let key = pairs[j].0.as_str();
            let ghost lb = legacy_bundle@;
            let ghost ixb = index.entries@;
            assert(ps[j as int].0 == key@);
            delete_secret(legacy_bundle, env, key);
            index.remove(legacy.as_str(), env, key);
            proof {
                assert forall|t: int| 0 <= t < j + 1 implies spec_read(legacy_bundle@, env@, #[trigger] ps[t].0) is None by {
                    if ps[t].0 == key@ {
                        crate::keychain::law_read_after_delete(lb, env@, key@);
                    } else {
                        crate::keychain::law_delete_isolated(lb, env@, key@, env@, ps[t].0);
                    }
                }
                assert forall|t: int| 0 <= t < j + 1 implies !has_key(index.entries@, (legacy_default_project(), env@, #[trigger] ps[t].0)) by {
                    if ps[t].0 != key@ {
                        assert(!has_key(ixb, (legacy_default_project(), env@, ps[t].0)));
                    }
                }
                assert(names[j as int] == key@);
                assert(names.take(j + 1).drop_last() =~= names.take(j as int));
                assert forall|m: StoredSecretMeta| ix1.contains(m)
                    && !(m.project@ == legacy_default_project() && m.profile@ == env@ && names.take(j + 1).contains(m.key@))
                    implies #[trigger] index.entries@.contains(m) by {
                    if names.take(j as int).contains(m.key@) {
                        let w = choose|w: int| 0 <= w < j && names.take(j as int)[w] == m.key@;
                        assert(names.take(j + 1)[w] == m.key@);
                    }
                    assert(ixb.contains(m));
                    if key_of(m) == (legacy@, env@, key@) {
                        assert(names.take(j + 1)[j as int] == key@);
                    }
                }
                assert forall|k: (Seq<char>, Seq<char>, Seq<char>), src: Seq<char>, n: Option<String>|
                    !(k.0 == legacy_default_project() && k.1 == env@ && names.take(j + 1).contains(k.2)) && #[trigger] records(ix1, k, src, n)
                    implies records(index.entries@, k, src, n) by {
                    if k.0 == legacy_default_project() && k.1 == env@ && names.take(j as int).contains(k.2) {
                        let w = choose|w: int| 0 <= w < j && names.take(j as int)[w] == k.2;
                        assert(names.take(j + 1)[w] == k.2);
                    }
                    if k == (legacy@, env@, key@) {
                        assert(names.take(j + 1)[j as int] == key@);
                    }
                    assert(records(ixb, k, src, n));
                }
                assert forall|k: (Seq<char>, Seq<char>, Seq<char>)| !(k.1 == env@ && names.take(j + 1).contains(k.2)) implies #[trigger] has_key(index.entries@, k) == has_key(ix1, k) by {
                    if k.1 == env@ && names.take(j as int).contains(k.2) {
                        let w = choose|w: int| 0 <= w < j && names.take(j as int)[w] == k.2;
                        assert(names.take(j + 1)[w] == k.2);
                    }
                    if k == (legacy@, env@, key@) {
                        assert(names.take(j + 1)[j as int] == key@);
                    }
                }
            }
            j = j + 1;
        }
        proof {
            assert(names.take(j as int) =~= names);
            assert forall|k: (Seq<char>, Seq<char>, Seq<char>)|
                !(k.1 == env@ && names.contains(k.2) && (k.0 == default_project_key_spec() || k.0 == legacy_default_project()))
                implies #[trigger] has_key(index.entries@, k) == has_key(ix0, k) by {
                if k.0 == legacy_default_project() {
                    assert(has_key(index.entries@, k) == has_key(ix1, k));
                }
            }
            assert forall|t: int| 0 <= t < ps.len() implies has_key(index.entries@, (default_project_key_spec(), env@, #[trigger] ps[t].0)) by {
                assert(has_key(ix1, (default_project_key_spec(), env@, ps[t].0)));
            }
            assert forall|k: (Seq<char>, Seq<char>, Seq<char>), src: Seq<char>, n: Option<String>|
                !(k.1 == env@ && names.contains(k.2) && (k.0 == default_project_key_spec() || k.0 == legacy_default_project()))
                && #[trigger] records(ix0, k, src, n) implies records(index.entries@, k, src, n) by {
                assert(records(ix1, k, src, n));
            }
            let flags = import_flags(recorded_names(ix0, default_project_key_spec(), env@), pair_names(ps), false);
            assert forall|m: StoredSecretMeta| ix0.contains(m)
                && !(m.profile@ == env@ && ((m.project@ == default_project_key_spec() && pick(pair_names(ps), flags, true).contains(m.key@))
                    || (m.project@ == legacy_default_project() && pair_names(ps).contains(m.key@))))
                implies #[trigger] index.entries@.contains(m) by {
                assert(ix1.contains(m));
            }
            assert forall|t: int| 0 <= t < ps.len() && #[trigger] flags[t] implies exists|u: int| t <= u < ps.len() && ps[u].0 == ps[t].0 && flags[u]
                && #[trigger] records(index.entries@, (default_project_key_spec(), env@, ps[t].0), moved@[u].0.source@, moved@[u].0.note) by {
                let u = choose|u: int| t <= u < ps.len() && ps[u].0 == ps[t].0 && flags[u]
                    && #[trigger] records(ix1, (default_project_key_spec(), env@, ps[t].0), metas@[u].0@, metas@[u].1);
                assert(records(index.entries@, (default_project_key_spec(), env@, ps[t].0), metas@[u].0@, metas@[u].1));
            }
        }
    }
}

/// The project older versions used for the machine's secrets.
pub open spec fn legacy_default_project() -> Seq<char> {
    seq!['d', 'e', 'f', 'a', 'u', 'l', 't']
}

/// The project older versions used for the machine's secrets: `default`.
pub fn legacy_default_project_name() -> (r: String)
    ensures
        r@ == legacy_default_project(),
{
    let r = copy_str("default");
    proof { reveal_strlit("default"); }
    assert(r@ =~= legacy_default_project());
    r
}

// ---------------------------------------------------------------------------
// Vault ciphertexts for a child
// ---------------------------------------------------------------------------
/// The Vault address and key for `exec --vault-encrypt`: nothing to do without
/// mappings; otherwise both must be given.
pub fn vault_injection_target(vault_encrypt: &[String], vault_addr: Option<String>, vault_key: Option<String>) -> (r: Result<Option<(String, String)>, AppError>)
    ensures
        vault_encrypt@.len() == 0 ==> (r matches Ok(None)),
        vault_encrypt@.len() > 0 && vault_addr is None ==> (r matches Err(AppError::VaultAddrRequired)),
        vault_encrypt@.len() > 0 && vault_addr is Some && vault_key is None ==> (r matches Err(AppError::VaultKeyRequired)),
        vault_encrypt@.len() > 0 && vault_addr is Some && vault_key is Some ==> r == Ok::<Option<(String, String)>, AppError>(Some((vault_addr->Some_0, vault_key->Some_0))),
{
    if vault_encrypt.len() == 0 {
        return Ok(None);
    }
    let addr = match vault_addr {
        Some(a) => a,
        None => return Err(AppError::VaultAddrRequired),
    };
    let key = match vault_key {
        Some(k) => k,
        None => return Err(AppError::VaultKeyRequired),
    };
    Ok(Some((addr, key)))
}

/// Reads every `SRC[=DST]` of `--vault-encrypt`; the first bad one refuses them all.
pub fn parse_mappings(items: &[String]) -> (r: Result<Vec<EnvMapping>, EnvError>)
    ensures
        r matches Ok(ms) ==> ms@.len() == items@.len() && (forall|i: int| 0 <= i < items@.len() ==> parse_env_mapping_spec((#[trigger] items@[i])@) == Ok::<(Seq<char>, Seq<char>), EnvErrorView>(ms@[i].spec_pair())),
        r matches Err(e) ==> exists|i: int| 0 <= i < items@.len() && parse_env_mapping_spec((#[trigger] items@[i])@) == Err::<(Seq<char>, Seq<char>), EnvErrorView>(e@)
            && (forall|j: int| 0 <= j < i ==> parse_env_mapping_spec((#[trigger] items@[j])@) is Ok),
{
    let mut out: Vec<EnvMapping> = Vec::new();
    let mut i: usize = 0;
    while i < items.len()
        invariant
            i <= items@.len(),
            out@.len() == i,
            forall|t: int| 0 <= t < i ==> parse_env_mapping_spec((#[trigger] items@[t])@) == Ok::<(Seq<char>, Seq<char>), EnvErrorView>(out@[t].spec_pair()),
        decreases items.len() - i,
    {
        match parse_env_mapping(items[i].as_str()) {
            Ok(m) => out.push(m),
            Err(e) => return Err(e),
        }
        i = i + 1;
    }
    Ok(out)
}

/// Puts a Vault ciphertext in a child's environment in place of the plaintext: the
/// source name leaves, the target name holds the ciphertext.
pub fn apply_ciphertext(env_map: &mut ScopeSecrets, mapping: &EnvMapping, ciphertext: String)
    ensures
        final(env_map)@ == old(env_map)@.remove(mapping.source@).insert(mapping.target@, ciphertext),
{
    env_map.remove(mapping.source.as_str());
    env_map.insert(mapping.target.clone(), ciphertext);
}

/// A child's environment after each mapping, in order, puts its ciphertext in place of
/// its plaintext.
pub open spec fn with_ciphertexts(m: Map<Seq<char>, String>, mappings: Seq<EnvMapping>, ciphertexts: Seq<String>) -> Map<Seq<char>, String>
    decreases mappings.len(),
{
    if mappings.len() == 0 {
        m
    } else {
        with_ciphertexts(m, mappings.drop_last(), ciphertexts.drop_last()).remove(mappings.last().source@).insert(
            mappings.last().target@,
            ciphertexts[mappings.len() - 1],
        )
    }
}

/// Puts the Vault ciphertext of each mapping, in order, in a child's environment in
/// place of the plaintext: `ciphertexts[i]` is the encryption of mapping `i`'s source.
/// Gives the number of secrets encrypted.
pub fn apply_ciphertexts(env_map: &mut ScopeSecrets, mappings: &Vec<EnvMapping>, ciphertexts: Vec<String>) -> (r: usize)
    requires
        ciphertexts@.len() == mappings@.len(),
    ensures
        final(env_map)@ == with_ciphertexts(old(env_map)@, mappings@, ciphertexts@),
        r == mappings@.len(),
{
    let ghost m0 = env_map@;
    let mut i: usize = 0;
    while i < mappings.len()
        invariant
            ciphertexts@.len() == mappings@.len(),
            i <= mappings@.len(),
            env_map@ == with_ciphertexts(m0, mappings@.take(i as int), ciphertexts@.take(i as int)),
        decreases mappings.len() - i,
    {
        apply_ciphertext(env_map, &mappings[i], ciphertexts[i].clone());
        proof {
            assert(mappings@.take(i + 1).drop_last() =~= mappings@.take(i as int));
            assert(ciphertexts@.take(i + 1).drop_last() =~= ciphertexts@.take(i as int));
            assert(mappings@.take(i + 1).last() == mappings@[i as int]);
            assert(ciphertexts@.take(i + 1)[i as int] == ciphertexts@[i as int]);
        }
        i = i + 1;
    }
    assert(mappings@.take(i as int) =~= mappings@);
    assert(ciphertexts@.take(i as int) =~= ciphertexts@);
    mappings.len()
}

// ---------------------------------------------------------------------------
// Lines of output and checks of input
// ---------------------------------------------------------------------------
/// The characters of `export `.
pub open spec fn export_word() -> Seq<char> {
    seq!['e', 'x', 'p', 'o', 'r', 't', ' ']
}

/// The line `env --format shell` prints for one secret: `export KEY='value'`.
pub fn export_line(key: &str, value: &str) -> (r: String)
    ensures
        r@ == export_word() + key@ + seq!['='] + seq!['\''] + escape_single_quotes(value@) + seq!['\''],
{
    let mut v: Vec<char> = Vec::new();
    push_str_chars(&mut v, "export ");
    proof { reveal_strlit("export "); }
    push_str_chars(&mut v, key);
    v.push('=');
    let q = shell_quote(value);
    push_str_chars(&mut v, q.as_str());
    assert(v@ =~= export_word() + key@ + seq!['='] + seq!['\''] + escape_single_quotes(value@) + seq!['\'']);
    string_from_chars(&v)
}

/// The characters of `source=`, `updated_at=` and `note=` after a tab.
pub open spec fn tab_field(name: Seq<char>, value: Seq<char>) -> Seq<char> {
    seq!['\t'] + name + seq!['='] + value
}

/// The characters `source`.
pub open spec fn source_word() -> Seq<char> {
    seq!['s', 'o', 'u', 'r', 'c', 'e']
}

/// The characters `updated_at`.
pub open spec fn updated_at_word() -> Seq<char> {
    seq!['u', 'p', 'd', 'a', 't', 'e', 'd', '_', 'a', 't']
}

/// The characters `note`.
pub open spec fn note_word() -> Seq<char> {
    seq!['n', 'o', 't', 'e']
}

/// The line `list --show-metadata` prints for one entry: the key, then tab-separated
/// `source=`, `updated_at=` and, when there is a note, `note=`.
pub fn metadata_line(entry: &StoredSecretMeta) -> (r: String)
    ensures
        r@ == entry.key@ + tab_field(source_word(), entry.source@) + tab_field(updated_at_word(), entry.updated_at@)
            + match entry.note {
                Some(n) => tab_field(note_word(), n@),
                None => Seq::<char>::empty(),
            },
{
    let mut v: Vec<char> = Vec::new();
    push_str_chars(&mut v, entry.key.as_str());
    push_str_chars(&mut v, "\tsource=");
    push_str_chars(&mut v, entry.source.as_str());
    push_str_chars(&mut v, "\tupdated_at=");
    push_str_chars(&mut v, entry.updated_at.as_str());
    proof {
        reveal_strlit("\tsource=");
        reveal_strlit("\tupdated_at=");
        reveal_strlit("\tnote=");
    }
    let ghost head = v@;
    match &entry.note {
        Some(n) => {
            push_str_chars(&mut v, "\tnote=");
            push_str_chars(&mut v, n.as_str());
        },
        None => {},
    }
    assert(v@ =~= entry.key@ + tab_field(source_word(), entry.source@) + tab_field(updated_at_word(), entry.updated_at@)
            + match entry.note {
                Some(n) => tab_field(note_word(), n@),
                None => Seq::<char>::empty(),
            });
    string_from_chars(&v)
}

/// The project that `init` binds: it must be given and may not be the reserved key.
pub fn check_init_project(project: Option<String>) -> (r: Result<String, AppError>)
    ensures
        project is None ==> (r matches Err(AppError::InitNeedsProject)),
        project is Some && project->Some_0@ == default_project_key_spec() ==> (r matches Err(AppError::InitReservedProject)),
        project is Some && project->Some_0@ != default_project_key_spec() ==> r == Ok::<String, AppError>(project->Some_0),
{
    let p = match project {
        Some(p) => p,
        None => return Err(AppError::InitNeedsProject),
    };
    let key = default_project_key();
    if str_eq(p.as_str(), key.as_str()) {
        return Err(AppError::InitReservedProject);
    }
    Ok(p)
}

/// `s` without its trailing `\n` and `\r` characters.
pub open spec fn trim_line_end(s: Seq<char>) -> Seq<char>
    decreases s.len(),
{
    if s.len() > 0 && (s.last() == '\n' || s.last() == '\r') {
        trim_line_end(s.drop_last())
    } else {
        s
    }
}

/// Only trailing line endings are taken off: the result is a prefix of the input, what
/// follows it in the input is made of `\n` and `\r` alone, and the result does not
/// itself end in `\n` or `\r`. A value of several lines keeps all of them.
pub proof fn law_trim_line_end(s: Seq<char>)
    ensures
        trim_line_end(s).is_prefix_of(s),
        forall|i: int| trim_line_end(s).len() <= i < s.len() ==> #[trigger] s[i] == '\n' || s[i] == '\r',
        trim_line_end(s).len() > 0 ==> trim_line_end(s).last() != '\n' && trim_line_end(s).last() != '\r',
    decreases s.len(),
{
    if s.len() > 0 && (s.last() == '\n' || s.last() == '\r') {
        let d = s.drop_last();
        law_trim_line_end(d);
        let r = trim_line_end(d);
        assert forall|i: int| 0 <= i < r.len() implies r[i] == s[i] by {
            assert(r[i] == d[i]);
        }
        assert forall|i: int| r.len() <= i < s.len() implies #[trigger] s[i] == '\n' || s[i] == '\r' by {
            if i < d.len() {
                assert(s[i] == d[i]);
            }
        }
    }
}

/// Input read from standard input without its trailing line endings.
pub fn trim_line_endings(s: &str) -> (r: String)
    ensures
        r@ == trim_line_end(s@),
{
    let v = chars_of(s);
    let mut e = v.len();
    assert(v@.subrange(0, v@.len() as int) =~= s@);
    while e > 0 && (v[e - 1] == '\n' || v[e - 1] == '\r')
        invariant
            e <= v.len(),
            v@ == s@,
            trim_line_end(s@) == trim_line_end(v@.subrange(0, e as int)),
        decreases e,
    {
        assert(v@.subrange(0, e as int).drop_last() =~= v@.subrange(0, e - 1));
        e = e - 1;
    }
    crate::text::string_of(&v, 0, e)
}

/// A secret's value, which may not be empty.
pub fn check_secret_value(value: String) -> (r: Result<String, AppError>)
    ensures
        value@.len() == 0 ==> (r matches Err(AppError::EmptySecretValue)),
        value@.len() != 0 ==> r == Ok::<String, AppError>(value),
{
    if value.as_str().is_empty() {
        return Err(AppError::EmptySecretValue);
    }
    Ok(value)
}

/// The master secret from a prompt and its confirmation (none when read from standard
/// input): they must agree, and it may not be empty.
pub fn check_master_secret(first: String, confirmation: Option<String>) -> (r: Result<String, AppError>)
    ensures
        confirmation is Some && confirmation->Some_0@ != first@ ==> (r matches Err(AppError::MasterSecretMismatch)),
        !(confirmation is Some && confirmation->Some_0@ != first@) && first@.len() == 0 ==> (r matches Err(AppError::EmptyMasterSecret)),
        !(confirmation is Some && confirmation->Some_0@ != first@) && first@.len() != 0 ==> r == Ok::<String, AppError>(first),
{
    if let Some(c) = &confirmation {
        if !str_eq(first.as_str(), c.as_str()) {
            return Err(AppError::MasterSecretMismatch);
        }
    }
    if first.as_str().is_empty() {
        return Err(AppError::EmptyMasterSecret);
    }
    Ok(first)
}

} // verus!
