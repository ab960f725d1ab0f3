//! Secrets as they are kept in the Keychain: one bundle per project, holding every
//! environment's secrets.
use vstd::prelude::*;

use crate::strmap::StrMap;
use crate::text::{chars_lt, copy_str, push_str_chars, string_from_chars};

verus! {

broadcast use vstd::string::group_string_axioms;

/// The secrets of one scope, by name.
pub type ScopeSecrets = StrMap<String>;

/// All secrets of a project, by environment and then by name.
pub struct ProjectSecretBundle {
    pub envs: StrMap<ScopeSecrets>,
}

/// A bundle's contents: environment, then name, then value.
pub type BundleView = Map<Seq<char>, Map<Seq<char>, Seq<char>>>;

impl View for ProjectSecretBundle {
    type V = BundleView;

    open spec fn view(&self) -> BundleView {
        Map::new(|e: Seq<char>| self.envs@.contains_key(e), |e: Seq<char>| secrets_view(self.envs@[e]@))
    }
}

/// The values of a secrets map as character sequences.
pub open spec fn secrets_view(m: Map<Seq<char>, String>) -> Map<Seq<char>, Seq<char>> {
    m.map_values(|s: String| s@)
}

/// The secrets of environment `env` (none when it has no entry).
pub open spec fn spec_scope(b: BundleView, env: Seq<char>) -> Map<Seq<char>, Seq<char>> {
    if b.contains_key(env) {
        b[env]
    } else {
        Map::empty()
    }
}

/// `b` with the secrets of `env` set to `s`; an empty `s` drops the environment.
pub open spec fn spec_write_scope(b: BundleView, env: Seq<char>, s: Map<Seq<char>, Seq<char>>) -> BundleView {
    if s.dom() == Set::<Seq<char>>::empty() {
        b.remove(env)
    } else {
        b.insert(env, s)
    }
}

/// `b` with `env` written back as it is: dropped when it holds no secret.
pub open spec fn settle(b: BundleView, env: Seq<char>) -> BundleView {
    spec_write_scope(b, env, spec_scope(b, env))
}

/// `b` after storing `value` under `key` in `env`.
pub open spec fn spec_store(b: BundleView, env: Seq<char>, key: Seq<char>, value: Seq<char>) -> BundleView {
    spec_write_scope(b, env, spec_scope(b, env).insert(key, value))
}

/// `b` after deleting `key` from `env`.
pub open spec fn spec_delete(b: BundleView, env: Seq<char>, key: Seq<char>) -> BundleView {
    spec_write_scope(b, env, spec_scope(b, env).remove(key))
}

/// The value stored under `key` in `env`, if any.
pub open spec fn spec_read(b: BundleView, env: Seq<char>, key: Seq<char>) -> Option<Seq<char>> {
    if spec_scope(b, env).contains_key(key) {
        Some(spec_scope(b, env)[key])
    } else {
        None
    }
}

impl ProjectSecretBundle {
    /// A bundle with no environment.
    pub fn new() -> (r: Self)
        ensures
            r@ == Map::<Seq<char>, Map<Seq<char>, Seq<char>>>::empty(),
    {
        let r = ProjectSecretBundle { envs: StrMap::new() };
        assert(r@ =~= Map::<Seq<char>, Map<Seq<char>, Seq<char>>>::empty());
        r
    }

    /// Whether the bundle has no environment.
    pub fn is_empty(&self) -> (r: bool)
        ensures
            r == (self@.dom() == Set::<Seq<char>>::empty()),
    {
        let r = self.envs.is_empty();
        assert(self@.dom() =~= self.envs@.dom());
        r
    }
}

/// The secrets of environment `env` of a project's bundle.
pub fn read_scope_secrets(bundle: &ProjectSecretBundle, env: &str) -> (r: ScopeSecrets)
    ensures
        secrets_view(r@) == spec_scope(bundle@, env@),
{
    match bundle.envs.get(env) {
        Some(s) => s.duplicate(),
        None => {
            let r = StrMap::new();
            assert(secrets_view(r@) =~= Map::<Seq<char>, Seq<char>>::empty());
            r
        },
    }
}

/// Sets the secrets of environment `env` to `secrets`; empty `secrets` drop `env`.
pub fn write_scope_secrets(bundle: &mut ProjectSecretBundle, env: &str, secrets: &ScopeSecrets)
    ensures
        final(bundle)@ == spec_write_scope(old(bundle)@, env@, secrets_view(secrets@)),
{
    if secrets.is_empty() {
        bundle.envs.remove(env);
        assert(secrets_view(secrets@).dom() =~= Set::<Seq<char>>::empty());
        assert(bundle@ =~= old(bundle)@.remove(env@));
    } else {
        bundle.envs.insert(copy_str(env), secrets.duplicate());
        assert(secrets_view(secrets@).dom() != Set::<Seq<char>>::empty()) by {
            assert(secrets_view(secrets@).dom() =~= secrets@.dom());
        }
        assert(bundle@ =~= old(bundle)@.insert(env@, secrets_view(secrets@)));
    }
}

/// Stores `value` under `key` in environment `env`, replacing what was there.
pub fn store_secret(bundle: &mut ProjectSecretBundle, env: &str, key: &str, value: &str)
    ensures
        final(bundle)@ == spec_store(old(bundle)@, env@, key@, value@),
{
    let mut secrets = read_scope_secrets(bundle, env);
    let ghost before = secrets@;
    let v = copy_str(value);
    secrets.insert(copy_str(key), v);
    assert(secrets_view(secrets@) =~= secrets_view(before).insert(key@, value@));
    write_scope_secrets(bundle, env, &secrets);
}

/// The value of `key` in environment `env` of the bundle; `None` when the bundle does
/// not hold it, and then the project's older one-item-per-secret Keychain entry is the
/// place left to look.
pub fn read_secret(bundle: &ProjectSecretBundle, env: &str, key: &str) -> (r: Option<String>)
    ensures
        match r {
            Some(v) => spec_read(bundle@, env@, key@) == Some(v@),
            None => spec_read(bundle@, env@, key@) is None,
        },
{
    let secrets = read_scope_secrets(bundle, env);
    match secrets.get(key) {
        Some(v) => Some(v.clone()),
        None => None,
    }
}

/// Deletes `key` from environment `env`; an environment left empty is dropped.
pub fn delete_secret(bundle: &mut ProjectSecretBundle, env: &str, key: &str)
    ensures
        final(bundle)@ == spec_delete(old(bundle)@, env@, key@),
{
    let mut secrets = read_scope_secrets(bundle, env);
    let ghost before = secrets@;
    secrets.remove(key);
    assert(secrets_view(secrets@) =~= secrets_view(before).remove(key@));
    write_scope_secrets(bundle, env, &secrets);
}

/// The names stored in environment `env`, in ascending order.
pub fn list_names(bundle: &ProjectSecretBundle, env: &str) -> (r: Vec<String>)
    ensures
        forall|i: int, j: int| 0 <= i < j < r@.len() ==> chars_lt((#[trigger] r@[i])@, (#[trigger] r@[j])@),
        forall|x: Seq<char>| spec_scope(bundle@, env@).contains_key(x) <==> exists|i: int| 0 <= i < r@.len() && (#[trigger] r@[i])@ == x,
{
    let secrets = read_scope_secrets(bundle, env);
    let r = secrets.keys();
    assert(secrets_view(secrets@).dom() =~= secrets@.dom());
    r
}

// ---------------------------------------------------------------------------
// Keychain item names
// ---------------------------------------------------------------------------
/// The Keychain service of the global master secret.
pub open spec fn global_service_spec() -> Seq<char> {
    seq!['m', 'a', 'c', 'r', 'u', 'n', '/', 'g', 'l', 'o', 'b', 'a', 'l']
}

/// The prefix `macrun/` of every Keychain service of the tool.
pub open spec fn service_prefix() -> Seq<char> {
    seq!['m', 'a', 'c', 'r', 'u', 'n', '/']
}

/// The account of the master secret.
pub open spec fn master_secret_account_spec() -> Seq<char> {
    seq!['_', '_', 'm', 'a', 's', 't', 'e', 'r', '_', 's', 'e', 'c', 'r', 'e', 't', '_', '_']
}

/// The account of a project's bundle.
pub open spec fn project_bundle_account_spec() -> Seq<char> {
    seq!['_', '_', 'p', 'r', 'o', 'j', 'e', 'c', 't', '_', 'b', 'u', 'n', 'd', 'l', 'e', '_', '_']
}

/// The Keychain service of the global master secret: `macrun/global`.
pub fn global_service() -> (r: String)
    ensures
        r@ == global_service_spec(),
{
    let r = copy_str("macrun/global");
    proof { reveal_strlit("macrun/global"); }
    assert(r@ =~= global_service_spec());
    r
}

/// The Keychain account of the global master secret: `__master_secret__`.
pub fn master_secret_account() -> (r: String)
    ensures
        r@ == master_secret_account_spec(),
{
    let r = copy_str("__master_secret__");
    proof { reveal_strlit("__master_secret__"); }
    assert(r@ =~= master_secret_account_spec());
    r
}

/// The Keychain account of a project's bundle: `__project_bundle__`.
pub fn project_bundle_account() -> (r: String)
    ensures
        r@ == project_bundle_account_spec(),
{
    let r = copy_str("__project_bundle__");
    proof { reveal_strlit("__project_bundle__"); }
    assert(r@ =~= project_bundle_account_spec());
    r
}

/// The Keychain service of a project's bundle: `macrun/<project>`.
pub fn project_bundle_service(project: &str) -> (r: String)
    ensures
        r@ == service_prefix() + project@,
{
    let mut v: Vec<char> = Vec::new();
    push_str_chars(&mut v, "macrun/");
    proof { reveal_strlit("macrun/"); }
    push_str_chars(&mut v, project);
    assert(v@ =~= service_prefix() + project@);
    string_from_chars(&v)
}

/// The Keychain service of a secret stored alone, as older versions kept them:
/// `macrun/<project>/<env>`.
pub fn legacy_service(project: &str, env: &str) -> (r: String)
    ensures
        r@ == service_prefix() + project@ + seq!['/'] + env@,
{
    let mut v: Vec<char> = Vec::new();
    push_str_chars(&mut v, "macrun/");
    proof { reveal_strlit("macrun/"); }
    push_str_chars(&mut v, project);
    v.push('/');
    push_str_chars(&mut v, env);
    assert(v@ =~= service_prefix() + project@ + seq!['/'] + env@);
    string_from_chars(&v)
}

/// `b` after storing each pair, in order, in `env`.
pub open spec fn store_pairs(b: BundleView, env: Seq<char>, pairs: Seq<(Seq<char>, Seq<char>)>) -> BundleView
    decreases pairs.len(),
{
    if pairs.len() == 0 {
        b
    } else {
        spec_store(store_pairs(b, env, pairs.drop_last()), env, pairs.last().0, pairs.last().1)
    }
}

/// `b` after deleting each name of `names`, in order, from `env`.
pub open spec fn delete_names(b: BundleView, env: Seq<char>, names: Seq<Seq<char>>) -> BundleView
    decreases names.len(),
{
    if names.len() == 0 {
        b
    } else {
        spec_delete(delete_names(b, env, names.drop_last()), env, names.last())
    }
}

/// Storing in `env` keeps `env` in the bundle.
pub proof fn lemma_store_pairs_keeps_env(b: BundleView, env: Seq<char>, ps: Seq<(Seq<char>, Seq<char>)>)
    ensures
        b.contains_key(env) ==> store_pairs(b, env, ps).contains_key(env),
    decreases ps.len(),
{
    if ps.len() > 0 {
        lemma_store_pairs_keeps_env(b, env, ps.drop_last());
        let prev = store_pairs(b, env, ps.drop_last());
        let s = spec_scope(prev, env).insert(ps.last().0, ps.last().1);
        assert(s.contains_key(ps.last().0));
        assert(s.dom() != Set::<Seq<char>>::empty());
    }
}

/// Storing in `env` leaves every other environment as it was.
pub proof fn lemma_store_pairs_other_env(b: BundleView, env: Seq<char>, ps: Seq<(Seq<char>, Seq<char>)>)
    ensures
        forall|e: Seq<char>| e != env ==> #[trigger] spec_scope(store_pairs(b, env, ps), e) == spec_scope(b, e),
        forall|e: Seq<char>| e != env ==> #[trigger] store_pairs(b, env, ps).contains_key(e) == b.contains_key(e),
    decreases ps.len(),
{
    if ps.len() > 0 {
        lemma_store_pairs_other_env(b, env, ps.drop_last());
        let prev = store_pairs(b, env, ps.drop_last());
        assert forall|e: Seq<char>| e != env implies #[trigger] spec_scope(store_pairs(b, env, ps), e) == spec_scope(prev, e) && store_pairs(b, env, ps).contains_key(e) == prev.contains_key(e) by {
            let s = spec_scope(prev, env).insert(ps.last().0, ps.last().1);
            assert(store_pairs(b, env, ps) == spec_write_scope(prev, env, s));
        }
    }
}

// ---------------------------------------------------------------------------
// Laws
// ---------------------------------------------------------------------------
/// Reading a secret right after storing it gives back the stored value.
pub proof fn law_read_after_store(b: BundleView, env: Seq<char>, key: Seq<char>, value: Seq<char>)
    ensures
        spec_read(spec_store(b, env, key, value), env, key) == Some(value),
{
    let s = spec_scope(b, env).insert(key, value);
    assert(s.contains_key(key));
    assert(s.dom() != Set::<Seq<char>>::empty());
}

/// Storing a secret changes no other secret, in any environment.
pub proof fn law_store_isolated(
    b: BundleView,
    env: Seq<char>,
    key: Seq<char>,
    value: Seq<char>,
    env2: Seq<char>,
    key2: Seq<char>,
)
    requires
        env != env2 || key != key2,
    ensures
        spec_read(spec_store(b, env, key, value), env2, key2) == spec_read(b, env2, key2),
{
    let s = spec_scope(b, env).insert(key, value);
    assert(s.contains_key(key));
    assert(s.dom() != Set::<Seq<char>>::empty());
}

/// A secret that was deleted reads as absent.
pub proof fn law_read_after_delete(b: BundleView, env: Seq<char>, key: Seq<char>)
    ensures
        spec_read(spec_delete(b, env, key), env, key) is None,
{
}

/// Deleting a secret changes no other secret, in any environment.
pub proof fn law_delete_isolated(b: BundleView, env: Seq<char>, key: Seq<char>, env2: Seq<char>, key2: Seq<char>)
    requires
        env != env2 || key != key2,
    ensures
        spec_read(spec_delete(b, env, key), env2, key2) == spec_read(b, env2, key2),
{
    let s = spec_scope(b, env).remove(key);
    if s.dom() == Set::<Seq<char>>::empty() && env == env2 {
        assert(!s.contains_key(key2));
    }
}

/// Deleting a secret that is absent changes no secret at all.
pub proof fn law_delete_absent_is_harmless(b: BundleView, env: Seq<char>, key: Seq<char>, env2: Seq<char>, key2: Seq<char>)
    requires
        spec_read(b, env, key) is None,
    ensures
        spec_read(spec_delete(b, env, key), env2, key2) == spec_read(b, env2, key2),
{
    if env != env2 || key != key2 {
        law_delete_isolated(b, env, key, env2, key2);
    }
}

/// Storing twice under one name is storing once, with the later value: a later `set`
/// replaces the value, and repeating a `set` changes nothing.
pub proof fn law_store_overwrites(b: BundleView, env: Seq<char>, key: Seq<char>, v1: Seq<char>, v2: Seq<char>)
    ensures
        spec_store(spec_store(b, env, key, v1), env, key, v2) == spec_store(b, env, key, v2),
        spec_read(spec_store(spec_store(b, env, key, v1), env, key, v2), env, key) == Some(v2),
{
    let s1 = spec_scope(b, env).insert(key, v1);
    let s2 = spec_scope(b, env).insert(key, v2);
    assert(s1.contains_key(key) && s2.contains_key(key));
    assert(s1.dom() != Set::<Seq<char>>::empty());
    assert(s2.dom() != Set::<Seq<char>>::empty());
    let b1 = spec_store(b, env, key, v1);
    assert(spec_scope(b1, env) == s1);
    assert(s1.insert(key, v2) =~= s2);
    assert(spec_store(b1, env, key, v2) =~= spec_store(b, env, key, v2));
    law_read_after_store(b1, env, key, v2);
}

} // verus!
