//! The metadata index of stored secrets: one entry per (project, profile, key).
use vstd::prelude::*;

use crate::text::{
    chars_lt, compare_str, decimal, str_starts_with, lemma_chars_lt_asymmetric,
    lemma_chars_lt_irreflexive, lemma_chars_lt_total, lemma_chars_lt_transitive, str_eq, Order,
};
use crate::util::iso_timestamp_now;

verus! {

broadcast use {
    vstd::string::group_string_axioms,
    vstd::seq_lib::group_to_multiset_ensures,
    vstd::multiset::group_multiset_axioms,
};

/// What is known of one stored secret, without its value.
#[derive(Clone, Debug)]
pub struct StoredSecretMeta {
    pub project: String,
    pub profile: String,
    pub key: String,
    pub source: String,
    pub updated_at: String,
    pub note: Option<String>,
}

/// The index of stored secrets.
#[derive(Clone, Debug)]
pub struct IndexFile {
    pub entries: Vec<StoredSecretMeta>,
}

/// The (project, profile, key) that identifies an entry.
pub type EntryKey = (Seq<char>, Seq<char>, Seq<char>);

/// The identifying key of an entry.
pub open spec fn key_of(m: StoredSecretMeta) -> EntryKey {
    (m.project@, m.profile@, m.key@)
}

/// The order of entry keys: by project, then profile, then key.
pub open spec fn key_lt(a: EntryKey, b: EntryKey) -> bool {
    chars_lt(a.0, b.0) || (a.0 == b.0 && (chars_lt(a.1, b.1) || (a.1 == b.1 && chars_lt(a.2, b.2))))
}

/// The order on entry keys is a strict total order.
pub proof fn lemma_key_lt_order(a: EntryKey, b: EntryKey, c: EntryKey)
    ensures
        !key_lt(a, a),
        key_lt(a, b) ==> !key_lt(b, a),
        key_lt(a, b) && key_lt(b, c) ==> key_lt(a, c),
        a != b ==> key_lt(a, b) || key_lt(b, a),
{
    lemma_chars_lt_irreflexive(a.0);
    lemma_chars_lt_irreflexive(a.1);
    lemma_chars_lt_irreflexive(a.2);
    lemma_chars_lt_asymmetric(a.0, b.0);
    lemma_chars_lt_asymmetric(a.1, b.1);
    lemma_chars_lt_asymmetric(a.2, b.2);
    lemma_chars_lt_transitive(a.0, b.0, c.0);
    lemma_chars_lt_transitive(a.1, b.1, c.1);
    lemma_chars_lt_transitive(a.2, b.2, c.2);
    lemma_chars_lt_total(a.0, b.0);
    lemma_chars_lt_total(a.1, b.1);
    lemma_chars_lt_total(a.2, b.2);
}

/// Entries in order of their keys.
pub open spec fn sorted_by_key(s: Seq<StoredSecretMeta>) -> bool {
    forall|i: int, j: int| 0 <= i < j < s.len() ==> !key_lt(key_of(#[trigger] s[j]), key_of(#[trigger] s[i]))
}

/// No two entries share a key.
pub open spec fn unique_keys(s: Seq<StoredSecretMeta>) -> bool {
    forall|i: int, j: int| 0 <= i < j < s.len() ==> key_of(#[trigger] s[i]) != key_of(#[trigger] s[j])
}

/// Whether some entry of `s` has key `k`.
pub open spec fn has_key(s: Seq<StoredSecretMeta>, k: EntryKey) -> bool {
    exists|i: int| 0 <= i < s.len() && key_of(#[trigger] s[i]) == k
}

/// Whether some entry of `s` with key `k` has source `source` and note `note`.
pub open spec fn records(s: Seq<StoredSecretMeta>, k: EntryKey, source: Seq<char>, note: Option<String>) -> bool {
    exists|i: int| 0 <= i < s.len() && key_of(#[trigger] s[i]) == k && s[i].source@ == source && s[i].note == note
}

/// Adding an entry with a new key keeps keys unique.
proof fn lemma_unique_keys_push(s: Seq<StoredSecretMeta>, e: StoredSecretMeta)
    requires
        !has_key(s, key_of(e)),
    ensures
        unique_keys(s) ==> unique_keys(s.push(e)),
{
    let p = s.push(e);
    assert forall|a: int, b: int| 0 <= a < b < p.len() && unique_keys(s) implies key_of(#[trigger] p[a]) != key_of(#[trigger] p[b]) by {
        if b < s.len() {
            assert(p[a] == s[a] && p[b] == s[b]);
        } else {
            assert(p[a] == s[a]);
        }
    }
}

/// Two positions of `s` holding `x` make `x` occur twice.
proof fn lemma_two_positions(s: Seq<StoredSecretMeta>, a: int, b: int)
    requires
        0 <= a < b < s.len(),
        s[a] == s[b],
    ensures
        s.to_multiset().count(s[a]) >= 2,
{
    let r = s.remove(a);
    assert(r[b - 1] == s[b]);
    assert(r.contains(s[b]));
    assert(r.to_multiset().count(s[b]) > 0);
    vstd::seq_lib::to_multiset_remove(s, a);
}

/// A value occurring twice sits at two positions.
proof fn lemma_second_position(s: Seq<StoredSecretMeta>, u: int) -> (v: int)
    requires
        0 <= u < s.len(),
        s.to_multiset().count(s[u]) >= 2,
    ensures
        0 <= v < s.len(),
        v != u,
        s[v] == s[u],
{
    let r = s.remove(u);
    vstd::seq_lib::to_multiset_remove(s, u);
    assert(r.to_multiset().count(s[u]) >= 1);
    assert(r.to_multiset().count(s[u]) > 0);
    assert(r.contains(s[u]));
    let w = choose|w: int| 0 <= w < r.len() && r[w] == s[u];
    if w < u {
        w
    } else {
        w + 1
    }
}

/// Reordering entries keeps keys unique.
proof fn lemma_unique_keys_permutation(p: Seq<StoredSecretMeta>, s: Seq<StoredSecretMeta>)
    requires
        unique_keys(p),
        s.to_multiset() == p.to_multiset(),
    ensures
        unique_keys(s),
{
    assert forall|a: int, b: int| 0 <= a < b < s.len() implies key_of(#[trigger] s[a]) != key_of(#[trigger] s[b]) by {
        if key_of(s[a]) == key_of(s[b]) {
            assert(s.contains(s[a]));
            assert(s.to_multiset().count(s[a]) > 0);
            assert(p.to_multiset().count(s[a]) > 0);
            assert(p.contains(s[a]));
            let u = choose|u: int| 0 <= u < p.len() && p[u] == s[a];
            if s[a] == s[b] {
                lemma_two_positions(s, a, b);
                let v = lemma_second_position(p, u);
                if u < v {
                    assert(key_of(p[u]) != key_of(p[v]));
                } else {
                    assert(key_of(p[v]) != key_of(p[u]));
                }
            } else {
                assert(s.contains(s[b]));
                assert(s.to_multiset().count(s[b]) > 0);
                assert(p.to_multiset().count(s[b]) > 0);
                assert(p.contains(s[b]));
                let v = choose|v: int| 0 <= v < p.len() && p[v] == s[b];
                if u < v {
                    assert(key_of(p[u]) != key_of(p[v]));
                } else {
                    assert(key_of(p[v]) != key_of(p[u]));
                }
            }
        }
    }
}

/// Compares two entries by key.
fn compare_keys(a: &StoredSecretMeta, b: &StoredSecretMeta) -> (r: bool)
    ensures
        r == key_lt(key_of(*a), key_of(*b)),
{
    match compare_str(a.project.as_str(), b.project.as_str()) {
        Order::Less => true,
        Order::Greater => {
            proof { lemma_chars_lt_asymmetric(b.project@, a.project@); }
            false
        },
        Order::Equal => match compare_str(a.profile.as_str(), b.profile.as_str()) {
            Order::Less => true,
            Order::Greater => {
                proof {
                    lemma_chars_lt_asymmetric(b.profile@, a.profile@);
                    lemma_chars_lt_irreflexive(a.project@);
                }
                false
            },
            Order::Equal => {
                proof {
                    lemma_chars_lt_irreflexive(a.project@);
                    lemma_chars_lt_irreflexive(a.profile@);
                }
                match compare_str(a.key.as_str(), b.key.as_str()) {
                    Order::Less => true,
                    _ => false,
                }
            },
        },
    }
}

/// Whether entry `m` has the key `(project, profile, key)`.
fn entry_is(m: &StoredSecretMeta, project: &str, profile: &str, key: &str) -> (r: bool)
    ensures
        r == (key_of(*m) == (project@, profile@, key@)),
{
    str_eq(m.project.as_str(), project) && str_eq(m.profile.as_str(), profile) && str_eq(
        m.key.as_str(),
        key,
    )
}

/// Sorts entries by key, keeping each entry.
fn sort_by_key(input: Vec<StoredSecretMeta>) -> (r: Vec<StoredSecretMeta>)
    ensures
        sorted_by_key(r@),
        r@.to_multiset() == input@.to_multiset(),
{
    let mut input = input;
    let ghost orig = input@;
    let mut out: Vec<StoredSecretMeta> = Vec::new();
    while input.len() > 0
        invariant
            sorted_by_key(out@),
            out@.to_multiset().add(input@.to_multiset()) == orig.to_multiset(),
        decreases input.len(),
    {
        let ghost before_in = input@;
        let x = input.pop().unwrap();
        assert(before_in =~= input@.push(x));
        let mut pos: usize = 0;
        while pos < out.len() && compare_keys(&out[pos], &x)
            invariant
                pos <= out.len(),
                forall|i: int| 0 <= i < pos ==> key_lt(key_of(#[trigger] out@[i]), key_of(x)),
            decreases out.len() - pos,
        {
            pos = pos + 1;
        }
        let ghost before_out = out@;
        out.insert(pos, x);
        proof {
            assert(out@ == before_out.insert(pos as int, x));
            assert forall|i: int, j: int| 0 <= i < j < out@.len() implies !key_lt(
                key_of(#[trigger] out@[j]),
                key_of(#[trigger] out@[i]),
            ) by {
                let ki = key_of(out@[i]);
                let kj = key_of(out@[j]);
                let kx = key_of(x);
                if i < pos && j == pos {
                    lemma_key_lt_order(ki, kx, kx);
                } else if i < pos && j > pos {
                    assert(out@[j] == before_out[j - 1]);
                    assert(out@[i] == before_out[i]);
                    lemma_key_lt_order(kj, ki, kx);
                    lemma_key_lt_order(ki, kx, kj);
                } else if i == pos && j > pos {
                    assert(out@[j] == before_out[j - 1]);
                    let kp = key_of(before_out[pos as int]);
                    assert(!key_lt(kp, kx));
                    if j - 1 > pos {
                        assert(!key_lt(kj, kp));
                    }
                    lemma_key_lt_order(kj, kx, kp);
                    lemma_key_lt_order(kx, kp, kj);
                    lemma_key_lt_order(kj, kp, kx);
                } else if i > pos {
                    assert(out@[j] == before_out[j - 1]);
                    assert(out@[i] == before_out[i - 1]);
                } else {
                    assert(out@[j] == before_out[j]);
                    assert(out@[i] == before_out[i]);
                }
            }
            vstd::seq_lib::to_multiset_insert(before_out, pos as int, x);
            assert(out@.to_multiset().add(input@.to_multiset()) =~= orig.to_multiset());
        }
    }
    out
}

/// Whether `m` belongs to the scope `(project, profile)`.
pub open spec fn in_scope(m: StoredSecretMeta, project: Seq<char>, profile: Seq<char>) -> bool {
    m.project@ == project && m.profile@ == profile
}

/// Whether `m`'s key starts with one of `prefixes`, or no prefix is given.
pub open spec fn matches_prefixes(m: StoredSecretMeta, prefixes: Seq<String>) -> bool {
    prefixes.len() == 0 || exists|i: int| 0 <= i < prefixes.len() && (#[trigger] prefixes[i])@.is_prefix_of(m.key@)
}

impl StoredSecretMeta {
    /// An entry for `(project, profile, key)`, stamped with the current time.
    pub fn new(
        project: String,
        profile: String,
        key: String,
        source: String,
        note: Option<String>,
    ) -> (r: Self)
        ensures
            r.project == project,
            r.profile == profile,
            r.key == key,
            r.source == source,
            r.note == note,
            exists|t: u64| r.updated_at@ == decimal(t as nat),
    {
        Self { project, profile, key, source, updated_at: iso_timestamp_now(), note }
    }

    /// A copy of this entry.
    pub fn copy(&self) -> (r: Self)
        ensures
            r == *self,
    {
        let note = match &self.note {
            Some(n) => Some(n.clone()),
            None => None,
        };
        Self {
            project: self.project.clone(),
            profile: self.profile.clone(),
            key: self.key.clone(),
            source: self.source.clone(),
            updated_at: self.updated_at.clone(),
            note,
        }
    }
}

impl IndexFile {
    /// An empty index.
    pub fn empty() -> (r: Self)
        ensures
            r.entries@ == Seq::<StoredSecretMeta>::empty(),
    {
        IndexFile { entries: Vec::new() }
    }

    /// Records `entry`: it replaces the first entry with the same key, or, when there
    /// is none, joins the index, which is then sorted by key.
    pub fn upsert(&mut self, entry: StoredSecretMeta)
        ensures
            has_key(old(self).entries@, key_of(entry)) ==> exists|i: int|
                0 <= i < old(self).entries@.len() && key_of(#[trigger] old(self).entries@[i]) == key_of(entry)
                    && (forall|j: int| 0 <= j < i ==> key_of(#[trigger] old(self).entries@[j]) != key_of(entry))
                    && final(self).entries@ == old(self).entries@.update(i, entry),
            !has_key(old(self).entries@, key_of(entry)) ==> sorted_by_key(final(self).entries@)
                && final(self).entries@.to_multiset() == old(self).entries@.push(entry).to_multiset(),
            has_key(final(self).entries@, key_of(entry)),
            forall|k: EntryKey| k != key_of(entry) ==> has_key(final(self).entries@, k) == has_key(old(self).entries@, k),
            sorted_by_key(old(self).entries@) ==> sorted_by_key(final(self).entries@),
            unique_keys(old(self).entries@) ==> unique_keys(final(self).entries@),
            final(self).entries@.len() == old(self).entries@.len() + if has_key(old(self).entries@, key_of(entry)) { 0int } else { 1int },
            final(self).entries@.contains(entry),
            forall|m: StoredSecretMeta| old(self).entries@.contains(m) && key_of(m) != key_of(entry) ==> #[trigger] final(self).entries@.contains(m),
    {
        let ghost old_entries = self.entries@;
        let ghost k = key_of(entry);
        let mut i: usize = 0;
        while i < self.entries.len()
            invariant
                self.entries@ == old_entries,
                old_entries == old(self).entries@,
                k == key_of(entry),
                i <= self.entries.len(),
                forall|j: int| 0 <= j < i ==> key_of(#[trigger] old_entries[j]) != k,
            decreases self.entries.len() - i,
        {
            let same = entry_is(&self.entries[i], entry.project.as_str(), entry.profile.as_str(), entry.key.as_str());
            if same {
                self.entries.set(i, entry);
                proof {
                    let s = self.entries@;
                    assert(s =~= old_entries.update(i as int, entry));
                    assert(s[i as int] == entry);
                    assert(key_of(old_entries[i as int]) == k);
                    assert forall|kk: EntryKey| kk != k implies has_key(s, kk) == has_key(old_entries, kk) by {
                        if has_key(s, kk) {
                            let w = choose|w: int| 0 <= w < s.len() && key_of(#[trigger] s[w]) == kk;
                            assert(old_entries[w] == s[w]);
                        }
                        if has_key(old_entries, kk) {
                            let w = choose|w: int| 0 <= w < old_entries.len() && key_of(#[trigger] old_entries[w]) == kk;
                            assert(old_entries[w] == s[w]);
                        }
                    }
                    assert forall|a: int, b: int| 0 <= a < b < s.len() && sorted_by_key(old_entries) implies
                        !key_lt(key_of(#[trigger] s[b]), key_of(#[trigger] s[a])) by {
                        assert(key_of(s[a]) == key_of(old_entries[a]));
                        assert(key_of(s[b]) == key_of(old_entries[b]));
                    }
                    assert forall|a: int, b: int| 0 <= a < b < s.len() && unique_keys(old_entries) implies
                        key_of(#[trigger] s[a]) != key_of(#[trigger] s[b]) by {
                        assert(key_of(s[a]) == key_of(old_entries[a]));
                        assert(key_of(s[b]) == key_of(old_entries[b]));
                    }
                    assert(has_key(old_entries, k));
                    assert forall|m: StoredSecretMeta| old_entries.contains(m) && key_of(m) != k implies #[trigger] s.contains(m) by {
                        let w = choose|w: int| 0 <= w < old_entries.len() && old_entries[w] == m;
                        assert(w != i);
                        assert(s[w] == m);
                    }
                }
                return;
            }
            assert(key_of(old_entries[i as int]) != k);
            i = i + 1;
        }
        assert(!has_key(old_entries, k));
        let mut entries: Vec<StoredSecretMeta> = Vec::new();
        std::mem::swap(&mut entries, &mut self.entries);
        assert(entries@ == old_entries);
        entries.push(entry);
        let sorted = sort_by_key(entries);
        self.entries = sorted;
        proof {
            let s = self.entries@;
            let p = old_entries.push(entry);
            assert(p[p.len() - 1] == entry);
            assert(p.contains(entry));
            assert(p.to_multiset().count(entry) > 0);
            assert(s.to_multiset().count(entry) > 0);
            assert(s.contains(entry));
            let w = choose|w: int| 0 <= w < s.len() && s[w] == entry;
            assert(key_of(s[w]) == k);
            assert forall|kk: EntryKey| kk != k implies has_key(s, kk) == has_key(old_entries, kk) by {
                if has_key(s, kk) {
                    let w = choose|w: int| 0 <= w < s.len() && key_of(#[trigger] s[w]) == kk;
                    assert(s.contains(s[w]));
                    assert(s.to_multiset().count(s[w]) > 0);
                    assert(p.to_multiset().count(s[w]) > 0);
                    assert(p.contains(s[w]));
                    let u = choose|u: int| 0 <= u < p.len() && p[u] == s[w];
                    if u < old_entries.len() {
                        assert(old_entries[u] == p[u]);
                    }
                }
                if has_key(old_entries, kk) {
                    let w = choose|w: int| 0 <= w < old_entries.len() && key_of(#[trigger] old_entries[w]) == kk;
                    assert(p[w] == old_entries[w]);
                    assert(p.contains(p[w]));
                    assert(p.to_multiset().count(p[w]) > 0);
                    assert(s.to_multiset().count(p[w]) > 0);
                    assert(s.contains(p[w]));
                    let u = choose|u: int| 0 <= u < s.len() && s[u] == p[w];
                    assert(key_of(s[u]) == kk);
                }
            }
            lemma_unique_keys_push(old_entries, entry);
            if unique_keys(old_entries) {
                lemma_unique_keys_permutation(p, s);
            }
            assert forall|m: StoredSecretMeta| old_entries.contains(m) && key_of(m) != k implies #[trigger] s.contains(m) by {
                let w = choose|w: int| 0 <= w < old_entries.len() && old_entries[w] == m;
                assert(p[w] == m);
                assert(p.contains(m));
                assert(p.to_multiset().count(m) > 0);
                assert(s.to_multiset().count(m) > 0);
            }
            assert(s.len() == s.to_multiset().len());
            assert(p.len() == p.to_multiset().len());
        }
    }

    /// Whether an entry has the key `(project, profile, key)`.
    pub fn contains(&self, project: &str, profile: &str, key: &str) -> (r: bool)
        ensures
            r == has_key(self.entries@, (project@, profile@, key@)),
    {
        let ghost k = (project@, profile@, key@);
        let mut i: usize = 0;
        while i < self.entries.len()
            invariant
                k == (project@, profile@, key@),
                i <= self.entries.len(),
                forall|j: int| 0 <= j < i ==> key_of(#[trigger] self.entries@[j]) != k,
            decreases self.entries.len() - i,
        {
            if entry_is(&self.entries[i], project, profile, key) {
                return true;
            }
            i = i + 1;
        }
        false
    }

    /// Drops every entry with the key `(project, profile, key)`, keeping the others in
    /// order.
    pub fn remove(&mut self, project: &str, profile: &str, key: &str)
        ensures
            final(self).entries@ == old(self).entries@.filter(
                |m: StoredSecretMeta| key_of(m) != (project@, profile@, key@),
            ),
            !has_key(final(self).entries@, (project@, profile@, key@)),
            forall|k: EntryKey| k != (project@, profile@, key@) ==> has_key(final(self).entries@, k) == has_key(old(self).entries@, k),
            sorted_by_key(old(self).entries@) ==> sorted_by_key(final(self).entries@),
            unique_keys(old(self).entries@) ==> unique_keys(final(self).entries@),
            forall|k: EntryKey, src: Seq<char>, n: Option<String>|
                k != (project@, profile@, key@) && #[trigger] records(old(self).entries@, k, src, n) ==> records(final(self).entries@, k, src, n),
            forall|m: StoredSecretMeta| old(self).entries@.contains(m) && key_of(m) != (project@, profile@, key@) ==> #[trigger] final(self).entries@.contains(m),
    {
        let ghost k = (project@, profile@, key@);
        let ghost pred = |m: StoredSecretMeta| key_of(m) != k;
        let mut old_entries: Vec<StoredSecretMeta> = Vec::new();
        std::mem::swap(&mut old_entries, &mut self.entries);
        let ghost orig = old_entries@;
        assert(orig == old(self).entries@);
        let mut kept: Vec<StoredSecretMeta> = Vec::new();
        let ghost mut idx: Seq<int> = seq![];
        let mut rest = old_entries;
        let mut i: usize = 0;
        // `rest` is consumed from the front by index.
        while i < rest.len()
            invariant
                rest@ == orig,
                k == (project@, profile@, key@),
                pred == (|m: StoredSecretMeta| key_of(m) != k),
                i <= rest.len(),
                kept@ == orig.take(i as int).filter(pred),
                idx.len() == kept@.len(),
                forall|t: int| 0 <= t < idx.len() ==> 0 <= #[trigger] idx[t] < i && kept@[t] == orig[idx[t]],
                forall|t: int, u: int| 0 <= t < u < idx.len() ==> #[trigger] idx[t] < #[trigger] idx[u],
                forall|t: int| 0 <= t < kept@.len() ==> key_of(#[trigger] kept@[t]) != k,
                forall|j: int| 0 <= j < i && key_of(#[trigger] orig[j]) != k ==> kept@.contains(orig[j]),
            decreases rest.len() - i,
        {
            reveal_with_fuel(Seq::<_>::filter, 1);
            assert(orig.take(i + 1).drop_last() =~= orig.take(i as int));
            let ghost before = kept@;
            if !entry_is(&rest[i], project, profile, key) {
                let c = rest[i].copy();
                kept.push(c);
                proof {
                    idx = idx.push(i as int);
                    assert(kept@[kept@.len() - 1] == orig[i as int]);
                }
            }
            proof {
                assert forall|j: int| 0 <= j < i + 1 && key_of(#[trigger] orig[j]) != k implies kept@.contains(orig[j]) by {
                    if j == i {
                        assert(kept@[kept@.len() - 1] == orig[j]);
                    } else {
                        assert(before.contains(orig[j]));
                        let w = choose|w: int| 0 <= w < before.len() && before[w] == orig[j];
                        assert(kept@[w] == before[w]);
                    }
                }
            }
            i = i + 1;
        }
        assert(orig.take(i as int) =~= orig);
        self.entries = kept;
        proof {
            let s = self.entries@;
            assert forall|kk: EntryKey| kk != k implies has_key(s, kk) == has_key(orig, kk) by {
                if has_key(s, kk) {
                    let w = choose|w: int| 0 <= w < s.len() && key_of(#[trigger] s[w]) == kk;
                    assert(s[w] == orig[idx[w]]);
                }
                if has_key(orig, kk) {
                    let w = choose|w: int| 0 <= w < orig.len() && key_of(#[trigger] orig[w]) == kk;
                    assert(s.contains(orig[w]));
                    let u = choose|u: int| 0 <= u < s.len() && s[u] == orig[w];
                    assert(key_of(s[u]) == kk);
                }
            }
            assert forall|a: int, b: int| 0 <= a < b < s.len() && sorted_by_key(orig) implies !key_lt(
                key_of(#[trigger] s[b]),
                key_of(#[trigger] s[a]),
            ) by {
                assert(idx[a] < idx[b]);
                assert(s[a] == orig[idx[a]] && s[b] == orig[idx[b]]);
            }
            assert forall|a: int, b: int| 0 <= a < b < s.len() && unique_keys(orig) implies key_of(#[trigger] s[a]) != key_of(#[trigger] s[b]) by {
                assert(idx[a] < idx[b]);
                assert(s[a] == orig[idx[a]] && s[b] == orig[idx[b]]);
            }
            assert forall|m: StoredSecretMeta| orig.contains(m) && key_of(m) != k implies #[trigger] s.contains(m) by {
                let w = choose|w: int| 0 <= w < orig.len() && orig[w] == m;
                orig.lemma_filter_contains(pred, w);
            }
            assert forall|kk: EntryKey, src: Seq<char>, n: Option<String>|
                kk != k && #[trigger] records(orig, kk, src, n) implies records(s, kk, src, n) by {
                let w = choose|w: int| 0 <= w < orig.len() && key_of(#[trigger] orig[w]) == kk && orig[w].source@ == src && orig[w].note == n;
                orig.lemma_filter_contains(pred, w);
                let u = choose|u: int| 0 <= u < s.len() && s[u] == orig[w];
                assert(key_of(s[u]) == kk);
            }
        }
    }

    /// The entries of the scope `(project, profile)`, in index order.
    pub fn entries_for_scope(&self, project: &str, profile: &str) -> (r: Vec<&StoredSecretMeta>)
        ensures
            r@.map_values(|m: &StoredSecretMeta| *m) == self.entries@.filter(
                |m: StoredSecretMeta| in_scope(m, project@, profile@),
            ),
    {
        let ghost pred = |m: StoredSecretMeta| in_scope(m, project@, profile@);
        let mut out: Vec<&StoredSecretMeta> = Vec::new();
        let mut i: usize = 0;
        while i < self.entries.len()
            invariant
                pred == (|m: StoredSecretMeta| in_scope(m, project@, profile@)),
                i <= self.entries.len(),
                out@.map_values(|m: &StoredSecretMeta| *m) == self.entries@.take(i as int).filter(pred),
            decreases self.entries.len() - i,
        {
            reveal_with_fuel(Seq::<_>::filter, 1);
            assert(self.entries@.take(i + 1).drop_last() =~= self.entries@.take(i as int));
            let m = &self.entries[i];
            let ghost before = out@;
            if str_eq(m.project.as_str(), project) && str_eq(m.profile.as_str(), profile) {
                out.push(m);
                assert(out@.map_values(|m: &StoredSecretMeta| *m) =~= before.map_values(|m: &StoredSecretMeta| *m).push(*m));
            }
            i = i + 1;
        }
        assert(self.entries@.take(i as int) =~= self.entries@);
        out
    }

    /// Copies of the entries of the scope `(project, profile)`, in index order.
    pub fn entries_owned_for_scope(&self, project: &str, profile: &str) -> (r: Vec<StoredSecretMeta>)
        ensures
            r@ == self.entries@.filter(|m: StoredSecretMeta| in_scope(m, project@, profile@)),
    {
        let empty: Vec<String> = Vec::new();
        let r = self.filtered_entries(project, profile, &empty);
        proof {
            assert forall|m: StoredSecretMeta| #[trigger] matches_prefixes(m, empty@) by {}
            assert(self.entries@.filter(|m: StoredSecretMeta| in_scope(m, project@, profile@) && matches_prefixes(m, empty@))
                =~= self.entries@.filter(|m: StoredSecretMeta| in_scope(m, project@, profile@))) by {
                lemma_filter_same(self.entries@, |m: StoredSecretMeta| in_scope(m, project@, profile@) && matches_prefixes(m, empty@), |m: StoredSecretMeta| in_scope(m, project@, profile@));
            }
        }
        r
    }

    /// Copies of the entries of `project`, in every profile, in index order.
    pub fn entries_owned_for_project(&self, project: &str) -> (r: Vec<StoredSecretMeta>)
        ensures
            r@ == self.entries@.filter(|m: StoredSecretMeta| m.project@ == project@),
    {
        let ghost pred = |m: StoredSecretMeta| m.project@ == project@;
        let mut out: Vec<StoredSecretMeta> = Vec::new();
        let mut i: usize = 0;
        while i < self.entries.len()
            invariant
                pred == (|m: StoredSecretMeta| m.project@ == project@),
                i <= self.entries.len(),
                out@ == self.entries@.take(i as int).filter(pred),
            decreases self.entries.len() - i,
        {
            reveal_with_fuel(Seq::<_>::filter, 1);
            assert(self.entries@.take(i + 1).drop_last() =~= self.entries@.take(i as int));
            if str_eq(self.entries[i].project.as_str(), project) {
                out.push(self.entries[i].copy());
            }
            i = i + 1;
        }
        assert(self.entries@.take(i as int) =~= self.entries@);
        out
    }

    /// Copies of the entries of the scope `(project, profile)` whose key starts with one
    /// of `prefixes` (every entry of the scope when `prefixes` is empty), in index order.
    pub fn filtered_entries(&self, project: &str, profile: &str, prefixes: &[String]) -> (r: Vec<StoredSecretMeta>)
        ensures
            r@ == self.entries@.filter(
                |m: StoredSecretMeta| in_scope(m, project@, profile@) && matches_prefixes(m, prefixes@),
            ),
    {
        let ghost pred = |m: StoredSecretMeta| in_scope(m, project@, profile@) && matches_prefixes(m, prefixes@);
        let mut out: Vec<StoredSecretMeta> = Vec::new();
        let mut i: usize = 0;
        while i < self.entries.len()
            invariant
                pred == (|m: StoredSecretMeta| in_scope(m, project@, profile@) && matches_prefixes(m, prefixes@)),
                i <= self.entries.len(),
                out@ == self.entries@.take(i as int).filter(pred),
            decreases self.entries.len() - i,
        {
            reveal_with_fuel(Seq::<_>::filter, 1);
            assert(self.entries@.take(i + 1).drop_last() =~= self.entries@.take(i as int));
            let m = &self.entries[i];
            if str_eq(m.project.as_str(), project) && str_eq(m.profile.as_str(), profile) && key_matches(m.key.as_str(), prefixes) {
                out.push(m.copy());
            }
            i = i + 1;
        }
        assert(self.entries@.take(i as int) =~= self.entries@);
        out
    }
}

/// Dropping a key that the index does not record leaves the index as it was: removing
/// an absent secret is harmless.
pub proof fn law_remove_absent_is_harmless(s: Seq<StoredSecretMeta>, k: EntryKey)
    requires
        !has_key(s, k),
    ensures
        s.filter(|m: StoredSecretMeta| key_of(m) != k) == s,
    decreases s.len(),
{
    reveal_with_fuel(Seq::<_>::filter, 1);
    if s.len() > 0 {
        let p = s.drop_last();
        assert(!has_key(p, k)) by {
            if has_key(p, k) {
                let w = choose|w: int| 0 <= w < p.len() && key_of(#[trigger] p[w]) == k;
                assert(s[w] == p[w]);
            }
        }
        law_remove_absent_is_harmless(p, k);
        assert(key_of(s[s.len() - 1]) != k);
        assert(s =~= p.push(s.last()));
    }
}

/// Keeping some entries of an index keeps it sorted, and keeps its keys unique.
proof fn lemma_filter_keeps_order(t: Seq<StoredSecretMeta>, p: spec_fn(StoredSecretMeta) -> bool)
    ensures
        sorted_by_key(t) ==> sorted_by_key(t.filter(p)),
        unique_keys(t) ==> unique_keys(t.filter(p)),
    decreases t.len(),
{
    reveal_with_fuel(Seq::<_>::filter, 1);
    if t.len() > 0 {
        let d = t.drop_last();
        lemma_filter_keeps_order(d, p);
        let fd = d.filter(p);
        if p(t.last()) {
            let u = fd.push(t.last());
            assert forall|i: int| 0 <= i < fd.len() implies exists|k: int| 0 <= k < d.len() && d[k] == #[trigger] fd[i] by {
                assert(fd.contains(fd[i]));
                d.lemma_filter_contains_rev(p, fd[i]);
            }
            if sorted_by_key(t) {
                assert forall|i: int, j: int| 0 <= i < j < u.len() implies !key_lt(key_of(#[trigger] u[j]), key_of(#[trigger] u[i])) by {
                    if j == u.len() - 1 {
                        let k = choose|k: int| 0 <= k < d.len() && d[k] == fd[i];
                        assert(t[k] == u[i] && t[t.len() - 1] == u[j]);
                    } else {
                        assert(u[i] == fd[i] && u[j] == fd[j]);
                    }
                }
            }
            if unique_keys(t) {
                assert forall|i: int, j: int| 0 <= i < j < u.len() implies key_of(#[trigger] u[i]) != key_of(#[trigger] u[j]) by {
                    if j == u.len() - 1 {
                        let k = choose|k: int| 0 <= k < d.len() && d[k] == fd[i];
                        assert(t[k] == u[i] && t[t.len() - 1] == u[j]);
                    } else {
                        assert(u[i] == fd[i] && u[j] == fd[j]);
                    }
                }
            }
        }
    }
}

/// Two indexes, each sorted with unique keys, that hold the same entries are equal.
proof fn lemma_same_entries_sorted(a: Seq<StoredSecretMeta>, b: Seq<StoredSecretMeta>)
    requires
        sorted_by_key(a),
        unique_keys(a),
        sorted_by_key(b),
        unique_keys(b),
        forall|x: StoredSecretMeta| #![trigger a.contains(x)] #![trigger b.contains(x)] a.contains(x) == b.contains(x),
    ensures
        a == b,
    decreases a.len(),
{
    if a.len() == 0 {
        if b.len() > 0 {
            assert(b.contains(b[0]));
            assert(a.contains(b[0]));
        }
        assert(a =~= b);
    } else {
        assert(a.contains(a[0]));
        assert(b.contains(a[0]));
        let j = choose|j: int| 0 <= j < b.len() && b[j] == a[0];
        assert(b.len() > 0);
        assert(b.contains(b[0]));
        assert(a.contains(b[0]));
        let k = choose|k: int| 0 <= k < a.len() && a[k] == b[0];
        if j != 0 {
            assert(!key_lt(key_of(b[j]), key_of(b[0])) && key_of(b[0]) != key_of(b[j]));
            if k != 0 {
                assert(!key_lt(key_of(a[k]), key_of(a[0])) && key_of(a[0]) != key_of(a[k]));
            }
            let ka = key_of(a[0]);
            let kb = key_of(b[0]);
            lemma_key_lt_order(kb, ka, kb);
            lemma_key_lt_order(ka, kb, ka);
            assert(key_lt(kb, ka));
            if k != 0 {
                assert(key_lt(ka, kb));
            }
        }
        assert(a[0] == b[0]);
        let a2 = a.drop_first();
        let b2 = b.drop_first();
        assert forall|x: StoredSecretMeta| #![trigger a2.contains(x)] #![trigger b2.contains(x)] a2.contains(x) == b2.contains(x) by {
            if a2.contains(x) {
                let i = choose|i: int| 0 <= i < a2.len() && a2[i] == x;
                assert(a[i + 1] == x);
                assert(x != a[0]);
                assert(a.contains(x));
                assert(b.contains(x));
                let w = choose|w: int| 0 <= w < b.len() && b[w] == x;
                assert(w != 0);
                assert(b2[w - 1] == x);
            }
            if b2.contains(x) {
                let i = choose|i: int| 0 <= i < b2.len() && b2[i] == x;
                assert(b[i + 1] == x);
                assert(x != b[0]);
                assert(b.contains(x));
                assert(a.contains(x));
                let w = choose|w: int| 0 <= w < a.len() && a[w] == x;
                assert(w != 0);
                assert(a2[w - 1] == x);
            }
        }
        assert forall|i: int, j: int| 0 <= i < j < a2.len() implies !key_lt(key_of(#[trigger] a2[j]), key_of(#[trigger] a2[i])) && key_of(a2[i]) != key_of(a2[j]) by {
            assert(a2[i] == a[i + 1] && a2[j] == a[j + 1]);
        }
        assert forall|i: int, j: int| 0 <= i < j < b2.len() implies !key_lt(key_of(#[trigger] b2[j]), key_of(#[trigger] b2[i])) && key_of(b2[i]) != key_of(b2[j]) by {
            assert(b2[i] == b[i + 1] && b2[j] == b[j + 1]);
        }
        lemma_same_entries_sorted(a2, b2);
        assert(a =~= seq![a[0]] + a2);
        assert(b =~= seq![b[0]] + b2);
    }
}

/// Removing the key of an entry that an upsert has just added to an index sorted with
/// unique keys gives back the index as it was: `remove` undoes an `upsert` of a new
/// key. `t` is what `upsert` gives for a new key; the filter is what `remove` does.
pub proof fn law_remove_undoes_new_upsert(s: Seq<StoredSecretMeta>, e: StoredSecretMeta, t: Seq<StoredSecretMeta>)
    requires
        sorted_by_key(s),
        unique_keys(s),
        !has_key(s, key_of(e)),
        sorted_by_key(t),
        t.to_multiset() == s.push(e).to_multiset(),
    ensures
        t.filter(|m: StoredSecretMeta| key_of(m) != key_of(e)) == s,
{
    let p = |m: StoredSecretMeta| key_of(m) != key_of(e);
    let u = t.filter(p);
    lemma_unique_keys_push(s, e);
    lemma_unique_keys_permutation(s.push(e), t);
    lemma_filter_keeps_order(t, p);
    t.filter_lemma(p);
    assert forall|x: StoredSecretMeta| #![trigger u.contains(x)] #![trigger s.contains(x)] u.contains(x) == s.contains(x) by {
        if u.contains(x) {
            t.lemma_filter_contains_rev(p, x);
            let i = choose|i: int| 0 <= i < u.len() && u[i] == x;
            assert(p(u[i]));
            assert(t.to_multiset().count(x) > 0);
            assert(s.push(e).contains(x));
            let w = choose|w: int| 0 <= w < s.push(e).len() && s.push(e)[w] == x;
            if w == s.len() {
                assert(x == e);
            }
            assert(s[w] == x);
        }
        if s.contains(x) {
            let w = choose|w: int| 0 <= w < s.len() && s[w] == x;
            assert(key_of(x) != key_of(e));
            assert(s.push(e)[w] == x);
            assert(s.push(e).contains(x));
            assert(t.to_multiset().count(x) > 0);
            let i = choose|i: int| 0 <= i < t.len() && t[i] == x;
            assert(u.contains(t[i]));
        }
    }
    lemma_same_entries_sorted(u, s);
}

/// Filters that agree on every element of `s` give the same result on `s`.
pub proof fn lemma_filter_agree(s: Seq<StoredSecretMeta>, p: spec_fn(StoredSecretMeta) -> bool, q: spec_fn(StoredSecretMeta) -> bool)
    requires
        forall|i: int| 0 <= i < s.len() ==> p(#[trigger] s[i]) == q(s[i]),
    ensures
        s.filter(p) == s.filter(q),
    decreases s.len(),
{
    reveal_with_fuel(Seq::<_>::filter, 1);
    if s.len() > 0 {
        let d = s.drop_last();
        assert forall|i: int| 0 <= i < d.len() implies p(#[trigger] d[i]) == q(d[i]) by {
            assert(d[i] == s[i]);
        }
        lemma_filter_agree(d, p, q);
        assert(p(s[s.len() - 1]) == q(s[s.len() - 1]));
    }
}

/// Filtering twice is filtering once by both conditions.
pub proof fn lemma_filter_twice(s: Seq<StoredSecretMeta>, p: spec_fn(StoredSecretMeta) -> bool, q: spec_fn(StoredSecretMeta) -> bool)
    ensures
        s.filter(p).filter(q) == s.filter(|m: StoredSecretMeta| p(m) && q(m)),
    decreases s.len(),
{
    reveal_with_fuel(Seq::<_>::filter, 1);
    if s.len() > 0 {
        let d = s.drop_last();
        lemma_filter_twice(d, p, q);
        let fp = d.filter(p);
        if p(s.last()) {
            assert(fp.push(s.last()).drop_last() =~= fp);
            assert(fp.push(s.last()).last() == s.last());
        }
    }
}

/// Filters that agree on every element give the same result.
pub proof fn lemma_filter_same(s: Seq<StoredSecretMeta>, p: spec_fn(StoredSecretMeta) -> bool, q: spec_fn(StoredSecretMeta) -> bool)
    requires
        forall|m: StoredSecretMeta| #[trigger] p(m) == q(m),
    ensures
        s.filter(p) == s.filter(q),
    decreases s.len(),
{
    reveal_with_fuel(Seq::<_>::filter, 1);
    if s.len() > 0 {
        lemma_filter_same(s.drop_last(), p, q);
    }
    assert(p == q);
}

/// Whether `key` starts with one of `prefixes`, or `prefixes` is empty.
fn key_matches(key: &str, prefixes: &[String]) -> (r: bool)
    ensures
        r == (prefixes@.len() == 0 || exists|i: int| 0 <= i < prefixes@.len() && (#[trigger] prefixes@[i])@.is_prefix_of(key@)),
{
    if prefixes.len() == 0 {
        return true;
    }
    let mut i: usize = 0;
    while i < prefixes.len()
        invariant
            i <= prefixes@.len(),
            forall|j: int| 0 <= j < i ==> !(#[trigger] prefixes@[j])@.is_prefix_of(key@),
        decreases prefixes.len() - i,
    {
        if str_starts_with(key, prefixes[i].as_str()) {
            return true;
        }
        i = i + 1;
    }
    false
}

} // verus!
