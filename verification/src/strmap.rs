//! A map keyed by strings that keeps its keys in ascending order.
use vstd::prelude::*;

use crate::text::{
    chars_lt, compare_str, lemma_chars_lt_asymmetric, lemma_chars_lt_irreflexive,
    lemma_chars_lt_total, lemma_chars_lt_transitive, Order,
};

verus! {

broadcast use vstd::string::group_string_axioms;

/// Keys strictly ascending in the string order.
pub open spec fn strictly_ascending<V>(s: Seq<(String, V)>) -> bool {
    forall|i: int, j: int| 0 <= i < j < s.len() ==> chars_lt((#[trigger] s[i]).0@, (#[trigger] s[j]).0@)
}

/// Whether `x` is the key of some pair of `s`.
pub open spec fn has_key_at<V>(s: Seq<(String, V)>, x: Seq<char>) -> bool {
    exists|i: int| 0 <= i < s.len() && (#[trigger] s[i]).0@ == x
}

/// The map that the pairs `s` spell.
pub open spec fn pairs_map<V>(s: Seq<(String, V)>) -> Map<Seq<char>, V> {
    Map::new(
        |x: Seq<char>| has_key_at(s, x),
        |x: Seq<char>| s[key_index(s, x)].1,
    )
}

/// A position of the key `x` among the pairs `s`.
pub open spec fn key_index<V>(s: Seq<(String, V)>, x: Seq<char>) -> int {
    choose|i: int| 0 <= i < s.len() && (#[trigger] s[i]).0@ == x
}

/// The keys of the pairs `s`, in order.
pub open spec fn pairs_keys<V>(s: Seq<(String, V)>) -> Seq<Seq<char>> {
    s.map_values(|p: (String, V)| p.0@)
}

/// A map from strings to `V` whose keys iterate in ascending order, as a
/// `BTreeMap<String, V>` does.
pub struct StrMap<V> {
    pairs: Vec<(String, V)>,
}

impl<V> StrMap<V> {
    #[verifier::type_invariant]
    spec fn ascending(self) -> bool {
        strictly_ascending(self.pairs@)
    }

    /// The pairs in ascending key order.
    pub closed spec fn spec_pairs(&self) -> Seq<(String, V)> {
        self.pairs@
    }

    /// The keys in ascending order.
    pub open spec fn spec_keys(&self) -> Seq<Seq<char>> {
        pairs_keys(self.spec_pairs())
    }

    /// The value at a key of the pairs is the map's value there.
    proof fn lemma_value_at(self, i: int)
        requires
            strictly_ascending(self.pairs@),
            0 <= i < self.pairs@.len(),
        ensures
            self@.contains_key(self.pairs@[i].0@),
            self@[self.pairs@[i].0@] == self.pairs@[i].1,
    {
        let s = self.pairs@;
        let x = s[i].0@;
        assert(has_key_at(s, x));
        let j = key_index(s, x);
        if j != i {
            if j < i {
                assert(chars_lt(s[j].0@, s[i].0@));
            } else {
                assert(chars_lt(s[i].0@, s[j].0@));
            }
            lemma_chars_lt_irreflexive(x);
        }
        assert(pairs_map(s)[x] == s[j].1);
    }

    /// Each pair of the map is one of its keys with its value.
    pub proof fn lemma_pair_in_map(&self, i: int)
        requires
            0 <= i < self.spec_pairs().len(),
            strictly_ascending(self.spec_pairs()),
        ensures
            self@.contains_key(self.spec_pairs()[i].0@),
            self@[self.spec_pairs()[i].0@] == self.spec_pairs()[i].1,
    {
        self.lemma_value_at(i);
    }

    /// Each key of the map is the key of one of its pairs.
    pub proof fn lemma_key_in_pairs(&self, x: Seq<char>)
        requires
            self@.contains_key(x),
        ensures
            exists|i: int| 0 <= i < self.spec_pairs().len() && (#[trigger] self.spec_pairs()[i]).0@ == x,
    {
        assert(has_key_at(self.pairs@, x));
        let i = choose|i: int| 0 <= i < self.pairs@.len() && (#[trigger] self.pairs@[i]).0@ == x;
        assert(self.spec_pairs()[i].0@ == x);
    }

    /// An empty map.
    pub fn new() -> (r: Self)
        ensures
            r@ == Map::<Seq<char>, V>::empty(),
            r.spec_pairs() == Seq::<(String, V)>::empty(),
    {
        let r = StrMap { pairs: Vec::new() };
        assert(r@ =~= Map::<Seq<char>, V>::empty());
        r
    }

    /// The pairs in ascending key order.
    pub fn pairs(&self) -> (r: &Vec<(String, V)>)
        ensures
            r@ == self.spec_pairs(),
            strictly_ascending(r@),
            pairs_map(r@) == self@,
    {
        proof {
            use_type_invariant(self);
        }
        &self.pairs
    }

    /// The number of keys.
    pub fn len(&self) -> (r: usize)
        ensures
            r == self.spec_pairs().len(),
    {
        self.pairs.len()
    }

    /// Whether the map has no key.
    pub fn is_empty(&self) -> (r: bool)
        ensures
            r == (self@.dom() == Set::<Seq<char>>::empty()),
            r == (self.spec_pairs().len() == 0),
    {
        proof {
            if self.pairs@.len() > 0 {
                assert(has_key_at(self.pairs@, self.pairs@[0].0@));
                assert(self@.dom().contains(self.pairs@[0].0@));
            } else {
                assert(self@.dom() =~= Set::<Seq<char>>::empty());
            }
        }
        self.pairs.len() == 0
    }

    /// Position of the first key not below `k`, and whether that key is `k`.
    fn seek(&self, k: &str) -> (r: (usize, bool))
        ensures
            r.0 <= self.pairs@.len(),
            forall|i: int| 0 <= i < r.0 ==> chars_lt((#[trigger] self.pairs@[i]).0@, k@),
            r.0 < self.pairs@.len() ==> !chars_lt(self.pairs@[r.0 as int].0@, k@),
            r.1 == (r.0 < self.pairs@.len() && self.pairs@[r.0 as int].0@ == k@),
    {
        let mut i: usize = 0;
        while i < self.pairs.len()
            invariant
                i <= self.pairs@.len(),
                forall|j: int| 0 <= j < i ==> chars_lt((#[trigger] self.pairs@[j]).0@, k@),
            decreases self.pairs.len() - i,
        {
            match compare_str(self.pairs[i].0.as_str(), k) {
                Order::Less => {},
                Order::Equal => {
                    proof { lemma_chars_lt_irreflexive(k@); }
                    return (i, true);
                },
                Order::Greater => {
                    proof {
                        lemma_chars_lt_asymmetric(k@, self.pairs@[i as int].0@);
                    }
                    return (i, false);
                },
            }
            i = i + 1;
        }
        (i, false)
    }

    /// The value at `k`, if any.
    pub fn get(&self, k: &str) -> (r: Option<&V>)
        ensures
            match r {
                Some(v) => self@.contains_key(k@) && self@[k@] == *v,
                None => !self@.contains_key(k@),
            },
    {
        proof {
            use_type_invariant(self);
        }
        let (pos, found) = self.seek(k);
        if found {
            proof {
                self.lemma_value_at(pos as int);
            }
            Some(&self.pairs[pos].1)
        } else {
            proof {
                if has_key_at(self.pairs@, k@) {
                    let j = choose|j: int| 0 <= j < self.pairs@.len() && (#[trigger] self.pairs@[j]).0@ == k@;
                    if j < pos {
                        lemma_chars_lt_irreflexive(k@);
                    } else if j > pos {
                        assert(chars_lt(self.pairs@[pos as int].0@, self.pairs@[j].0@));
                        lemma_chars_lt_total(self.pairs@[pos as int].0@, k@);
                    }
                }
            }
            None
        }
    }

    /// Sets the value at `k` to `v`.
    pub fn insert(&mut self, k: String, v: V)
        ensures
            final(self)@ == old(self)@.insert(k@, v),
    {
        proof {
            use_type_invariant(&*self);
        }
        let (pos, found) = self.seek(k.as_str());
        let mut pairs: Vec<(String, V)> = Vec::new();
        std::mem::swap(&mut pairs, &mut self.pairs);
        let ghost old_pairs = pairs@;
        let ghost kk = k@;
        if found {
            pairs.set(pos, (k, v));
        } else {
            pairs.insert(pos, (k, v));
        }
        proof {
            let s = pairs@;
            assert forall|i: int, j: int| 0 <= i < j < s.len() implies chars_lt((#[trigger] s[i]).0@, (#[trigger] s[j]).0@) by {
                if found {
                    assert(s[i].0@ == old_pairs[i].0@ && s[j].0@ == old_pairs[j].0@);
                } else {
                    if i < pos && j < pos {
                        assert(s[i] == old_pairs[i] && s[j] == old_pairs[j]);
                    } else if i < pos && j == pos {
                        assert(s[i] == old_pairs[i]);
                    } else if i < pos {
                        assert(s[i] == old_pairs[i] && s[j] == old_pairs[j - 1]);
                        lemma_chars_lt_transitive(s[i].0@, kk, s[j].0@);
                        lemma_chars_lt_total(kk, s[j].0@);
                        if j - 1 > pos {
                            lemma_chars_lt_transitive(kk, old_pairs[pos as int].0@, s[j].0@);
                        }
                        lemma_chars_lt_total(kk, old_pairs[pos as int].0@);
                    } else if i == pos {
                        assert(s[j] == old_pairs[j - 1]);
                        lemma_chars_lt_total(kk, old_pairs[pos as int].0@);
                        if j - 1 > pos {
                            lemma_chars_lt_transitive(kk, old_pairs[pos as int].0@, s[j].0@);
                        }
                    } else {
                        assert(s[i] == old_pairs[i - 1] && s[j] == old_pairs[j - 1]);
                    }
                }
            }
        }
        self.pairs = pairs;
        proof {
            let s = self.pairs@;
            let m = old(self)@.insert(kk, v);
            assert forall|x: Seq<char>| #[trigger] self@.contains_key(x) == m.contains_key(x) by {
                if has_key_at(s, x) && x != kk {
                    let j = choose|j: int| 0 <= j < s.len() && (#[trigger] s[j]).0@ == x;
                    if found {
                        assert(old_pairs[j].0@ == x);
                    } else if j < pos {
                        assert(old_pairs[j].0@ == x);
                    } else {
                        assert(old_pairs[j - 1].0@ == x);
                    }
                    assert(has_key_at(old_pairs, x));
                }
                if has_key_at(old_pairs, x) {
                    let j = choose|j: int| 0 <= j < old_pairs.len() && (#[trigger] old_pairs[j]).0@ == x;
                    if found || j < pos {
                        if !found || j != pos {
                            assert(s[j].0@ == x);
                        } else {
                            assert(s[j].0@ == kk);
                        }
                    } else {
                        assert(s[j + 1].0@ == x);
                    }
                    assert(has_key_at(s, x));
                }
                if x == kk {
                    assert(s[pos as int].0@ == kk);
                    assert(has_key_at(s, x));
                }
            }
            assert forall|x: Seq<char>| #[trigger] self@.contains_key(x) implies self@[x] == m[x] by {
                let j = choose|j: int| 0 <= j < s.len() && (#[trigger] s[j]).0@ == x;
                self.lemma_value_at(j);
                if x == kk {
                    self.lemma_value_at(pos as int);
                } else {
                    let oj = if found || j < pos { j } else { j - 1 };
                    assert(old_pairs[oj] == s[j]);
                    old(self).lemma_value_at(oj);
                }
            }
            assert(self@ =~= m);
        }
    }

    /// Drops the key `k` and its value.
    pub fn remove(&mut self, k: &str)
        ensures
            final(self)@ == old(self)@.remove(k@),
    {
        proof {
            use_type_invariant(&*self);
        }
        let (pos, found) = self.seek(k);
        if !found {
            proof {
                let s = self.pairs@;
                if has_key_at(s, k@) {
                    let j = choose|j: int| 0 <= j < s.len() && (#[trigger] s[j]).0@ == k@;
                    if j < pos {
                        lemma_chars_lt_irreflexive(k@);
                    } else if j > pos {
                        assert(chars_lt(s[pos as int].0@, s[j].0@));
                        lemma_chars_lt_total(s[pos as int].0@, k@);
                    }
                }
                assert(self@ =~= old(self)@.remove(k@));
            }
            return;
        }
        let mut pairs: Vec<(String, V)> = Vec::new();
        std::mem::swap(&mut pairs, &mut self.pairs);
        let ghost old_pairs = pairs@;
        let _ = pairs.remove(pos);
        proof {
            let s = pairs@;
            assert forall|i: int, j: int| 0 <= i < j < s.len() implies chars_lt((#[trigger] s[i]).0@, (#[trigger] s[j]).0@) by {
                let oi = if i < pos { i } else { i + 1 };
                let oj = if j < pos { j } else { j + 1 };
                assert(s[i] == old_pairs[oi] && s[j] == old_pairs[oj]);
            }
        }
        self.pairs = pairs;
        proof {
            let s = self.pairs@;
            let m = old(self)@.remove(k@);
            assert forall|x: Seq<char>| #[trigger] self@.contains_key(x) == m.contains_key(x) by {
                if has_key_at(s, x) {
                    let j = choose|j: int| 0 <= j < s.len() && (#[trigger] s[j]).0@ == x;
                    let oj = if j < pos { j } else { j + 1 };
                    assert(old_pairs[oj].0@ == x);
                    assert(has_key_at(old_pairs, x));
                    if x == k@ {
                        if oj < pos {
                            assert(chars_lt(old_pairs[oj].0@, k@));
                        } else {
                            assert(chars_lt(old_pairs[pos as int].0@, old_pairs[oj].0@));
                        }
                        lemma_chars_lt_irreflexive(k@);
                    }
                }
                if has_key_at(old_pairs, x) && x != k@ {
                    let j = choose|j: int| 0 <= j < old_pairs.len() && (#[trigger] old_pairs[j]).0@ == x;
                    assert(j != pos);
                    let nj = if j < pos { j } else { j - 1 };
                    assert(s[nj].0@ == x);
                    assert(has_key_at(s, x));
                }
            }
            assert forall|x: Seq<char>| #[trigger] self@.contains_key(x) implies self@[x] == m[x] by {
                let j = key_index(s, x);
                self.lemma_value_at(j);
                let oj = if j < pos { j } else { j + 1 };
                assert(old_pairs[oj] == s[j]);
                old(self).lemma_value_at(oj);
            }
            assert(self@ =~= m);
        }
    }

    /// The keys in ascending order.
    pub fn keys(&self) -> (r: Vec<String>)
        ensures
            r@.map_values(|s: String| s@) == self.spec_keys(),
            forall|i: int, j: int| 0 <= i < j < r@.len() ==> chars_lt((#[trigger] r@[i])@, (#[trigger] r@[j])@),
            forall|x: Seq<char>| self@.contains_key(x) <==> exists|i: int| 0 <= i < r@.len() && (#[trigger] r@[i])@ == x,
    {
        proof {
            use_type_invariant(self);
        }
        let mut out: Vec<String> = Vec::new();
        let mut i: usize = 0;
        while i < self.pairs.len()
            invariant
                i <= self.pairs@.len(),
                out@.map_values(|s: String| s@) == pairs_keys(self.pairs@.take(i as int)),
            decreases self.pairs.len() - i,
        {
            out.push(self.pairs[i].0.clone());
            assert(pairs_keys(self.pairs@.take(i + 1)) =~= pairs_keys(self.pairs@.take(i as int)).push(self.pairs@[i as int].0@));
            assert(out@.map_values(|s: String| s@) =~= pairs_keys(self.pairs@.take(i + 1)));
            i = i + 1;
        }
        assert(self.pairs@.take(i as int) =~= self.pairs@);
        proof {
            let ks = out@.map_values(|s: String| s@);
            assert forall|a: int| 0 <= a < out@.len() implies (#[trigger] out@[a])@ == self.pairs@[a].0@ by {
                assert(ks[a] == out@[a]@);
                assert(ks[a] == pairs_keys(self.pairs@)[a]);
            }
            assert forall|x: Seq<char>| self@.contains_key(x) <==> exists|a: int| 0 <= a < out@.len() && (#[trigger] out@[a])@ == x by {
                if self@.contains_key(x) {
                    let j = choose|j: int| 0 <= j < self.pairs@.len() && (#[trigger] self.pairs@[j]).0@ == x;
                    assert(out@[j]@ == x);
                }
                if exists|a: int| 0 <= a < out@.len() && (#[trigger] out@[a])@ == x {
                    let a = choose|a: int| 0 <= a < out@.len() && (#[trigger] out@[a])@ == x;
                    assert(self.pairs@[a].0@ == x);
                    assert(has_key_at(self.pairs@, x));
                }
            }
        }
        out
    }
}

impl StrMap<String> {
    /// A copy of this map.
    pub fn duplicate(&self) -> (r: Self)
        ensures
            r@ == self@,
            r.spec_pairs() == self.spec_pairs(),
    {
        proof {
            use_type_invariant(self);
        }
        let mut out: Vec<(String, String)> = Vec::new();
        let mut i: usize = 0;
        while i < self.pairs.len()
            invariant
                i <= self.pairs@.len(),
                out@ == self.pairs@.take(i as int),
            decreases self.pairs.len() - i,
        {
            let k = self.pairs[i].0.clone();
            let v = self.pairs[i].1.clone();
            out.push((k, v));
            assert(out@ =~= self.pairs@.take(i + 1));
            i = i + 1;
        }
        assert(out@ =~= self.pairs@);
        StrMap { pairs: out }
    }
}

impl StrMap<StrMap<String>> {
    /// A copy of this map of maps.
    pub fn duplicate_nested(&self) -> (r: Self)
        ensures
            r@.dom() == self@.dom(),
            forall|k: Seq<char>| #[trigger] r@.contains_key(k) ==> r@[k]@ == self@[k]@,
            r.spec_keys() == self.spec_keys(),
    {
        proof {
            use_type_invariant(self);
        }
        let mut out: Vec<(String, StrMap<String>)> = Vec::new();
        let mut i: usize = 0;
        while i < self.pairs.len()
            invariant
                i <= self.pairs@.len(),
                out@.len() == i,
                forall|t: int| 0 <= t < i ==> (#[trigger] out@[t]).0 == self.pairs@[t].0 && out@[t].1@ == self.pairs@[t].1@,
            decreases self.pairs.len() - i,
        {
            let k = self.pairs[i].0.clone();
            let v = self.pairs[i].1.duplicate();
            out.push((k, v));
            i = i + 1;
        }
        proof {
            assert forall|a: int, b: int| 0 <= a < b < out@.len() implies chars_lt((#[trigger] out@[a]).0@, (#[trigger] out@[b]).0@) by {
                assert(out@[a].0 == self.pairs@[a].0 && out@[b].0 == self.pairs@[b].0);
            }
        }
        let r = StrMap { pairs: out };
        proof {
            assert forall|x: Seq<char>| #[trigger] r@.contains_key(x) == self@.contains_key(x) by {
                if has_key_at(out@, x) {
                    let j = choose|j: int| 0 <= j < out@.len() && (#[trigger] out@[j]).0@ == x;
                    assert(self.pairs@[j].0@ == x);
                }
                if has_key_at(self.pairs@, x) {
                    let j = choose|j: int| 0 <= j < self.pairs@.len() && (#[trigger] self.pairs@[j]).0@ == x;
                    assert(out@[j].0@ == x);
                }
            }
            assert(r@.dom() =~= self@.dom());
            assert forall|k: Seq<char>| #[trigger] r@.contains_key(k) implies r@[k]@ == self@[k]@ by {
                let j = key_index(out@, k);
                r.lemma_value_at(j);
                self.lemma_value_at(j);
            }
            assert(r.spec_keys() =~= self.spec_keys());
        }
        r
    }
}

impl<V> View for StrMap<V> {
    type V = Map<Seq<char>, V>;

    closed spec fn view(&self) -> Map<Seq<char>, V> {
        pairs_map(self.pairs@)
    }
}

} // verus!
