//! Hash tables of the editor, whose hashes come from `foldhash`.

use std::collections::hash_map::Keys;
use std::collections::HashMap;
use std::hash::Hash;

use foldhash::fast::RandomState;
use vstd::prelude::*;
use vstd::std_specs::hash::*;
use vstd::std_specs::iter::IteratorSpec;

use crate::table::Code;

verus! {

#[verifier::external_type_specification]
#[verifier::external_body]
pub struct ExFoldState(RandomState);

/// Calls `HashMap::insert` on a table hashed by `foldhash`.
///
/// Not proved: the value is put in under the key, in place of what was there.
#[verifier::external_body]
fn fold_insert<R: Eq + Hash, V>(m: &mut HashMap<R, V, RandomState>, k: R, v: V) -> (r: Option<V>)
    requires
        obeys_key_model::<R>(),
    ensures
        final(m)@ == old(m)@.insert(k, v),
        r == (if old(m)@.contains_key(k) {
            Some(old(m)@[k])
        } else {
            None
        }),
{
    m.insert(k, v)
}

/// Calls `HashMap::remove` on a table hashed by `foldhash`.
///
/// Not proved: what the key holds is taken out.
#[verifier::external_body]
fn fold_remove<R: Eq + Hash, V>(m: &mut HashMap<R, V, RandomState>, k: &R) -> (r: Option<V>)
    requires
        obeys_key_model::<R>(),
    ensures
        final(m)@ == old(m)@.remove(*k),
        r == (if old(m)@.contains_key(*k) {
            Some(old(m)@[*k])
        } else {
            None
        }),
{
    m.remove(k)
}

/// Calls `HashMap::get` on a table hashed by `foldhash`.
///
/// Not proved: what the key holds is found.
#[verifier::external_body]
fn fold_get<'a, R: Eq + Hash, V>(m: &'a HashMap<R, V, RandomState>, k: &R) -> (r: Option<&'a V>)
    requires
        obeys_key_model::<R>(),
    ensures
        match r {
            Some(v) => m@.contains_key(*k) && *v == m@[*k],
            None => !m@.contains_key(*k),
        },
{
    m.get(k)
}

/// Calls `HashMap::get_mut` on a table hashed by `foldhash`.
///
/// Not proved: what the key holds is found, and what is made of it stays under
/// the key.
#[verifier::external_body]
fn fold_get_mut<'a, R: Eq + Hash, V>(m: &'a mut HashMap<R, V, RandomState>, k: &R) -> (r: Option<
    &'a mut V,
>)
    requires
        obeys_key_model::<R>(),
    ensures
        match r {
            Some(v) => old(m)@.contains_key(*k) && *v == old(m)@[*k] && final(m)@ == old(
                m,
            )@.insert(*k, *final(v)),
            None => !old(m)@.contains_key(*k) && final(m)@ == old(m)@,
        },
{
    m.get_mut(k)
}

/// Calls `HashMap::keys` on a table hashed by `foldhash`.
///
/// Not proved: the iterator is one over the keys of the table, each once. Their
/// order is left unsaid.
#[verifier::external_body]
fn fold_keys<'a, R: Eq + Hash, V>(m: &'a HashMap<R, V, RandomState>) -> (r: Keys<'a, R, V>)
    requires
        obeys_key_model::<R>(),
    ensures
        IteratorSpec::remaining(&r).unref().no_duplicates(),
        forall|k: R| #[trigger]
            IteratorSpec::remaining(&r).unref().contains(k) <==> m@.contains_key(k),
        IteratorSpec::decrease(&r) is Some,
        IteratorSpec::initial_value_relation(&r, &r),
{
    m.keys()
}

/// A map from coordinates, or numbers, to values.
#[verifier::reject_recursive_types(K)]
#[verifier::reject_recursive_types(V)]
pub struct FoldHashMap<K: Code, V> {
    m: HashMap<K::Repr, V, RandomState>,
}

impl<K: Code, V> View for FoldHashMap<K, V> {
    type V = Map<K, V>;

    closed spec fn view(&self) -> Map<K, V> {
        Map::new(|k: K| self.m@.contains_key(k.code()), |k: K| self.m@[k.code()])
    }
}

proof fn lemma_codes_differ<K: Code>(k: K)
    ensures
        forall|j: K| #[trigger] j.code() == k.code() ==> j == k,
{
    assert forall|j: K| #[trigger] j.code() == k.code() implies j == k by {
        K::one_for_one(j, j.code());
        K::one_for_one(k, k.code());
    }
}

impl<K: Code, V> FoldHashMap<K, V> {
    pub fn new() -> (r: Self)
        ensures
            r@ == Map::<K, V>::empty(),
    {
        let r = FoldHashMap { m: HashMap::default() };
        assert(r@ =~= Map::<K, V>::empty());
        r
    }

    pub fn get(&self, k: &K) -> (r: Option<&V>)
        ensures
            match r {
                Some(v) => self@.contains_key(*k) && *v == self@[*k],
                None => !self@.contains_key(*k),
            },
    {
        proof {
            K::codes_are_keys();
        }
        fold_get(&self.m, &k.to_code())
    }

    pub fn contains_key(&self, k: &K) -> (r: bool)
        ensures
            r == self@.contains_key(*k),
    {
        self.get(k).is_some()
    }

    pub fn get_mut(&mut self, k: &K) -> (r: Option<&mut V>)
        ensures
            match r {
                Some(v) => old(self)@.contains_key(*k) && *v == old(self)@[*k] && final(self)@
                    == old(self)@.insert(*k, *final(v)),
                None => !old(self)@.contains_key(*k) && final(self)@ == old(self)@,
            },
    {
        proof {
            K::codes_are_keys();
            lemma_codes_differ(*k);
        }
        fold_get_mut(&mut self.m, &k.to_code())
    }

    pub fn insert(&mut self, k: K, v: V) -> (r: Option<V>)
        ensures
            final(self)@ == old(self)@.insert(k, v),
            r == (if old(self)@.contains_key(k) {
                Some(old(self)@[k])
            } else {
                None
            }),
    {
        proof {
            K::codes_are_keys();
            lemma_codes_differ(k);
        }
        let r = fold_insert(&mut self.m, k.to_code(), v);
        assert(self@ =~= old(self)@.insert(k, v));
        r
    }

    pub fn remove(&mut self, k: &K) -> (r: Option<V>)
        ensures
            final(self)@ == old(self)@.remove(*k),
            r == (if old(self)@.contains_key(*k) {
                Some(old(self)@[*k])
            } else {
                None
            }),
    {
        proof {
            K::codes_are_keys();
            lemma_codes_differ(*k);
        }
        let r = fold_remove(&mut self.m, &k.to_code());
        assert(self@ =~= old(self)@.remove(*k));
        r
    }

    pub fn clear(&mut self)
        ensures
            final(self)@ == Map::<K, V>::empty(),
    {
        self.m.clear();
        assert(self@ =~= Map::<K, V>::empty());
    }

    /// The keys, each once, in no particular order.
    pub fn keys(&self) -> (r: Vec<K>)
        ensures
            r@.no_duplicates(),
            forall|k: K| #[trigger] r@.contains(k) <==> self@.contains_key(k),
    {
        proof {
            K::codes_are_keys();
        }
        let codes_iter = fold_keys(&self.m);
        let ghost codes = IteratorSpec::remaining(&codes_iter).unref();
        let mut out: Vec<K> = Vec::new();
        for c in iter: codes_iter
            invariant
                out@.len() == iter.index(),
                codes == iter.seq().unref(),
                forall|j: int| 0 <= j < out@.len() ==> out@[j] == K::decode(#[trigger] codes[j]),
        {
            out.push(K::from_code(*c));
        }
        proof {
            assert forall|a: int, b: int| 0 <= a < out@.len() && 0 <= b < out@.len() && a
                != b implies out@[a] != out@[b] by {
                assert(codes[a] != codes[b]);
                K::one_for_one(out@[a], codes[a]);
                K::one_for_one(out@[b], codes[b]);
            }
            assert forall|k: K| #[trigger] out@.contains(k) implies self@.contains_key(k) by {
                let a = choose|a: int| 0 <= a < out@.len() && out@[a] == k;
                K::one_for_one(k, codes[a]);
                assert(codes.contains(codes[a]));
            }
            assert forall|k: K| self@.contains_key(k) implies #[trigger] out@.contains(k) by {
                assert(codes.contains(k.code()));
                let a = choose|a: int| 0 <= a < codes.len() && codes[a] == k.code();
                K::one_for_one(k, k.code());
                assert(out@[a] == k);
            }
        }
        out
    }
}

} // verus!
