//! Hash tables keyed by coordinates.
//!
//! A coordinate pair is stored under an integer that stands for it, one for
//! one, so that a table can be read as a map from coordinates to values.

use std::collections::HashMap;
use std::hash::Hash;
use vstd::prelude::*;
use vstd::std_specs::hash::*;

use crate::coords::{ChunkCoords, WorldCoords};

verus! {

/// Coordinates that have an integer of their own, and are read back from it.
pub trait Code: Copy + Sized {
    type Repr: Copy + Eq + Hash;

    spec fn code(self) -> Self::Repr;

    spec fn decode(c: Self::Repr) -> Self;

    fn to_code(self) -> (r: Self::Repr)
        ensures
            r == self.code(),
    ;

    fn from_code(c: Self::Repr) -> (r: Self)
        ensures
            r == Self::decode(c),
    ;

    proof fn one_for_one(k: Self, c: Self::Repr)
        ensures
            Self::decode(k.code()) == k,
            Self::decode(c).code() == c,
    ;

    proof fn codes_are_keys()
        ensures
            obeys_key_model::<Self::Repr>(),
    ;
}

impl Code for WorldCoords {
    type Repr = u32;

    open spec fn code(self) -> u32 {
        ((self.x + 32768) * 65536 + (self.y + 32768)) as u32
    }

    open spec fn decode(c: u32) -> Self {
        WorldCoords { x: (c as int / 65536 - 32768) as i16, y: (c as int % 65536 - 32768) as i16 }
    }

    fn to_code(self) -> (r: u32) {
        ((self.x as i64 + 32768) * 65536 + (self.y as i64 + 32768)) as u32
    }

    fn from_code(c: u32) -> (r: Self) {
        WorldCoords { x: ((c / 65536) as i64 - 32768) as i16, y: ((c % 65536) as i64 - 32768) as i16 }
    }

    proof fn one_for_one(k: Self, c: u32) {
    }

    proof fn codes_are_keys() {
        broadcast use group_hash_axioms;

    }
}

impl Code for ChunkCoords {
    type Repr = u16;

    open spec fn code(self) -> u16 {
        ((self.x + 128) * 256 + (self.y + 128)) as u16
    }

    open spec fn decode(c: u16) -> Self {
        ChunkCoords { x: (c as int / 256 - 128) as i8, y: (c as int % 256 - 128) as i8 }
    }

    fn to_code(self) -> (r: u16) {
        ((self.x as i64 + 128) * 256 + (self.y as i64 + 128)) as u16
    }

    fn from_code(c: u16) -> (r: Self) {
        ChunkCoords { x: ((c / 256) as i64 - 128) as i8, y: ((c % 256) as i64 - 128) as i8 }
    }

    proof fn one_for_one(k: Self, c: u16) {
    }

    proof fn codes_are_keys() {
        broadcast use group_hash_axioms;

    }
}

impl Code for u32 {
    type Repr = u32;

    open spec fn code(self) -> u32 {
        self
    }

    open spec fn decode(c: u32) -> Self {
        c
    }

    fn to_code(self) -> (r: u32) {
        self
    }

    fn from_code(c: u32) -> (r: Self) {
        c
    }

    proof fn one_for_one(k: Self, c: u32) {
    }

    proof fn codes_are_keys() {
        broadcast use group_hash_axioms;

    }
}

/// The keys of `m`, each once, in no particular order.
pub fn keys_of<R: Copy + Eq + Hash, V>(m: &HashMap<R, V>) -> (r: Vec<R>)
    requires
        obeys_key_model::<R>(),
    ensures
        r@.no_duplicates(),
        r@.to_set() == m@.dom(),
        r@.len() == m@.dom().len(),
        forall|k: R| #[trigger] r@.contains(k) <==> m@.contains_key(k),
{
    broadcast use group_hash_axioms;

    let mut out: Vec<R> = Vec::new();
    for k in iter: m.keys()
        invariant
            out@.len() == iter.index(),
            forall|i: int| 0 <= i < out@.len() ==> out@[i] == *iter.seq()[i],
    {
        out.push(*k);
    }
    proof {
        let ks = vstd::std_specs::iter::IteratorSpec::remaining(&spec_keys_iter(m));
        assert(out@ =~= ks.unref());
        assert(out@.no_duplicates()) by {
            assert forall|i: int, j: int| 0 <= i < out@.len() && 0 <= j < out@.len() && i
                != j implies out@[i] != out@[j] by {
                assert(ks[i] != ks[j]);
            }
        }
        assert forall|k: R| #[trigger] out@.contains(k) implies m@.contains_key(k) by {
            assert(out@.to_set().contains(k));
        }
        assert forall|k: R| m@.contains_key(k) implies #[trigger] out@.contains(k) by {
            assert(out@.to_set().contains(k));
        }
    }
    out
}

/// A map from coordinates to values.
#[verifier::reject_recursive_types(K)]
#[verifier::reject_recursive_types(V)]
pub struct CoordMap<K: Code, V> {
    m: HashMap<K::Repr, V>,
}

impl<K: Code, V> View for CoordMap<K, V> {
    type V = Map<K, V>;

    closed spec fn view(&self) -> Map<K, V> {
        Map::new(|k: K| self.m@.contains_key(k.code()), |k: K| self.m@[k.code()])
    }
}

impl<K: Code, V> CoordMap<K, V> {
    pub fn new() -> (r: Self)
        ensures
            r@ == Map::<K, V>::empty(),
    {
        let r = CoordMap { m: HashMap::new() };
        assert(r@ =~= Map::<K, V>::empty());
        r
    }

    pub fn contains_key(&self, k: &K) -> (r: bool)
        ensures
            r == self@.contains_key(*k),
    {
        broadcast use group_hash_axioms;

        proof {
            K::codes_are_keys();
        }
        self.m.contains_key(&k.to_code())
    }

    pub fn get(&self, k: &K) -> (r: Option<&V>)
        ensures
            match r {
                Some(v) => self@.contains_key(*k) && *v == self@[*k],
                None => !self@.contains_key(*k),
            },
    {
        broadcast use group_hash_axioms;

        proof {
            K::codes_are_keys();
        }
        self.m.get(&k.to_code())
    }

    pub fn insert(&mut self, k: K, v: V) -> (r: Option<V>)
        ensures
            final(self)@ == old(self)@.insert(k, v),
            match r {
                Some(w) => old(self)@.contains_key(k) && w == old(self)@[k],
                None => !old(self)@.contains_key(k),
            },
    {
        broadcast use group_hash_axioms;

        proof {
            K::codes_are_keys();
        }
        let r = self.m.insert(k.to_code(), v);
        proof {
            assert forall|j: K| j.code() == k.code() implies j == k by {
                K::one_for_one(j, j.code());
                K::one_for_one(k, k.code());
            }
            assert(self@ =~= old(self)@.insert(k, v));
        }
        r
    }

    pub fn remove(&mut self, k: &K) -> (r: Option<V>)
        ensures
            final(self)@ == old(self)@.remove(*k),
            match r {
                Some(w) => old(self)@.contains_key(*k) && w == old(self)@[*k],
                None => !old(self)@.contains_key(*k),
            },
    {
        broadcast use group_hash_axioms;

        proof {
            K::codes_are_keys();
        }
        let r = self.m.remove(&k.to_code());
        proof {
            assert forall|j: K| j.code() == k.code() implies j == *k by {
                K::one_for_one(j, j.code());
                K::one_for_one(*k, k.code());
            }
            assert(self@ =~= old(self)@.remove(*k));
        }
        r
    }

    /// The keys, each once, in no particular order.
    pub fn keys(&self) -> (r: Vec<K>)
        ensures
            r@.no_duplicates(),
            forall|k: K| #[trigger] r@.contains(k) <==> self@.contains_key(k),
    {
        proof {
            K::codes_are_keys();
        }
        let codes = keys_of(&self.m);
        let mut out: Vec<K> = Vec::new();
        let mut i: usize = 0;
        while i < codes.len()
            invariant
                i <= codes.len(),
                out@.len() == i,
                forall|j: int| 0 <= j < i ==> out@[j] == K::decode(#[trigger] codes@[j]),
            decreases codes.len() - i,
        {
            out.push(K::from_code(codes[i]));
            i = i + 1;
        }
        proof {
            assert forall|a: int, b: int| 0 <= a < out@.len() && 0 <= b < out@.len() && a
                != b implies out@[a] != out@[b] by {
                assert(codes@[a] != codes@[b]);
                K::one_for_one(out@[a], codes@[a]);
                K::one_for_one(out@[b], codes@[b]);
            }
            assert forall|k: K| #[trigger] out@.contains(k) implies self@.contains_key(k) by {
                let a = choose|a: int| 0 <= a < out@.len() && out@[a] == k;
                K::one_for_one(k, codes@[a]);
                assert(codes@.contains(codes@[a]));
            }
            assert forall|k: K| self@.contains_key(k) implies #[trigger] out@.contains(k) by {
                assert(codes@.contains(k.code()));
                let a = choose|a: int| 0 <= a < codes@.len() && codes@[a] == k.code();
                K::one_for_one(k, k.code());
                assert(out@[a] == k);
            }
        }
        out
    }
}

} // verus!
