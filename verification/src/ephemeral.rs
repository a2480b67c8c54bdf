//! The registry of ephemeral keyspaces: in-memory-only keyspaces whose
//! records never reach Fjall. A keyspace name is registered the first time
//! an ephemeral write names it; an entry existing, even with no record in
//! it, stands for the keyspace existing.
use crate::codec::{copy_bytes, has_prefix, starts_with};
use crate::types::Metadata;
use dashmap::DashMap;
use vstd::prelude::*;

verus! {

#[verifier::external_type_specification]
#[verifier::external_body]
#[verifier::reject_recursive_types(K)]
#[verifier::reject_recursive_types(V)]
#[verifier::reject_recursive_types(S)]
pub struct ExDashMap<K, V, S>(DashMap<K, V, S>);

/// What one ephemeral record holds: its value bytes and its metadata.
pub type EphemeralValue = (Vec<u8>, Metadata);

/// One `(key, value, metadata)` entry of an ephemeral keyspace.
pub type EphemeralEntry = (Vec<u8>, Vec<u8>, Metadata);

/// What the registry holds: for each registered keyspace name, its
/// records by key. `DashMap` can change behind a shared reference; here
/// every change goes through a function below that takes the map by
/// `&mut`, and the map never leaves `EphemeralRegistry`, so what it holds
/// changes only where a mutable borrow shows it.
pub uninterp spec fn registry_contents(
    m: DashMap<String, DashMap<Vec<u8>, (Vec<u8>, Metadata)>>,
) -> Map<Seq<char>, Map<Seq<u8>, (Seq<u8>, Metadata)>>;

/// A new, empty registry.
///
/// Trusted: calls `DashMap::new`, which creates a map with no entries.
#[verifier::external_body]
fn registry_new() -> (r: DashMap<String, DashMap<Vec<u8>, EphemeralValue>>)
    ensures
        registry_contents(r) == empty_registry(),
{
    DashMap::new()
}

/// Whether `name` is registered.
///
/// Trusted: calls `DashMap::contains_key`, which reports whether the map
/// holds an entry whose key equals `name` (`String` equality is equality
/// of contents).
#[verifier::external_body]
fn registry_has(m: &DashMap<String, DashMap<Vec<u8>, EphemeralValue>>, name: &str) -> (r: bool)
    ensures
        r == registry_contents(*m).contains_key(name@),
{
    m.contains_key(name)
}

/// The record stored under `key` in keyspace `name`, copied out.
///
/// Trusted: calls `DashMap::get` on the registry and then on the keyspace's
/// own map; each returns the entry whose key equals the one given, if any.
#[verifier::external_body]
fn registry_get(
    m: &DashMap<String, DashMap<Vec<u8>, EphemeralValue>>,
    name: &str,
    key: &[u8],
) -> (r: Option<EphemeralValue>)
    ensures
        match r {
            Some(v) => registry_contents(*m).contains_key(name@) && registry_contents(
                *m,
            )[name@].contains_key(key@) && registry_contents(*m)[name@][key@] == (v.0@, v.1),
            None => !registry_contents(*m).contains_key(name@) || !registry_contents(
                *m,
            )[name@].contains_key(key@),
        },
{
    let ks = m.get(name)?;
    ks.get(key).map(|e| e.value().clone())
}

/// Every record of keyspace `name`, copied out in the map's iteration order.
///
/// Trusted: calls `DashMap::get` and then `DashMap::iter` on the keyspace's
/// map, which visits each entry exactly once.
#[verifier::external_body]
fn registry_entries(m: &DashMap<String, DashMap<Vec<u8>, EphemeralValue>>, name: &str) -> (r: Option<
    Vec<EphemeralEntry>,
>)
    ensures
        r is Some <==> registry_contents(*m).contains_key(name@),
        r matches Some(es) ==> entries_match(es@, registry_contents(*m)[name@]),
{
    let ks = m.get(name)?;
    Some(ks.iter().map(|e| (e.key().clone(), e.value().0.clone(), e.value().1)).collect())
}

/// Registers `name` if it is not registered yet.
///
/// Trusted: calls `DashMap::entry` and `Entry::or_default`, which insert an
/// empty map for `name` only when none is there.
#[verifier::external_body]
fn registry_ensure(m: &mut DashMap<String, DashMap<Vec<u8>, EphemeralValue>>, name: String)
    ensures
        registry_contents(*final(m)) == if registry_contents(*old(m)).contains_key(name@) {
            registry_contents(*old(m))
        } else {
            registry_contents(*old(m)).insert(name@, Map::empty())
        },
{
    m.entry(name).or_default();
}

/// Stores a record in keyspace `name`, registering the keyspace if needed.
///
/// Trusted: calls `DashMap::entry`, `Entry::or_default` and then
/// `DashMap::insert` on the keyspace's map, which replaces any record
/// stored under an equal key.
#[verifier::external_body]
fn registry_insert(
    m: &mut DashMap<String, DashMap<Vec<u8>, EphemeralValue>>,
    name: String,
    key: Vec<u8>,
    value: EphemeralValue,
)
    ensures
        registry_contents(*final(m)) == registry_contents(*old(m)).insert(
            name@,
            keyspace_or_empty(registry_contents(*old(m)), name@).insert(key@, (value.0@, value.1)),
        ),
{
    m.entry(name).or_default().insert(key, value);
}

/// Deletes the record under `key` in keyspace `name`, if both exist.
///
/// Trusted: calls `DashMap::get` and then `DashMap::remove` on the
/// keyspace's map, which removes the entry with an equal key.
#[verifier::external_body]
fn registry_remove_key(m: &mut DashMap<String, DashMap<Vec<u8>, EphemeralValue>>, name: &str, key: &[u8])
    ensures
        registry_contents(*final(m)) == if registry_contents(*old(m)).contains_key(name@) {
            registry_contents(*old(m)).insert(name@, registry_contents(*old(m))[name@].remove(key@))
        } else {
            registry_contents(*old(m))
        },
{
    if let Some(ks) = m.get(name) {
        ks.remove(key);
    }
}

/// Whether keyspace `name` holds no record; `None` when not registered.
///
/// Trusted: calls `DashMap::get` and then `DashMap::is_empty` on the
/// keyspace's map.
#[verifier::external_body]
fn registry_keyspace_is_empty(m: &DashMap<String, DashMap<Vec<u8>, EphemeralValue>>, name: &str) -> (r:
    Option<bool>)
    ensures
        r is Some <==> registry_contents(*m).contains_key(name@),
        r matches Some(b) ==> (b <==> registry_contents(*m)[name@].dom().is_empty()),
{
    m.get(name).map(|ks| ks.is_empty())
}

/// Unregisters `name` together with its records.
///
/// Trusted: calls `DashMap::remove`, which removes the entry whose key
/// equals `name`.
#[verifier::external_body]
fn registry_remove(m: &mut DashMap<String, DashMap<Vec<u8>, EphemeralValue>>, name: &str)
    ensures
        registry_contents(*final(m)) == registry_contents(*old(m)).remove(name@),
{
    m.remove(name);
}

/// Unregisters every keyspace.
///
/// Trusted: calls `DashMap::clear`, which removes every entry.
#[verifier::external_body]
fn registry_clear(m: &mut DashMap<String, DashMap<Vec<u8>, EphemeralValue>>)
    ensures
        registry_contents(*final(m)) == empty_registry(),
{
    m.clear();
}

/// The registered names, copied out in the map's iteration order.
///
/// Trusted: calls `DashMap::iter`, which visits each entry exactly once.
#[verifier::external_body]
fn registry_names(m: &DashMap<String, DashMap<Vec<u8>, EphemeralValue>>) -> (r: Vec<String>)
    ensures
        names_match(r@, registry_contents(*m).dom()),
{
    m.iter().map(|e| e.key().clone()).collect()
}

pub open spec fn empty_registry() -> Map<Seq<char>, Map<Seq<u8>, (Seq<u8>, Metadata)>> {
    Map::empty()
}

pub open spec fn keyspace_or_empty(
    c: Map<Seq<char>, Map<Seq<u8>, (Seq<u8>, Metadata)>>,
    name: Seq<char>,
) -> Map<Seq<u8>, (Seq<u8>, Metadata)> {
    if c.contains_key(name) {
        c[name]
    } else {
        Map::empty()
    }
}

/// `es` lists each record of `m` exactly once.
pub open spec fn entries_match(es: Seq<EphemeralEntry>, m: Map<Seq<u8>, (Seq<u8>, Metadata)>) -> bool {
    &&& forall|i: int, j: int| 0 <= i < j < es.len() ==> es[i].0@ != es[j].0@
    &&& forall|i: int|
        0 <= i < es.len() ==> m.contains_key(#[trigger] es[i].0@) && m[es[i].0@] == (es[i].1@, es[i].2)
    &&& forall|k: Seq<u8>| #[trigger] m.contains_key(k) ==> exists|i: int| 0 <= i < es.len() && es[i].0@ == k
}

/// `ns` lists each name of `d` exactly once.
pub open spec fn names_match(ns: Seq<String>, d: Set<Seq<char>>) -> bool {
    &&& forall|i: int, j: int| 0 <= i < j < ns.len() ==> ns[i]@ != ns[j]@
    &&& forall|i: int| 0 <= i < ns.len() ==> d.contains(#[trigger] ns[i]@)
    &&& forall|k: Seq<char>| #[trigger] d.contains(k) ==> exists|i: int| 0 <= i < ns.len() && ns[i]@ == k
}

/// The records of `m` whose key starts with `prefix`.
pub open spec fn with_prefix(m: Map<Seq<u8>, (Seq<u8>, Metadata)>, prefix: Seq<u8>) -> Map<
    Seq<u8>,
    (Seq<u8>, Metadata),
> {
    m.restrict(Set::new(|k: Seq<u8>| has_prefix(k, prefix)))
}

/// How dropping a name from the registry went.
#[derive(Debug, Clone, Copy, PartialEq, Eq, Structural)]
pub enum EphemeralDrop {
    /// The name is not an ephemeral keyspace.
    NotEphemeral,
    /// The keyspace was empty and is gone.
    Dropped,
    /// The keyspace holds records; nothing changed.
    NotEmpty,
}

/// The registry of ephemeral keyspaces.
pub struct EphemeralRegistry {
    map: DashMap<String, DashMap<Vec<u8>, EphemeralValue>>,
}

impl EphemeralRegistry {
    /// The keyspaces and their records.
    pub closed spec fn view(&self) -> Map<Seq<char>, Map<Seq<u8>, (Seq<u8>, Metadata)>> {
        registry_contents(self.map)
    }

    /// An empty registry.
    pub fn new() -> (r: Self)
        ensures
            r.view() == empty_registry(),
    {
        EphemeralRegistry { map: registry_new() }
    }

    /// Whether `name` is a registered ephemeral keyspace.
    pub fn is_ephemeral_keyspace(&self, name: &str) -> (r: bool)
        ensures
            r == self.view().contains_key(name@),
    {
        registry_has(&self.map, name)
    }

    /// The value and metadata under `key` in ephemeral keyspace
    /// `keyspace`; `None` both when the keyspace is not ephemeral and when
    /// the key is absent.
    pub fn ephemeral_get(&self, keyspace: &str, key: &[u8]) -> (r: Option<(Vec<u8>, Metadata)>)
        ensures
            match r {
                Some(v) => self.view().contains_key(keyspace@) && self.view()[keyspace@].contains_key(key@)
                    && self.view()[keyspace@][key@] == (v.0@, v.1),
                None => !self.view().contains_key(keyspace@) || !self.view()[keyspace@].contains_key(
                    key@,
                ),
            },
    {
        registry_get(&self.map, keyspace, key)
    }

    /// Every entry of ephemeral keyspace `keyspace` whose key starts with
    /// `prefix`, each once, in no set order; `None` when the keyspace is not
    /// ephemeral.
    pub fn ephemeral_prefix(&self, keyspace: &str, prefix: &[u8]) -> (r: Option<Vec<EphemeralEntry>>)
        ensures
            r is Some <==> self.view().contains_key(keyspace@),
            r matches Some(es) ==> entries_match(es@, with_prefix(self.view()[keyspace@], prefix@)),
    {
        let all = registry_entries(&self.map, keyspace);
        match all {
            None => None,
            Some(es) => {
                let ghost m = self.view()[keyspace@];
                let ghost wm = with_prefix(m, prefix@);
                let mut out: Vec<EphemeralEntry> = Vec::new();
                let mut i: usize = 0;
                while i < es.len()
                    invariant
                        i <= es@.len(),
                        entries_match(es@, m),
                        wm == with_prefix(m, prefix@),
                        forall|a: int, b: int| 0 <= a < b < out@.len() ==> out@[a].0@ != out@[b].0@,
                        forall|a: int|
                            0 <= a < out@.len() ==> wm.contains_key(#[trigger] out@[a].0@) && wm[out@[a].0@]
                                == (out@[a].1@, out@[a].2),
                        forall|a: int|
                            0 <= a < out@.len() ==> exists|j: int| 0 <= j < i && es@[j].0@ == #[trigger] out@[a].0@,
                        forall|j: int|
                            0 <= j < i && has_prefix(#[trigger] es@[j].0@, prefix@) ==> exists|a: int|
                                0 <= a < out@.len() && out@[a].0@ == es@[j].0@,
                    decreases es.len() - i,
                {
                    let e = &es[i];
                    if starts_with(e.0.as_slice(), prefix) {
                        let k = copy_bytes(e.0.as_slice());
                        let v = copy_bytes(e.1.as_slice());
                        let ghost before = out@;
                        assert(m.contains_key(es@[i as int].0@));
                        out.push((k, v, e.2));
                        proof {
                            let n = out@.len() - 1;
                            assert(out@[n].0@ == es@[i as int].0@);
                            assert forall|a: int, b: int| 0 <= a < b < out@.len() implies out@[a].0@
                                != out@[b].0@ by {
                                if b == n {
                                    assert(out@[a] == before[a]);
                                    let j = choose|j: int| 0 <= j < i && es@[j].0@ == before[a].0@;
                                    assert(es@[j].0@ != es@[i as int].0@);
                                } else {
                                    assert(out@[a] == before[a]);
                                    assert(out@[b] == before[b]);
                                }
                            }
                            assert forall|a: int| 0 <= a < out@.len() implies exists|j: int|
                                0 <= j < i + 1 && es@[j].0@ == #[trigger] out@[a].0@ by {
                                if a < n {
                                    assert(out@[a] == before[a]);
                                    let j = choose|j: int| 0 <= j < i && es@[j].0@ == before[a].0@;
                                } else {
                                    assert(es@[i as int].0@ == out@[a].0@);
                                }
                            }
                            assert forall|a: int| 0 <= a < out@.len() implies wm.contains_key(
                                #[trigger] out@[a].0@,
                            ) && wm[out@[a].0@] == (out@[a].1@, out@[a].2) by {
                                if a < n {
                                    assert(out@[a] == before[a]);
                                }
                            }
                            assert forall|j: int|
                                0 <= j < i + 1 && has_prefix(#[trigger] es@[j].0@, prefix@) implies exists|a: int|
                                0 <= a < out@.len() && out@[a].0@ == es@[j].0@ by {
                                if j < i {
                                    let a = choose|a: int| 0 <= a < before.len() && before[a].0@ == es@[j].0@;
                                    assert(out@[a] == before[a]);
                                } else {
                                    assert(out@[n].0@ == es@[j].0@);
                                }
                            }
                        }
                    }
                    i = i + 1;
                }
                proof {
                    assert forall|k: Seq<u8>| #[trigger] wm.contains_key(k) implies exists|a: int|
                        0 <= a < out@.len() && out@[a].0@ == k by {
                        assert(m.contains_key(k));
                        let j = choose|j: int| 0 <= j < es@.len() && es@[j].0@ == k;
                        assert(has_prefix(es@[j].0@, prefix@));
                    }
                }
                Some(out)
            },
        }
    }

    /// Registers `name` if needed, leaving its records as they are.
    pub fn ensure_keyspace(&mut self, name: String)
        ensures
            final(self).view() == if old(self).view().contains_key(name@) {
                old(self).view()
            } else {
                old(self).view().insert(name@, Map::empty())
            },
    {
        registry_ensure(&mut self.map, name);
    }

    /// Stores a record in ephemeral keyspace `name`, registering it if needed.
    pub fn insert(&mut self, name: String, key: Vec<u8>, value: EphemeralValue)
        ensures
            final(self).view() == old(self).view().insert(
                name@,
                keyspace_or_empty(old(self).view(), name@).insert(key@, (value.0@, value.1)),
            ),
    {
        registry_insert(&mut self.map, name, key, value);
    }

    /// Deletes the record under `key` from ephemeral keyspace `name`.
    pub fn remove_key(&mut self, name: &str, key: &[u8])
        ensures
            final(self).view() == if old(self).view().contains_key(name@) {
                old(self).view().insert(name@, old(self).view()[name@].remove(key@))
            } else {
                old(self).view()
            },
    {
        registry_remove_key(&mut self.map, name, key);
    }

    /// Drops ephemeral keyspace `name` if it holds no record.
    pub fn drop_if_empty(&mut self, name: &str) -> (r: EphemeralDrop)
        ensures
            !old(self).view().contains_key(name@) ==> r == EphemeralDrop::NotEphemeral && final(self).view()
                == old(self).view(),
            old(self).view().contains_key(name@) && old(self).view()[name@].dom().is_empty() ==> r
                == EphemeralDrop::Dropped && final(self).view() == old(self).view().remove(name@),
            old(self).view().contains_key(name@) && !old(self).view()[name@].dom().is_empty() ==> r
                == EphemeralDrop::NotEmpty && final(self).view() == old(self).view(),
    {
        match registry_keyspace_is_empty(&self.map, name) {
            None => EphemeralDrop::NotEphemeral,
            Some(true) => {
                registry_remove(&mut self.map, name);
                EphemeralDrop::Dropped
            },
            Some(false) => EphemeralDrop::NotEmpty,
        }
    }

    /// The registered names, each once, in no set order.
    pub fn names(&self) -> (r: Vec<String>)
        ensures
            names_match(r@, self.view().dom()),
    {
        registry_names(&self.map)
    }

    /// Replaces the registry with the names `names`, each with no record.
    pub fn reset(&mut self, names: &Vec<String>)
        ensures
            final(self).view() == Map::new(
                |n: Seq<char>| exists|i: int| 0 <= i < names@.len() && names@[i]@ == n,
                |n: Seq<char>| Map::<Seq<u8>, (Seq<u8>, Metadata)>::empty(),
            ),
    {
        registry_clear(&mut self.map);
        let mut i: usize = 0;
        while i < names.len()
            invariant
                i <= names@.len(),
                self.view() == Map::new(
                    |n: Seq<char>| exists|j: int| 0 <= j < i && names@[j]@ == n,
                    |n: Seq<char>| Map::<Seq<u8>, (Seq<u8>, Metadata)>::empty(),
                ),
            decreases names.len() - i,
        {
            let ghost before = self.view();
            let name = names[i].clone();
            self.ensure_keyspace(name);
            proof {
                let target = Map::new(
                    |n: Seq<char>| exists|j: int| 0 <= j < i + 1 && names@[j]@ == n,
                    |n: Seq<char>| Map::<Seq<u8>, (Seq<u8>, Metadata)>::empty(),
                );
                assert forall|n: Seq<char>| #[trigger] self.view().contains_key(n) <==> target.contains_key(n) by {
                    if n == names@[i as int]@ {
                        assert(target.contains_key(n));
                    }
                    if target.contains_key(n) {
                        let j = choose|j: int| 0 <= j < i + 1 && names@[j]@ == n;
                        if j < i {
                            assert(before.contains_key(n));
                        }
                    }
                    if before.contains_key(n) {
                        let j = choose|j: int| 0 <= j < i && names@[j]@ == n;
                        assert(target.contains_key(n));
                    }
                }
                assert(self.view() =~= target);
            }
            i = i + 1;
        }
    }
}

} // verus!
