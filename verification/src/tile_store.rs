//! The in-memory level of the tile cache: tiles by Web-Mercator key, a
//! load counter that tells callers when new tiles have arrived, and the set
//! of keys whose load is in flight.
//!
//! Both are std hash tables keyed by the integer `key_code` of a tile key,
//! which vstd specifies for integer keys.

use vstd::prelude::*;
use vstd::arithmetic::div_mod::lemma_fundamental_div_mod_converse;
use std::collections::{HashMap, HashSet};

verus! {

broadcast use vstd::std_specs::hash::group_hash_axioms;

/// Key of a Web-Mercator tile: column, row and zoom.
#[derive(Clone, Copy, PartialEq, Eq, Structural, Debug)]
pub struct TileKey {
    pub x: i32,
    pub y: i32,
    pub zoom: u32,
}

/// The integer a tile key is stored under: the column and row shifted to be
/// non-negative, and the zoom, as three 32-bit digits.
pub open spec fn key_code(k: TileKey) -> int {
    (k.x + 0x8000_0000) * 0x1_0000_0000_0000_0000 + (k.y + 0x8000_0000) * 0x1_0000_0000 + k.zoom
}

/// Distinct keys have distinct codes.
proof fn lemma_key_code_injective(a: TileKey, b: TileKey)
    requires
        key_code(a) == key_code(b),
    ensures
        a == b,
{
    let lo_a = (a.y + 0x8000_0000) * 0x1_0000_0000 + a.zoom;
    let lo_b = (b.y + 0x8000_0000) * 0x1_0000_0000 + b.zoom;
    lemma_fundamental_div_mod_converse(key_code(a), 0x1_0000_0000_0000_0000, a.x + 0x8000_0000, lo_a);
    lemma_fundamental_div_mod_converse(key_code(b), 0x1_0000_0000_0000_0000, b.x + 0x8000_0000, lo_b);
    lemma_fundamental_div_mod_converse(lo_a, 0x1_0000_0000, a.y + 0x8000_0000, a.zoom as int);
    lemma_fundamental_div_mod_converse(lo_b, 0x1_0000_0000, b.y + 0x8000_0000, b.zoom as int);
}

/// The code of `k`, as stored in the tables.
fn code_of(k: TileKey) -> (c: u128)
    ensures
        c == key_code(k),
{
    let x = (k.x as i64 + 0x8000_0000) as u128;
    let y = (k.y as i64 + 0x8000_0000) as u128;
    x * 0x1_0000_0000_0000_0000 + y * 0x1_0000_0000 + k.zoom as u128
}

/// Tiles held in memory by key, with the number of tiles stored so far.
pub struct TileStore<T> {
    map: HashMap<u128, T>,
    loads: u32,
}

impl<T> TileStore<T> {
    /// The tiles held, by key.
    pub closed spec fn tiles(&self) -> Map<TileKey, T> {
        Map::new(
            |k: TileKey| self.map@.contains_key(key_code(k) as u128),
            |k: TileKey| self.map@[key_code(k) as u128],
        )
    }

    /// The load counter: how many tiles have been stored, modulo 2^32.
    pub closed spec fn load_count(&self) -> u32 {
        self.loads
    }

    /// An empty store.
    pub fn new() -> (s: Self)
        ensures
            s.tiles() == Map::<TileKey, T>::empty(),
            s.load_count() == 0,
    {
        let s = TileStore { map: HashMap::new(), loads: 0 };
        assert(s.tiles() =~= Map::<TileKey, T>::empty());
        s
    }

    /// Number of tiles stored so far (wrapping at 2^32): a generation counter
    /// that moves with each new tile.
    pub fn fetch_count(&self) -> (n: u32)
        ensures
            n == self.load_count(),
    {
        self.loads
    }

    /// The tile held for `key`, if any.
    pub fn get(&self, key: TileKey) -> (r: Option<&T>)
        ensures
            r is Some <==> self.tiles().contains_key(key),
            r matches Some(t) ==> *t == self.tiles()[key],
    {
        let c = code_of(key);
        self.map.get(&c)
    }

    /// Store a freshly loaded tile, replacing any tile held for the key, and
    /// count it.
    pub fn insert(&mut self, key: TileKey, tile: T)
        ensures
            final(self).tiles() == old(self).tiles().insert(key, tile),
            final(self).load_count() == (if old(self).load_count() == u32::MAX {
                0
            } else {
                old(self).load_count() + 1
            }),
    {
        let c = code_of(key);
        self.map.insert(c, tile);
        self.loads = self.loads.wrapping_add(1);
        proof {
            assert forall|k: TileKey| #[trigger] self.tiles().contains_key(k) == old(self).tiles().insert(key, tile).contains_key(k) by {
                if key_code(k) == key_code(key) {
                    lemma_key_code_injective(k, key);
                }
            }
            assert forall|k: TileKey| self.tiles().contains_key(k) implies #[trigger] self.tiles()[k] == old(self).tiles().insert(key, tile)[k] by {
                if key_code(k) == key_code(key) {
                    lemma_key_code_injective(k, key);
                }
            }
            assert(self.tiles() =~= old(self).tiles().insert(key, tile));
        }
    }
}

/// What a read gives back of a write: once `insert(key, tile)` has turned
/// `before` into `after`, a `get` of `key` finds `tile` and a `get` of any
/// other key finds what it found before.
pub proof fn law_get_after_insert<T>(
    before: TileStore<T>,
    after: TileStore<T>,
    key: TileKey,
    tile: T,
    other: TileKey,
)
    requires
        after.tiles() == before.tiles().insert(key, tile),
    ensures
        after.tiles().contains_key(key),
        after.tiles()[key] == tile,
        other != key ==> (after.tiles().contains_key(other) == before.tiles().contains_key(other)),
        other != key && before.tiles().contains_key(other) ==> after.tiles()[other] == before.tiles()[other],
{
}

/// Keys whose load is in flight.
pub struct KeySet {
    codes: HashSet<u128>,
}

impl KeySet {
    /// The keys held.
    pub closed spec fn keys(&self) -> Set<TileKey> {
        Set::new(|k: TileKey| self.codes@.contains(key_code(k) as u128))
    }

    /// An empty set.
    pub fn new() -> (s: Self)
        ensures
            s.keys() == Set::<TileKey>::empty(),
    {
        let s = KeySet { codes: HashSet::new() };
        assert(s.keys() =~= Set::<TileKey>::empty());
        s
    }

    /// Add `key`; true when it was not there yet.
    pub fn insert(&mut self, key: TileKey) -> (added: bool)
        ensures
            added == !old(self).keys().contains(key),
            final(self).keys() == old(self).keys().insert(key),
    {
        let c = code_of(key);
        let added = self.codes.insert(c);
        proof {
            assert forall|k: TileKey| #[trigger] self.keys().contains(k) == old(self).keys().insert(key).contains(k) by {
                if key_code(k) == key_code(key) {
                    lemma_key_code_injective(k, key);
                }
            }
            assert(self.keys() =~= old(self).keys().insert(key));
        }
        added
    }

    /// Remove `key` if present.
    pub fn remove(&mut self, key: TileKey)
        ensures
            final(self).keys() == old(self).keys().remove(key),
    {
        let c = code_of(key);
        self.codes.remove(&c);
        proof {
            assert forall|k: TileKey| #[trigger] self.keys().contains(k) == old(self).keys().remove(key).contains(k) by {
                if key_code(k) == key_code(key) {
                    lemma_key_code_injective(k, key);
                }
            }
            assert(self.keys() =~= old(self).keys().remove(key));
        }
    }
}

} // verus!
