//! What is known of each tile, and the store that keeps it.
use crate::stream::Point;
use crate::tiling::TileKey;
#[allow(unused_imports)]
use crate::tiling::{lemma_tile_numbers_differ, tile_number};
use std::collections::HashMap;
use vstd::prelude::*;

verus! {

broadcast use vstd::std_specs::hash::group_hash_axioms;

/// The mesh of a tile: its slot in the arena, its middle, and its lowest and
/// highest ground as the bits of floats.
#[derive(Copy, Clone, PartialEq, Eq, Debug, Structural)]
pub struct MeshRes {
    pub slot: u32,
    pub center: Point,
    pub min_height: u32,
    pub max_height: u32,
}

/// What is known of a tile. Times are frame numbers.
#[derive(Copy, Clone, PartialEq, Eq, Debug, Structural)]
pub struct Tile {
    pub mesh: Option<MeshRes>,
    /// The layer that holds its image.
    pub imagery: Option<u32>,
    pub mesh_inbound: bool,
    pub imagery_inbound: bool,
    pub imagery_at: u64,
    pub mesh_fails: u8,
    pub imagery_fails: u8,
    pub mesh_retry_at: u64,
    pub imagery_retry_at: u64,
    pub last_used: u64,
    pub last_drawn: u64,
    pub unfold_at: u64,
    pub merge_at: u64,
    pub split: bool,
}

/// A tile of which nothing is known.
pub open spec fn unknown_tile() -> Tile {
    Tile {
        mesh: None,
        imagery: None,
        mesh_inbound: false,
        imagery_inbound: false,
        imagery_at: 0,
        mesh_fails: 0,
        imagery_fails: 0,
        mesh_retry_at: 0,
        imagery_retry_at: 0,
        last_used: 0,
        last_drawn: 0,
        unfold_at: 0,
        merge_at: 0,
        split: false,
    }
}

impl Tile {
    /// A tile of which nothing is known.
    pub fn unknown() -> (tile: Tile)
        ensures
            tile == unknown_tile(),
    {
        Tile {
            mesh: None,
            imagery: None,
            mesh_inbound: false,
            imagery_inbound: false,
            imagery_at: 0,
            mesh_fails: 0,
            imagery_fails: 0,
            mesh_retry_at: 0,
            imagery_retry_at: 0,
            last_used: 0,
            last_drawn: 0,
            unfold_at: 0,
            merge_at: 0,
            split: false,
        }
    }
}

/// The tiles of a store, and the order in which they were first put there.
#[verifier::ext_equal]
pub struct TileMap {
    pub order: Seq<TileKey>,
    pub at: Map<TileKey, Tile>,
}

impl TileMap {
    /// Whether the order lists each tile once.
    pub open spec fn wf(self) -> bool {
        &&& self.order.no_duplicates()
        &&& forall|k: TileKey| #[trigger] self.at.contains_key(k) <==> self.order.contains(k)
    }

    /// What is known of `key`.
    pub open spec fn get(self, key: TileKey) -> Tile {
        if self.at.contains_key(key) {
            self.at[key]
        } else {
            unknown_tile()
        }
    }

    /// The store after `tile` was put at `key`.
    pub open spec fn put(self, key: TileKey, tile: Tile) -> TileMap {
        TileMap {
            order: if self.at.contains_key(key) {
                self.order
            } else {
                self.order.push(key)
            },
            at: self.at.insert(key, tile),
        }
    }
}

/// A store gives back what was put there, and keeps the rest.
pub proof fn lemma_put_get(tiles: TileMap, key: TileKey, tile: Tile, other: TileKey)
    requires
        tiles.wf(),
    ensures
        tiles.put(key, tile).wf(),
        tiles.put(key, tile).get(key) == tile,
        other != key ==> tiles.put(key, tile).get(other) == tiles.get(other),
{
    let after = tiles.put(key, tile);
    if !tiles.at.contains_key(key) {
        assert(!tiles.order.contains(key));
        assert forall|k: TileKey| #[trigger] after.at.contains_key(k) <==> after.order.contains(
            k,
        ) by {
            if tiles.order.contains(k) {
                let i = choose|i: int| 0 <= i < tiles.order.len() && tiles.order[i] == k;
                assert(after.order[i] == k);
            }
            if k == key {
                assert(after.order[after.order.len() - 1] == k);
            }
        }
    }
}

/// The tiles by key.
pub struct TileStore {
    index: HashMap<u128, usize>,
    keys: Vec<TileKey>,
    tiles: Vec<Tile>,
}

impl View for TileStore {
    type V = TileMap;

    closed spec fn view(&self) -> TileMap {
        TileMap {
            order: self.keys@,
            at: Map::new(
                |k: TileKey| self.keys@.contains(k),
                |k: TileKey| self.tiles@[self.keys@.index_of(k)],
            ),
        }
    }
}

impl TileStore {
    pub closed spec fn wf(&self) -> bool {
        &&& self.keys@.len() == self.tiles@.len()
        &&& self.keys@.no_duplicates()
        &&& forall|i: int|
            0 <= i < self.keys@.len() ==> self.index@.contains_key(
                tile_number(#[trigger] self.keys@[i]) as u128,
            ) && self.index@[tile_number(self.keys@[i]) as u128] == i
        &&& forall|n: u128| #[trigger]
            self.index@.contains_key(n) ==> self.index@[n] < self.keys@.len() && tile_number(
                self.keys@[self.index@[n] as int],
            ) == n
    }

    /// A store keeps each tile once.
    pub proof fn lemma_listed_once(&self)
        requires
            self.wf(),
        ensures
            self@.wf(),
            forall|i: int|
                0 <= i < self@.order.len() ==> self@.at.contains_key(#[trigger] self@.order[i]),
    {
    }

    proof fn lemma_entry(&self, i: int)
        requires
            self.wf(),
            0 <= i < self.keys@.len(),
        ensures
            self@.at.contains_key(self.keys@[i]),
            self@.at[self.keys@[i]] == self.tiles@[i],
    {
        let k = self.keys@[i];
        assert(self.keys@.contains(k));
        let j = self.keys@.index_of(k);
        assert(self.keys@[j] == k);
    }

    pub fn new() -> (store: Self)
        ensures
            store.wf(),
            store@ == (TileMap { order: Seq::empty(), at: Map::empty() }),
    {
        let store = TileStore { index: HashMap::new(), keys: Vec::new(), tiles: Vec::new() };
        assert(store@.at =~= Map::empty());
        store
    }

    pub fn len(&self) -> (len: usize)
        ensures
            len == self@.order.len(),
    {
        self.keys.len()
    }

    fn find(&self, key: TileKey) -> (found: Option<usize>)
        requires
            self.wf(),
        ensures
            found is Some <==> self@.at.contains_key(key),
            found matches Some(i) ==> i < self.keys@.len() && self.keys@[i as int] == key
                && self.tiles@[i as int] == self@.at[key],
    {
        let n: u128 = key.number();
        match self.index.get(&n) {
            Some(i) => {
                proof {
                    lemma_tile_numbers_differ(self.keys@[*i as int], key);
                    self.lemma_entry(*i as int);
                }
                Some(*i)
            },
            None => {
                proof {
                    if self.keys@.contains(key) {
                        let i = choose|i: int| 0 <= i < self.keys@.len() && self.keys@[i] == key;
                        assert(self.index@.contains_key(tile_number(self.keys@[i]) as u128));
                    }
                }
                None
            },
        }
    }

    /// What is known of `key`.
    pub fn tile(&self, key: TileKey) -> (tile: Tile)
        requires
            self.wf(),
        ensures
            tile == self@.get(key),
    {
        match self.find(key) {
            Some(i) => self.tiles[i],
            None => Tile::unknown(),
        }
    }

    /// Puts `tile` at `key`.
    pub fn put(&mut self, key: TileKey, tile: Tile)
        requires
            old(self).wf(),
        ensures
            final(self).wf(),
            final(self)@ == old(self)@.put(key, tile),
    {
        match self.find(key) {
            Some(i) => {
                self.tiles.set(i, tile);
                proof {
                    assert forall|k: TileKey| self@.at.contains_key(k) implies #[trigger]
                        self@.at[k] == old(self)@.put(key, tile).at[k] by {
                        let j = self.keys@.index_of(k);
                        assert(self.keys@[j] == k);
                        old(self).lemma_entry(j);
                        self.lemma_entry(j);
                    }
                    assert(self@.at =~= old(self)@.put(key, tile).at);
                }
            },
            None => {
                let n: u128 = key.number();
                proof {
                    assert(!self.keys@.contains(key));
                    assert forall|i: int| 0 <= i < self.keys@.len() implies tile_number(
                        #[trigger] self.keys@[i],
                    ) != n by {
                        lemma_tile_numbers_differ(self.keys@[i], key);
                        assert(self.keys@.contains(self.keys@[i]));
                    }
                }
                self.index.insert(n, self.keys.len());
                self.keys.push(key);
                self.tiles.push(tile);
                proof {
                    lemma_tile_numbers_differ(key, key);
                    assert forall|i: int| 0 <= i < self.keys@.len() implies self.index@.contains_key(
                        tile_number(#[trigger] self.keys@[i]) as u128,
                    ) && self.index@[tile_number(self.keys@[i]) as u128] == i by {
                        lemma_tile_numbers_differ(self.keys@[i], key);
                        if i < old(self).keys@.len() {
                            assert(self.keys@[i] == old(self).keys@[i]);
                        }
                    }
                    assert forall|k: TileKey| self.keys@.contains(k) <==> (old(self).keys@.contains(
                        k,
                    ) || k == key) by {
                        if old(self).keys@.contains(k) {
                            let j = choose|j: int|
                                0 <= j < old(self).keys@.len() && old(self).keys@[j] == k;
                            assert(self.keys@[j] == k);
                        }
                        if k == key {
                            assert(self.keys@[self.keys@.len() - 1] == k);
                        }
                    }
                    assert forall|k: TileKey| self@.at.contains_key(k) implies #[trigger]
                        self@.at[k] == old(self)@.put(key, tile).at[k] by {
                        let j = self.keys@.index_of(k);
                        assert(self.keys@[j] == k);
                        self.lemma_entry(j);
                        if j < old(self).keys@.len() {
                            assert(old(self).keys@[j] == k);
                            old(self).lemma_entry(j);
                        }
                    }
                    assert(self@.at =~= old(self)@.put(key, tile).at);
                }
            },
        }
    }

    /// The key of the `i`-th tile.
    pub fn key_at(&self, i: usize) -> (key: TileKey)
        requires
            i < self@.order.len(),
        ensures
            key == self@.order[i as int],
    {
        self.keys[i]
    }

    /// Forgets every tile.
    pub fn clear(&mut self)
        ensures
            final(self).wf(),
            final(self)@ == (TileMap { order: Seq::empty(), at: Map::empty() }),
    {
        *self = TileStore::new();
    }
}

/// Tiles are listed in the order in which they were first put in a store: a new one comes
/// last, and none that is known moves.
pub proof fn lemma_put_keeps_places(tiles: TileMap, key: TileKey, tile: Tile)
    requires
        tiles.wf(),
    ensures
        tiles.order.contains(key) ==> tiles.put(key, tile).order == tiles.order,
        !tiles.order.contains(key) ==> tiles.put(key, tile).order == tiles.order + seq![key],
{
    assert(tiles.at.contains_key(key) <==> tiles.order.contains(key));
    assert(tiles.order + seq![key] =~= tiles.order.push(key));
}

} // verus!
