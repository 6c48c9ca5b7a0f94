//! The sparse tile store: a `hashbrown` map from tile coordinate to a flag.
//!
//! Verus cannot look inside the map, so its contents are named by
//! [`tile_states`] and every operation on it is a trusted wrapper around one
//! method of `hashbrown::HashMap`. The map sits in a struct that Verus does
//! not open: the map type itself cannot be declared to Verus, because its
//! allocator parameter is bound by a trait that Verus has no declaration of.

use vstd::prelude::*;

verus! {

/// A sparse map from tile coordinate `(x, z)` to a flag, kept in a
/// `hashbrown::HashMap`. Trusted: Verus takes the struct as it is and sees
/// nothing of the map in it.
#[verifier::external_body]
pub struct TileMap {
    inner: hashbrown::HashMap<(i32, i32), bool>,
}

/// The entries that a [`TileMap`] holds.
pub uninterp spec fn tile_states(tiles: TileMap) -> Map<(i32, i32), bool>;

/// The map without entries.
pub open spec fn no_tiles() -> Map<(i32, i32), bool> {
    Map::empty()
}

impl TileMap {
    /// Trusted: `hashbrown::HashMap::new` returns a map without entries.
    #[verifier::external_body]
    pub(crate) fn new() -> (tiles: TileMap)
        ensures
            tile_states(tiles) == no_tiles(),
    {
        TileMap { inner: hashbrown::HashMap::new() }
    }

    /// Trusted: `hashbrown::HashMap::insert` stores `value` under `key`,
    /// replacing the value of an entry that is already there, and leaves every
    /// other entry alone.
    #[verifier::external_body]
    pub(crate) fn insert(&mut self, key: (i32, i32), value: bool)
        ensures
            tile_states(*final(self)) == tile_states(*old(self)).insert(key, value),
    {
        self.inner.insert(key, value);
    }

    /// Trusted: `hashbrown::HashMap::remove` deletes the entry under `key`, if
    /// there is one, and leaves every other entry alone.
    #[verifier::external_body]
    pub(crate) fn remove(&mut self, key: (i32, i32))
        ensures
            tile_states(*final(self)) == tile_states(*old(self)).remove(key),
    {
        self.inner.remove(&key);
    }

    /// Trusted: `hashbrown::HashMap::get` returns the value stored under
    /// `key`, or `None` when the map has no such entry.
    #[verifier::external_body]
    pub(crate) fn get(&self, key: (i32, i32)) -> (value: Option<bool>)
        ensures
            value == (if tile_states(*self).dom().contains(key) {
                Some(tile_states(*self)[key])
            } else {
                None
            }),
    {
        self.inner.get(&key).copied()
    }

    /// Trusted: the `Clone` impl of `hashbrown::HashMap` returns a map with
    /// the same entries.
    #[verifier::external_body]
    pub(crate) fn duplicate(&self) -> (copy: TileMap)
        ensures
            tile_states(copy) == tile_states(*self),
    {
        TileMap { inner: self.inner.clone() }
    }
}

} // verus!
