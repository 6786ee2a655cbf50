//! The executable tile grid.
//!
//! A [`TileMap`] owns a fixed number of layers of `width * height` tiles in
//! row-major order. Its contracts are stated over the model in
//! [`crate::model`]; its byte encoding is the one specified in
//! [`crate::codec`].

use crate::codec::{
    decode_layers, lemma_decode_of_encode, lemma_encode_layers_push, lemma_encode_tiles_push,
    push_u32_le, push_u64_le, read_u32_le, read_u64_le, spec_decode, spec_encode, spec_encode_layer,
    spec_encode_layers, spec_encode_tiles, u64_le,
};
use crate::model::{
    grid_valid, lemma_tile_index_in_range, lemma_u32_mul_bound, pos_in_bounds, spec_get,
    spec_new_grid, spec_set, tile_index, views_of, GridView,
};
use vstd::prelude::*;

verus! {

/// Why a grid operation failed.
#[derive(Clone, Copy, Debug, PartialEq, Eq, Structural)]
pub enum TileMapError {
    /// A supplied coordinate lies outside the grid's bounds.
    InvalidPosition,
    /// A supplied layer index is not smaller than the layer count.
    InvalidLayer,
    /// Writing the encoded grid to its destination failed.
    WriteError,
    /// The bytes are not the encoding of a well-formed grid.
    ReadError,
}

/// A fixed-size, multi-layer tile grid of unsigned 32-bit tile identifiers,
/// stored per layer in row-major order.
#[derive(Debug, PartialEq)]
pub struct TileMap {
    tiles: Vec<Vec<u32>>,
    size: (u32, u32),
    layer_count: u32,
}

impl View for TileMap {
    type V = GridView;

    closed spec fn view(&self) -> GridView {
        GridView { width: self.size.0, height: self.size.1, layers: views_of(self.tiles@) }
    }
}

impl TileMap {
    /// The stored data matches its model: one tile vector per counted
    /// layer, each of exactly `width * height` tiles.
    pub closed spec fn wf(&self) -> bool {
        &&& grid_valid(self@)
        &&& self.tiles@.len() == self.layer_count as nat
    }

    /// A well-formed grid has a well-formed model.
    pub proof fn lemma_wf_valid(&self)
        requires
            self.wf(),
        ensures
            grid_valid(self@),
    {
    }

    /// Round trip: a well-formed grid's encoding decodes to exactly its
    /// model, so `read` on the bytes of `write` succeeds and yields a grid
    /// equal in size, layer count and every tile.
    pub proof fn lemma_write_read_round_trip(&self)
        requires
            self.wf(),
        ensures
            spec_decode(spec_encode(self@)) == Some(self@),
    {
        lemma_decode_of_encode(self@);
    }

    /// Creates a grid of the given size with the given number of layers.
    /// Layer 0 is filled with `default`, every other layer with `0`.
    pub fn new(size: (u32, u32), layer_count: u32, default: u32) -> (r: TileMap)
        requires
            (size.0 as nat) * (size.1 as nat) <= usize::MAX,
        ensures
            r.wf(),
            r@ == spec_new_grid(size.0, size.1, layer_count, default),
    {
        let count: usize = (size.0 as usize) * (size.1 as usize);
        let g = Ghost(spec_new_grid(size.0, size.1, layer_count, default));
        let mut tiles: Vec<Vec<u32>> = Vec::new();
        let mut l: u32 = 0;
        while l < layer_count
            invariant
                l <= layer_count,
                tiles@.len() == l as nat,
                count == (size.0 as nat) * (size.1 as nat),
                g@ == spec_new_grid(size.0, size.1, layer_count, default),
                forall|j: int| 0 <= j < l ==> (#[trigger] tiles@[j])@ == g@.layers[j],
            decreases layer_count - l,
        {
            let fill: u32 = if l == 0 {
                default
            } else {
                0
            };
            let layer = filled(fill, count);
            proof {
                assert(layer@ =~= g@.layers[l as int]);
            }
            tiles.push(layer);
            l = l + 1;
        }
        let r = TileMap { tiles, size, layer_count };
        proof {
            assert(views_of(r.tiles@) =~= g@.layers);
            assert(r@ =~= g@);
        }
        r
    }

    /// The grid's size as `(width, height)`.
    pub fn size(&self) -> (s: (u32, u32))
        ensures
            s == (self@.width, self@.height),
    {
        self.size
    }

    /// The number of layers.
    pub fn layer_count(&self) -> (n: u32)
        requires
            self.wf(),
        ensures
            n as nat == self@.layers.len(),
    {
        self.layer_count
    }

    /// The row-major index of `position`, or `None` when it is out of the
    /// grid's bounds. The single source of truth for the storage layout.
    fn compute_index(&self, position: (u32, u32)) -> (r: Option<u64>)
        ensures
            r is Some <==> pos_in_bounds(self@, position.0, position.1),
            r is Some ==> r->Some_0 as int == tile_index(self@, position.0, position.1),
    {
        let (x, y) = position;
        if x >= self.size.0 || y >= self.size.1 {
            return None;
        }
        proof {
            lemma_u32_mul_bound(y as int, self.size.0 as int);
        }
        Some((x as u64) + (y as u64) * (self.size.0 as u64))
    }

    /// The tile at `position` on `layer`, or `None` when the position or
    /// the layer is out of bounds.
    pub fn get_tile(&self, position: (u32, u32), layer: u32) -> (r: Option<u32>)
        requires
            self.wf(),
        ensures
            r == spec_get(self@, position.0, position.1, layer),
    {
        let index = match self.compute_index(position) {
            Some(index) => index,
            None => {
                return None;
            },
        };
        if (layer as usize) >= self.tiles.len() {
            return None;
        }
        proof {
            lemma_tile_index_in_range(
                position.0 as int,
                position.1 as int,
                self@.width as int,
                self@.height as int,
            );
            assert(self@.layers[layer as int] == self.tiles@[layer as int]@);
        }
        let row = &self.tiles[layer as usize];
        let row_len: usize = row.len();
        assert((index as int) < (row_len as int));
        Some(row[index as usize])
    }

    /// Overwrites the tile at `position` on `layer`. Fails with
    /// `InvalidPosition` when the position is out of bounds, then with
    /// `InvalidLayer` when the layer is; on failure the grid is unchanged.
    pub fn set_tile(&mut self, position: (u32, u32), layer: u32, tile: u32) -> (r: Result<
        (),
        TileMapError,
    >)
        requires
            old(self).wf(),
        ensures
            final(self).wf(),
            ({
                let g = old(self)@;
                let x = position.0;
                let y = position.1;
                if !pos_in_bounds(g, x, y) {
                    r == Err::<(), TileMapError>(TileMapError::InvalidPosition) && final(self)@
                        == g
                } else if !((layer as int) < g.layers.len()) {
                    r == Err::<(), TileMapError>(TileMapError::InvalidLayer) && final(self)@ == g
                } else {
                    r == Ok::<(), TileMapError>(()) && final(self)@ == spec_set(g, x, y, layer, tile)
                }
            }),
    {
        let index = match self.compute_index(position) {
            Some(index) => index,
            None => {
                return Err(TileMapError::InvalidPosition);
            },
        };
        if (layer as usize) >= self.tiles.len() {
            return Err(TileMapError::InvalidLayer);
        }
        proof {
            lemma_tile_index_in_range(
                position.0 as int,
                position.1 as int,
                self@.width as int,
                self@.height as int,
            );
            assert(self@.layers[layer as int] == self.tiles@[layer as int]@);
        }
        let row = &mut self.tiles[layer as usize];
        let row_len: usize = row.len();
        assert((index as int) < (row_len as int));
        row[index as usize] = tile;
        proof {
            let s = spec_set(old(self)@, position.0, position.1, layer, tile);
            assert(views_of(self.tiles@) =~= s.layers);
            assert(self@ =~= s);
        }
        Ok(())
    }

    /// Encodes the whole grid into the deterministic byte format of
    /// [`crate::codec`].
    pub fn write(&self) -> (bytes: Vec<u8>)
        requires
            self.wf(),
        ensures
            bytes@ == spec_encode(self@),
    {
        let mut out: Vec<u8> = Vec::new();
        push_u64_le(&mut out, self.layer_count as u64);
        let mut l: usize = 0;
        proof {
            assert(spec_encode_layers(self@.layers.take(0)) =~= Seq::<u8>::empty());
            assert(out@ =~= u64_le(self@.layers.len() as u64) + spec_encode_layers(
                self@.layers.take(0),
            ));
        }
        while l < self.tiles.len()
            invariant
                self.wf(),
                l <= self.tiles@.len(),
                out@ == u64_le(self@.layers.len() as u64) + spec_encode_layers(
                    self@.layers.take(l as int),
                ),
            decreases self.tiles@.len() - l,
        {
            let layer = &self.tiles[l];
            let mut t: usize = 0;
            push_u64_le(&mut out, layer.len() as u64);
            let pre = Ghost(out@);
            proof {
                assert(spec_encode_tiles(layer@.take(0)) =~= Seq::<u8>::empty());
                assert(out@ =~= pre@ + spec_encode_tiles(layer@.take(0)));
            }
            while t < layer.len()
                invariant
                    t <= layer@.len(),
                    out@ == pre@ + spec_encode_tiles(layer@.take(t as int)),
                decreases layer@.len() - t,
            {
                push_u32_le(&mut out, layer[t]);
                proof {
                    assert(layer@.take(t as int + 1) =~= layer@.take(t as int).push(
                        layer@[t as int],
                    ));
                    lemma_encode_tiles_push(layer@.take(t as int), layer@[t as int]);
                    assert(out@ =~= pre@ + spec_encode_tiles(layer@.take(t as int + 1)));
                }
                t = t + 1;
            }
            proof {
                assert(layer@.take(layer@.len() as int) =~= layer@);
                assert(self@.layers[l as int] == layer@);
                assert(out@ =~= u64_le(self@.layers.len() as u64) + (spec_encode_layers(
                    self@.layers.take(l as int),
                ) + spec_encode_layer(layer@)));
                assert(self@.layers.take(l as int + 1) =~= self@.layers.take(l as int).push(
                    layer@,
                ));
                lemma_encode_layers_push(self@.layers.take(l as int), layer@);
                assert(out@ =~= u64_le(self@.layers.len() as u64) + spec_encode_layers(
                    self@.layers.take(l as int + 1),
                ));
            }
            l = l + 1;
        }
        proof {
            assert(self@.layers.take(self@.layers.len() as int) =~= self@.layers);
        }
        push_u32_le(&mut out, self.size.0);
        push_u32_le(&mut out, self.size.1);
        push_u32_le(&mut out, self.layer_count);
        proof {
            assert(out@ =~= spec_encode(self@));
        }
        out
    }

    /// Decodes a grid from bytes produced by [`TileMap::write`]. Fails with
    /// `ReadError` on anything that is not exactly the encoding of a
    /// well-formed grid, and on success returns that grid.
    #[verifier::loop_isolation(false)]
    pub fn read(bytes: &Vec<u8>) -> (r: Result<TileMap, TileMapError>)
        ensures
            match r {
                Ok(m) => m.wf() && spec_decode(bytes@) == Some(m@),
                Err(e) => e == TileMapError::ReadError && spec_decode(bytes@) is None,
            },
    {
        let len: usize = bytes.len();
        if len < 8 {
            return Err(TileMapError::ReadError);
        }
        let n = read_u64_le(bytes, 0);
        proof {
            assert(bytes@.skip(0) =~= bytes@);
        }
        let parsed = decode_layers(bytes, 8, n);
        match parsed {
            None => Err(TileMapError::ReadError),
            Some((layers, end)) => {
                if len - end != 12 {
                    return Err(TileMapError::ReadError);
                }
                let width = read_u32_le(bytes, end);
                let height = read_u32_le(bytes, end + 4);
                let count = read_u32_le(bytes, end + 8);
                let rest = Ghost(bytes@.skip(end as int));
                proof {
                    assert(rest@.skip(4) =~= bytes@.skip(end as int + 4));
                    assert(rest@.skip(8) =~= bytes@.skip(end as int + 8));
                }
                let decoded = Ghost(
                    GridView { width, height, layers: views_of(layers@) },
                );
                if (count as u64) != n {
                    return Err(TileMapError::ReadError);
                }
                proof {
                    lemma_u32_mul_bound(width as int, height as int);
                }
                let target: u64 = (width as u64) * (height as u64);
                let mut l: usize = 0;
                while l < layers.len()
                    invariant
                        l <= layers@.len(),
                        target == (width as nat) * (height as nat),
                        decoded@.layers == views_of(layers@),
                        decoded@.width == width,
                        decoded@.height == height,
                        forall|j: int|
                            0 <= j < l ==> (#[trigger] decoded@.layers[j]).len() == target as nat,
                    decreases layers@.len() - l,
                {
                    if layers[l].len() as u64 != target {
                        proof {
                            assert(decoded@.layers[l as int].len() != (decoded@.width as nat) * (
                            decoded@.height as nat));
                            assert(!grid_valid(decoded@));
                        }
                        return Err(TileMapError::ReadError);
                    }
                    l = l + 1;
                }
                let r = TileMap { tiles: layers, size: (width, height), layer_count: count };
                proof {
                    assert(grid_valid(decoded@));
                    assert(r@ =~= decoded@);
                    assert(r.tiles@.len() == decoded@.layers.len());
                    assert(decoded@.layers.len() == n as nat);
                }
                Ok(r)
            },
        }
    }
}

/// A vector of `count` copies of `value`.
fn filled(value: u32, count: usize) -> (v: Vec<u32>)
    ensures
        v@ == Seq::new(count as nat, |i: int| value),
{
    let mut v: Vec<u32> = Vec::new();
    let mut i: usize = 0;
    while i < count
        invariant
            i <= count,
            v@ =~= Seq::new(i as nat, |j: int| value),
        decreases count - i,
    {
        v.push(value);
        proof {
            assert(v@ =~= Seq::new(i as nat + 1, |j: int| value));
        }
        i = i + 1;
    }
    v
}

} // verus!
