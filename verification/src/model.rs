//! Mathematical model of a tile grid.
//!
//! A grid is a pair of dimensions together with a sequence of layers, each
//! layer a sequence of tiles in row-major order (the x coordinate varies
//! fastest). All contracts of the executable [`crate::grid::TileMap`] are
//! stated over this model.

use vstd::prelude::*;

verus! {

/// The abstract value of a tile grid: its dimensions and the tiles of each
/// layer, row by row.
#[verifier::ext_equal]
pub struct GridView {
    pub width: u32,
    pub height: u32,
    pub layers: Seq<Seq<u32>>,
}

/// A well-formed grid: the layer count fits the on-wire 32-bit field and
/// every layer holds exactly `width * height` tiles.
pub open spec fn grid_valid(g: GridView) -> bool {
    &&& g.layers.len() <= u32::MAX
    &&& forall|l: int|
        0 <= l < g.layers.len() ==> (#[trigger] g.layers[l]).len() == (g.width as nat) * (
        g.height as nat)
}

/// Whether `(x, y)` lies inside the grid's bounds.
pub open spec fn pos_in_bounds(g: GridView, x: u32, y: u32) -> bool {
    x < g.width && y < g.height
}

/// The row-major index of `(x, y)` inside one layer.
pub open spec fn tile_index(g: GridView, x: u32, y: u32) -> int {
    x + y * g.width
}

/// The tile stored at `(x, y)` on `layer`, or `None` when the position or
/// the layer is out of bounds.
pub open spec fn spec_get(g: GridView, x: u32, y: u32, layer: u32) -> Option<u32> {
    if pos_in_bounds(g, x, y) && (layer as int) < g.layers.len() {
        Some(g.layers[layer as int][tile_index(g, x, y)])
    } else {
        None
    }
}

/// The grid after overwriting the tile at `(x, y)` on `layer` with `tile`.
pub open spec fn spec_set(g: GridView, x: u32, y: u32, layer: u32, tile: u32) -> GridView {
    GridView {
        width: g.width,
        height: g.height,
        layers: g.layers.update(
            layer as int,
            g.layers[layer as int].update(tile_index(g, x, y), tile),
        ),
    }
}

/// The freshly constructed grid: `layer_count` layers of `width * height`
/// tiles each, layer 0 filled with `default`, every other layer with `0`.
pub open spec fn spec_new_grid(width: u32, height: u32, layer_count: u32, default: u32) -> GridView {
    GridView {
        width,
        height,
        layers: Seq::new(
            layer_count as nat,
            |l: int|
                Seq::new(
                    (width as nat) * (height as nat),
                    |i: int| if l == 0 { default } else { 0u32 },
                ),
        ),
    }
}

/// The abstract layers held by a vector of tile vectors.
pub open spec fn views_of(layers: Seq<Vec<u32>>) -> Seq<Seq<u32>> {
    Seq::new(layers.len(), |i: int| layers[i]@)
}

/// The product of two 32-bit values, plus one more 32-bit value, fits in 64
/// bits.
pub proof fn lemma_u32_mul_bound(y: int, w: int)
    by (nonlinear_arith)
    requires
        0 <= y <= 0xffff_ffff,
        0 <= w <= 0xffff_ffff,
    ensures
        y * w <= 0xffff_fffe_0000_0001,
{
}

/// The row-major index of an in-bounds position lies inside a layer.
pub proof fn lemma_tile_index_in_range(x: int, y: int, w: int, h: int)
    by (nonlinear_arith)
    requires
        0 <= x < w,
        0 <= y < h,
    ensures
        0 <= x + y * w < w * h,
{
}

/// Distinct in-bounds positions map to distinct row-major indices.
pub proof fn lemma_tile_index_injective(x1: int, y1: int, x2: int, y2: int, w: int, h: int)
    by (nonlinear_arith)
    requires
        0 <= x1 < w,
        0 <= y1 < h,
        0 <= x2 < w,
        0 <= y2 < h,
        (x1, y1) != (x2, y2),
    ensures
        x1 + y1 * w != x2 + y2 * w,
{
}

/// Construction yields a well-formed grid of exactly `layer_count` layers,
/// each of `width * height` tiles; layer 0 is filled with `default`, every
/// other layer with `0`.
pub proof fn lemma_new_grid_shape(width: u32, height: u32, layer_count: u32, default: u32)
    ensures
        grid_valid(spec_new_grid(width, height, layer_count, default)),
        spec_new_grid(width, height, layer_count, default).layers.len() == layer_count,
        forall|l: int, i: int|
            0 <= l < layer_count && 0 <= i < (width as nat) * (height as nat) ==> spec_new_grid(
                width,
                height,
                layer_count,
                default,
            ).layers[l][i] == if l == 0 {
                default
            } else {
                0u32
            },
{
}

/// Reading a freshly constructed grid returns the fill value of the layer
/// when position and layer are in bounds, and `None` otherwise.
pub proof fn lemma_new_grid_get(
    width: u32,
    height: u32,
    layer_count: u32,
    default: u32,
    x: u32,
    y: u32,
    layer: u32,
)
    ensures
        spec_get(spec_new_grid(width, height, layer_count, default), x, y, layer) == if x < width
            && y < height && layer < layer_count {
            Some(if layer == 0 { default } else { 0u32 })
        } else {
            None::<u32>
        },
{
    let g = spec_new_grid(width, height, layer_count, default);
    if x < width && y < height && layer < layer_count {
        lemma_tile_index_in_range(x as int, y as int, width as int, height as int);
    }
}

/// After a successful write, reading the written cell returns the new tile
/// and reading any other cell returns what it held before; the grid stays
/// well-formed.
pub proof fn lemma_set_get(
    g: GridView,
    x: u32,
    y: u32,
    layer: u32,
    tile: u32,
    x2: u32,
    y2: u32,
    layer2: u32,
)
    requires
        grid_valid(g),
        pos_in_bounds(g, x, y),
        (layer as int) < g.layers.len(),
    ensures
        grid_valid(spec_set(g, x, y, layer, tile)),
        spec_get(spec_set(g, x, y, layer, tile), x, y, layer) == Some(tile),
        !(x2 == x && y2 == y && layer2 == layer) ==> spec_get(spec_set(g, x, y, layer, tile), x2, y2, layer2)
            == spec_get(g, x2, y2, layer2),
{
    let s = spec_set(g, x, y, layer, tile);
    lemma_tile_index_in_range(x as int, y as int, g.width as int, g.height as int);
    if !(x2 == x && y2 == y && layer2 == layer) && pos_in_bounds(g, x2, y2) && (layer2 as int)
        < g.layers.len() {
        lemma_tile_index_in_range(x2 as int, y2 as int, g.width as int, g.height as int);
        if layer2 == layer && (x2, y2) != (x, y) {
            lemma_tile_index_injective(
                x as int,
                y as int,
                x2 as int,
                y2 as int,
                g.width as int,
                g.height as int,
            );
        }
    }
}

} // verus!
