//! The binary persistence format of a tile grid.
//!
//! The encoding is a fixed, deterministic little-endian layout:
//! a 64-bit layer count, then each layer as a 64-bit tile count followed by
//! that many 32-bit tiles in row-major order, then the width, the height and
//! the layer count again as 32-bit integers. Decoding accepts exactly the
//! encodings of well-formed grids and rejects everything else.

use crate::model::{grid_valid, views_of, GridView};
use vstd::prelude::*;

verus! {

/// The four bytes of `v`, least significant first.
pub open spec fn u32_le(v: u32) -> Seq<u8> {
    seq![
        (v & 0xff) as u8,
        ((v >> 8) & 0xff) as u8,
        ((v >> 16) & 0xff) as u8,
        ((v >> 24) & 0xff) as u8,
    ]
}

/// The eight bytes of `v`, least significant first.
pub open spec fn u64_le(v: u64) -> Seq<u8> {
    seq![
        (v & 0xff) as u8,
        ((v >> 8) & 0xff) as u8,
        ((v >> 16) & 0xff) as u8,
        ((v >> 24) & 0xff) as u8,
        ((v >> 32) & 0xff) as u8,
        ((v >> 40) & 0xff) as u8,
        ((v >> 48) & 0xff) as u8,
        ((v >> 56) & 0xff) as u8,
    ]
}

/// The integer read from the first four bytes of `b`, least significant
/// first.
pub open spec fn u32_from_le(b: Seq<u8>) -> u32
    recommends
        b.len() >= 4,
{
    (b[0] as u32) | (b[1] as u32) << 8 | (b[2] as u32) << 16 | (b[3] as u32) << 24
}

/// The integer read from the first eight bytes of `b`, least significant
/// first.
pub open spec fn u64_from_le(b: Seq<u8>) -> u64
    recommends
        b.len() >= 8,
{
    (b[0] as u64) | (b[1] as u64) << 8 | (b[2] as u64) << 16 | (b[3] as u64) << 24 | (b[4] as u64)
        << 32 | (b[5] as u64) << 40 | (b[6] as u64) << 48 | (b[7] as u64) << 56
}

/// Reading back the bytes of a 32-bit integer yields the integer.
pub proof fn lemma_u32_le_round_trip(v: u32)
    ensures
        u32_from_le(u32_le(v)) == v,
{
    assert((((v & 0xff) as u8) as u32) | ((((v >> 8) & 0xff) as u8) as u32) << 8 | ((((v >> 16)
        & 0xff) as u8) as u32) << 16 | ((((v >> 24) & 0xff) as u8) as u32) << 24 == v)
        by (bit_vector);
}

/// Re-encoding the integer read from four bytes yields the same four bytes.
pub proof fn lemma_u32_le_exact(b: Seq<u8>)
    requires
        b.len() == 4,
    ensures
        u32_le(u32_from_le(b)) == b,
{
    let b0 = b[0] as u32;
    let b1 = b[1] as u32;
    let b2 = b[2] as u32;
    let b3 = b[3] as u32;
    let v = u32_from_le(b);
    assert(b0 < 256 && b1 < 256 && b2 < 256 && b3 < 256 && v == b0 | b1 << 8 | b2 << 16 | b3 << 24
        ==> ((v & 0xff) == b0 && ((v >> 8) & 0xff) == b1 && ((v >> 16) & 0xff) == b2 && ((v >> 24)
        & 0xff) == b3)) by (bit_vector);
    assert(u32_le(v) =~= b);
}

/// Reading back the bytes of a 64-bit integer yields the integer.
pub proof fn lemma_u64_le_round_trip(v: u64)
    ensures
        u64_from_le(u64_le(v)) == v,
{
    assert((((v & 0xff) as u8) as u64) | ((((v >> 8) & 0xff) as u8) as u64) << 8 | ((((v >> 16)
        & 0xff) as u8) as u64) << 16 | ((((v >> 24) & 0xff) as u8) as u64) << 24 | ((((v >> 32)
        & 0xff) as u8) as u64) << 32 | ((((v >> 40) & 0xff) as u8) as u64) << 40 | ((((v >> 48)
        & 0xff) as u8) as u64) << 48 | ((((v >> 56) & 0xff) as u8) as u64) << 56 == v)
        by (bit_vector);
}

/// Re-encoding the integer read from eight bytes yields the same eight
/// bytes.
pub proof fn lemma_u64_le_exact(b: Seq<u8>)
    requires
        b.len() == 8,
    ensures
        u64_le(u64_from_le(b)) == b,
{
    let b0 = b[0] as u64;
    let b1 = b[1] as u64;
    let b2 = b[2] as u64;
    let b3 = b[3] as u64;
    let b4 = b[4] as u64;
    let b5 = b[5] as u64;
    let b6 = b[6] as u64;
    let b7 = b[7] as u64;
    let v = u64_from_le(b);
    assert(b0 < 256 && b1 < 256 && b2 < 256 && b3 < 256 && b4 < 256 && b5 < 256 && b6 < 256 && b7
        < 256 && v == b0 | b1 << 8 | b2 << 16 | b3 << 24 | b4 << 32 | b5 << 40 | b6 << 48 | b7 << 56
        ==> ((v & 0xff) == b0 && ((v >> 8) & 0xff) == b1 && ((v >> 16) & 0xff) == b2 && ((v >> 24)
        & 0xff) == b3 && ((v >> 32) & 0xff) == b4 && ((v >> 40) & 0xff) == b5 && ((v >> 48) & 0xff)
        == b6 && ((v >> 56) & 0xff) == b7)) by (bit_vector);
    assert(u64_le(v) =~= b);
}

/// The tiles of one layer, each as four little-endian bytes, in order.
pub open spec fn spec_encode_tiles(tiles: Seq<u32>) -> Seq<u8>
    decreases tiles.len(),
{
    if tiles.len() == 0 {
        Seq::empty()
    } else {
        u32_le(tiles[0]) + spec_encode_tiles(tiles.drop_first())
    }
}

/// One layer: its tile count as eight bytes, then its tiles.
pub open spec fn spec_encode_layer(tiles: Seq<u32>) -> Seq<u8> {
    u64_le(tiles.len() as u64) + spec_encode_tiles(tiles)
}

/// All layers, in order.
pub open spec fn spec_encode_layers(layers: Seq<Seq<u32>>) -> Seq<u8>
    decreases layers.len(),
{
    if layers.len() == 0 {
        Seq::empty()
    } else {
        spec_encode_layer(layers[0]) + spec_encode_layers(layers.drop_first())
    }
}

/// The full encoding of a grid: the layer count as eight bytes, the layers,
/// then width, height and the layer count again as four bytes each.
pub open spec fn spec_encode(g: GridView) -> Seq<u8> {
    u64_le(g.layers.len() as u64) + spec_encode_layers(g.layers) + u32_le(g.width) + u32_le(g.height)
        + u32_le(g.layers.len() as u32)
}

/// Reads `n` tiles of four bytes each from the front of `b`; yields the
/// tiles and the remaining bytes, or `None` when `b` is too short.
pub open spec fn spec_decode_tiles(b: Seq<u8>, n: nat) -> Option<(Seq<u32>, Seq<u8>)>
    decreases n,
{
    if n == 0 {
        Some((Seq::empty(), b))
    } else if b.len() < 4 {
        None
    } else {
        match spec_decode_tiles(b.skip(4), (n - 1) as nat) {
            Some((tiles, rest)) => Some((seq![u32_from_le(b)] + tiles, rest)),
            None => None,
        }
    }
}

/// Reads one layer from the front of `b`: an eight-byte tile count, then
/// that many tiles.
pub open spec fn spec_decode_layer(b: Seq<u8>) -> Option<(Seq<u32>, Seq<u8>)> {
    if b.len() < 8 {
        None
    } else {
        spec_decode_tiles(b.skip(8), u64_from_le(b) as nat)
    }
}

/// Reads `n` layers from the front of `b`.
pub open spec fn spec_decode_layers(b: Seq<u8>, n: nat) -> Option<(Seq<Seq<u32>>, Seq<u8>)>
    decreases n,
{
    if n == 0 {
        Some((Seq::empty(), b))
    } else {
        match spec_decode_layer(b) {
            Some((layer, rest1)) => match spec_decode_layers(rest1, (n - 1) as nat) {
                Some((layers, rest)) => Some((seq![layer] + layers, rest)),
                None => None,
            },
            None => None,
        }
    }
}

/// The grid encoded in `b`, or `None` when `b` is not exactly the encoding
/// of a well-formed grid: too short, truncated inside a layer, followed by
/// trailing bytes, carrying a layer count that contradicts the leading one,
/// or carrying a layer whose tile count is not `width * height`.
pub open spec fn spec_decode(b: Seq<u8>) -> Option<GridView> {
    if b.len() < 8 {
        None
    } else {
        let n = u64_from_le(b);
        match spec_decode_layers(b.skip(8), n as nat) {
            Some((layers, rest)) => {
                if rest.len() != 12 {
                    None
                } else {
                    let g = GridView {
                        width: u32_from_le(rest),
                        height: u32_from_le(rest.skip(4)),
                        layers,
                    };
                    if u32_from_le(rest.skip(8)) as u64 == n && grid_valid(g) {
                        Some(g)
                    } else {
                        None
                    }
                }
            },
            None => None,
        }
    }
}

proof fn lemma_decode_tiles_of_encode(tiles: Seq<u32>, rest: Seq<u8>)
    ensures
        spec_decode_tiles(spec_encode_tiles(tiles) + rest, tiles.len()) == Some((tiles, rest)),
    decreases tiles.len(),
{
    let b = spec_encode_tiles(tiles) + rest;
    if tiles.len() == 0 {
        assert(b =~= rest);
        assert(spec_decode_tiles(b, 0) == Some((Seq::<u32>::empty(), rest)));
        assert(Seq::<u32>::empty() =~= tiles);
    } else {
        let tail = tiles.drop_first();
        lemma_decode_tiles_of_encode(tail, rest);
        assert(b =~= u32_le(tiles[0]) + (spec_encode_tiles(tail) + rest));
        assert(b.skip(4) =~= spec_encode_tiles(tail) + rest);
        assert(b[0] == u32_le(tiles[0])[0]);
        assert(b[1] == u32_le(tiles[0])[1]);
        assert(b[2] == u32_le(tiles[0])[2]);
        assert(b[3] == u32_le(tiles[0])[3]);
        lemma_u32_le_round_trip(tiles[0]);
        assert(u32_from_le(b) == tiles[0]);
        assert(seq![tiles[0]] + tail =~= tiles);
    }
}

proof fn lemma_decode_layer_of_encode(tiles: Seq<u32>, rest: Seq<u8>)
    requires
        tiles.len() <= u64::MAX,
    ensures
        spec_decode_layer(spec_encode_layer(tiles) + rest) == Some((tiles, rest)),
{
    let b = spec_encode_layer(tiles) + rest;
    let n = tiles.len() as u64;
    assert(b =~= u64_le(n) + (spec_encode_tiles(tiles) + rest));
    assert(b[0] == u64_le(n)[0]);
    assert(b[1] == u64_le(n)[1]);
    assert(b[2] == u64_le(n)[2]);
    assert(b[3] == u64_le(n)[3]);
    assert(b[4] == u64_le(n)[4]);
    assert(b[5] == u64_le(n)[5]);
    assert(b[6] == u64_le(n)[6]);
    assert(b[7] == u64_le(n)[7]);
    lemma_u64_le_round_trip(n);
    assert(u64_from_le(b) == n);
    assert(b.skip(8) =~= spec_encode_tiles(tiles) + rest);
    lemma_decode_tiles_of_encode(tiles, rest);
}

proof fn lemma_decode_layers_of_encode(layers: Seq<Seq<u32>>, rest: Seq<u8>)
    requires
        forall|l: int| 0 <= l < layers.len() ==> (#[trigger] layers[l]).len() <= u64::MAX,
    ensures
        spec_decode_layers(spec_encode_layers(layers) + rest, layers.len()) == Some(
            (layers, rest),
        ),
    decreases layers.len(),
{
    let b = spec_encode_layers(layers) + rest;
    if layers.len() == 0 {
        assert(b =~= rest);
        assert(Seq::<Seq<u32>>::empty() =~= layers);
    } else {
        let tail = layers.drop_first();
        assert(b =~= spec_encode_layer(layers[0]) + (spec_encode_layers(tail) + rest));
        lemma_decode_layer_of_encode(layers[0], spec_encode_layers(tail) + rest);
        lemma_decode_layers_of_encode(tail, rest);
        assert(seq![layers[0]] + tail =~= layers);
    }
}

/// Round trip: decoding the encoding of any well-formed grid yields exactly
/// that grid.
pub proof fn lemma_decode_of_encode(g: GridView)
    requires
        grid_valid(g),
    ensures
        spec_decode(spec_encode(g)) == Some(g),
{
    let b = spec_encode(g);
    let n = g.layers.len() as u64;
    let tail = u32_le(g.width) + u32_le(g.height) + u32_le(g.layers.len() as u32);
    assert(b =~= u64_le(n) + (spec_encode_layers(g.layers) + tail));
    assert(b[0] == u64_le(n)[0]);
    assert(b[1] == u64_le(n)[1]);
    assert(b[2] == u64_le(n)[2]);
    assert(b[3] == u64_le(n)[3]);
    assert(b[4] == u64_le(n)[4]);
    assert(b[5] == u64_le(n)[5]);
    assert(b[6] == u64_le(n)[6]);
    assert(b[7] == u64_le(n)[7]);
    lemma_u64_le_round_trip(n);
    assert(u64_from_le(b) == n);
    assert(b.skip(8) =~= spec_encode_layers(g.layers) + tail);
    assert(forall|l: int|
        0 <= l < g.layers.len() ==> (#[trigger] g.layers[l]).len() <= u64::MAX) by {
        assert(forall|l: int|
            0 <= l < g.layers.len() ==> (#[trigger] g.layers[l]).len() == (g.width as nat) * (
            g.height as nat));
        assert((g.width as nat) * (g.height as nat) <= u64::MAX) by (nonlinear_arith)
            requires
                g.width <= u32::MAX,
                g.height <= u32::MAX,
        ;
    }
    lemma_decode_layers_of_encode(g.layers, tail);
    assert(tail.len() == 12);
    let w = g.layers.len() as u32;
    assert(tail[0] == u32_le(g.width)[0]);
    assert(tail[1] == u32_le(g.width)[1]);
    assert(tail[2] == u32_le(g.width)[2]);
    assert(tail[3] == u32_le(g.width)[3]);
    lemma_u32_le_round_trip(g.width);
    assert(u32_from_le(tail) == g.width);
    assert(tail.skip(4) =~= u32_le(g.height) + u32_le(w));
    assert(tail.skip(4)[0] == u32_le(g.height)[0]);
    assert(tail.skip(4)[1] == u32_le(g.height)[1]);
    assert(tail.skip(4)[2] == u32_le(g.height)[2]);
    assert(tail.skip(4)[3] == u32_le(g.height)[3]);
    lemma_u32_le_round_trip(g.height);
    assert(u32_from_le(tail.skip(4)) == g.height);
    assert(tail.skip(8) =~= u32_le(w));
    lemma_u32_le_round_trip(w);
    assert(u32_from_le(tail.skip(8)) == w);
    assert(w as u64 == n);
    let d = GridView { width: g.width, height: g.height, layers: g.layers };
    assert(d =~= g);
}

proof fn lemma_encode_tiles_of_decode(b: Seq<u8>, n: nat)
    requires
        spec_decode_tiles(b, n) is Some,
    ensures
        ({
            let (tiles, rest) = spec_decode_tiles(b, n)->Some_0;
            &&& tiles.len() == n
            &&& b =~= spec_encode_tiles(tiles) + rest
        }),
    decreases n,
{
    let (tiles, rest) = spec_decode_tiles(b, n)->Some_0;
    if n == 0 {
        assert(b =~= spec_encode_tiles(tiles) + rest);
    } else {
        let (tail, _rest2) = spec_decode_tiles(b.skip(4), (n - 1) as nat)->Some_0;
        lemma_encode_tiles_of_decode(b.skip(4), (n - 1) as nat);
        let head = seq![b[0], b[1], b[2], b[3]];
        assert(u32_le(u32_from_le(b)) == head) by {
            assert(u32_from_le(head) == u32_from_le(b));
            lemma_u32_le_exact(head);
        }
        assert(tiles == seq![u32_from_le(b)] + tail);
        assert(tiles.drop_first() =~= tail);
        assert(b =~= head + b.skip(4));
        assert(b =~= u32_le(tiles[0]) + (spec_encode_tiles(tail) + rest));
        assert(b =~= spec_encode_tiles(tiles) + rest);
    }
}

proof fn lemma_encode_layer_of_decode(b: Seq<u8>)
    requires
        spec_decode_layer(b) is Some,
    ensures
        ({
            let (tiles, rest) = spec_decode_layer(b)->Some_0;
            b =~= spec_encode_layer(tiles) + rest
        }),
{
    let (tiles, rest) = spec_decode_layer(b)->Some_0;
    let n = u64_from_le(b);
    lemma_encode_tiles_of_decode(b.skip(8), n as nat);
    let head = seq![b[0], b[1], b[2], b[3], b[4], b[5], b[6], b[7]];
    assert(u64_le(n) == head) by {
        assert(u64_from_le(head) == n);
        lemma_u64_le_exact(head);
    }
    assert(tiles.len() == n as nat);
    assert(tiles.len() as u64 == n);
    assert(b =~= head + b.skip(8));
    assert(b =~= u64_le(n) + (spec_encode_tiles(tiles) + rest));
    assert(b =~= spec_encode_layer(tiles) + rest);
}

proof fn lemma_encode_layers_of_decode(b: Seq<u8>, n: nat)
    requires
        spec_decode_layers(b, n) is Some,
    ensures
        ({
            let (layers, rest) = spec_decode_layers(b, n)->Some_0;
            &&& layers.len() == n
            &&& b =~= spec_encode_layers(layers) + rest
        }),
    decreases n,
{
    let (layers, rest) = spec_decode_layers(b, n)->Some_0;
    if n == 0 {
        assert(b =~= spec_encode_layers(layers) + rest);
    } else {
        let (layer, rest1) = spec_decode_layer(b)->Some_0;
        lemma_encode_layer_of_decode(b);
        lemma_encode_layers_of_decode(rest1, (n - 1) as nat);
        let (tail, _rest2) = spec_decode_layers(rest1, (n - 1) as nat)->Some_0;
        assert(layers == seq![layer] + tail);
        assert(layers.drop_first() =~= tail);
        assert(b =~= spec_encode_layer(layer) + (spec_encode_layers(tail) + rest));
        assert(b =~= spec_encode_layers(layers) + rest);
    }
}

/// Exactness: a decoded grid is well-formed and the decoded bytes are
/// exactly its encoding, so decoding accepts nothing but complete, exact
/// encodings.
pub proof fn lemma_encode_of_decode(b: Seq<u8>)
    requires
        spec_decode(b) is Some,
    ensures
        grid_valid(spec_decode(b)->Some_0),
        spec_encode(spec_decode(b)->Some_0) == b,
{
    let g = spec_decode(b)->Some_0;
    let n = u64_from_le(b);
    let (layers, rest) = spec_decode_layers(b.skip(8), n as nat)->Some_0;
    lemma_encode_layers_of_decode(b.skip(8), n as nat);
    let head = seq![b[0], b[1], b[2], b[3], b[4], b[5], b[6], b[7]];
    assert(u64_le(n) == head) by {
        assert(u64_from_le(head) == n);
        lemma_u64_le_exact(head);
    }
    assert(g.layers == layers);
    assert(g.layers.len() == n as nat);
    assert(g.layers.len() as u64 == n);
    let hw = seq![rest[0], rest[1], rest[2], rest[3]];
    assert(u32_le(g.width) == hw) by {
        assert(u32_from_le(hw) == g.width);
        lemma_u32_le_exact(hw);
    }
    let hh = seq![rest.skip(4)[0], rest.skip(4)[1], rest.skip(4)[2], rest.skip(4)[3]];
    assert(u32_le(g.height) == hh) by {
        assert(u32_from_le(hh) == g.height);
        lemma_u32_le_exact(hh);
    }
    let lc = u32_from_le(rest.skip(8));
    let hl = seq![rest.skip(8)[0], rest.skip(8)[1], rest.skip(8)[2], rest.skip(8)[3]];
    assert(u32_le(lc) == hl) by {
        assert(u32_from_le(hl) == lc);
        lemma_u32_le_exact(hl);
    }
    assert(lc as u64 == n);
    assert(lc == g.layers.len() as u32);
    assert(rest =~= hw + hh + hl);
    assert(b =~= head + b.skip(8));
    assert(b =~= u64_le(g.layers.len() as u64) + (spec_encode_layers(g.layers) + rest));
    assert(b =~= u64_le(g.layers.len() as u64) + spec_encode_layers(g.layers) + u32_le(g.width)
        + u32_le(g.height) + u32_le(g.layers.len() as u32));
}

/// Appending one tile to a layer appends its four bytes to the layer's
/// tile encoding.
pub proof fn lemma_encode_tiles_push(tiles: Seq<u32>, v: u32)
    ensures
        spec_encode_tiles(tiles.push(v)) == spec_encode_tiles(tiles) + u32_le(v),
    decreases tiles.len(),
{
    let p = tiles.push(v);
    if tiles.len() == 0 {
        assert(p[0] == v);
        assert(p.drop_first() =~= Seq::<u32>::empty());
        assert(spec_encode_tiles(p.drop_first()) == Seq::<u8>::empty());
        assert(spec_encode_tiles(p) == u32_le(v) + Seq::<u8>::empty());
        assert(spec_encode_tiles(p) =~= spec_encode_tiles(tiles) + u32_le(v));
    } else {
        assert(p.drop_first() =~= tiles.drop_first().push(v));
        lemma_encode_tiles_push(tiles.drop_first(), v);
        assert(p[0] == tiles[0]);
        assert(spec_encode_tiles(p) == u32_le(tiles[0]) + (spec_encode_tiles(tiles.drop_first())
            + u32_le(v)));
        assert(spec_encode_tiles(tiles) == u32_le(tiles[0]) + spec_encode_tiles(
            tiles.drop_first(),
        ));
        assert(spec_encode_tiles(p) =~= spec_encode_tiles(tiles) + u32_le(v));
    }
}

/// Appending one layer to the layer sequence appends that layer's encoding.
pub proof fn lemma_encode_layers_push(layers: Seq<Seq<u32>>, layer: Seq<u32>)
    ensures
        spec_encode_layers(layers.push(layer)) == spec_encode_layers(layers) + spec_encode_layer(
            layer,
        ),
    decreases layers.len(),
{
    let p = layers.push(layer);
    if layers.len() == 0 {
        assert(p[0] == layer);
        assert(p.drop_first() =~= Seq::<Seq<u32>>::empty());
        assert(spec_encode_layers(p.drop_first()) == Seq::<u8>::empty());
        assert(spec_encode_layers(p) == spec_encode_layer(layer) + Seq::<u8>::empty());
        assert(spec_encode_layers(p) =~= spec_encode_layers(layers) + spec_encode_layer(layer));
    } else {
        assert(p.drop_first() =~= layers.drop_first().push(layer));
        lemma_encode_layers_push(layers.drop_first(), layer);
        assert(p[0] == layers[0]);
        assert(spec_encode_layers(p) == spec_encode_layer(layers[0]) + (spec_encode_layers(
            layers.drop_first(),
        ) + spec_encode_layer(layer)));
        assert(spec_encode_layers(layers) == spec_encode_layer(layers[0]) + spec_encode_layers(
            layers.drop_first(),
        ));
        assert(spec_encode_layers(p) =~= spec_encode_layers(layers) + spec_encode_layer(layer));
    }
}

/// Appends the four little-endian bytes of `v`.
pub(crate) fn push_u32_le(out: &mut Vec<u8>, v: u32)
    ensures
        final(out)@ == old(out)@ + u32_le(v),
{
    out.push((v & 0xff) as u8);
    out.push(((v >> 8) & 0xff) as u8);
    out.push(((v >> 16) & 0xff) as u8);
    out.push(((v >> 24) & 0xff) as u8);
    proof {
        assert(out@ =~= old(out)@ + u32_le(v));
    }
}

/// Appends the eight little-endian bytes of `v`.
pub(crate) fn push_u64_le(out: &mut Vec<u8>, v: u64)
    ensures
        final(out)@ == old(out)@ + u64_le(v),
{
    out.push((v & 0xff) as u8);
    out.push(((v >> 8) & 0xff) as u8);
    out.push(((v >> 16) & 0xff) as u8);
    out.push(((v >> 24) & 0xff) as u8);
    out.push(((v >> 32) & 0xff) as u8);
    out.push(((v >> 40) & 0xff) as u8);
    out.push(((v >> 48) & 0xff) as u8);
    out.push(((v >> 56) & 0xff) as u8);
    proof {
        assert(out@ =~= old(out)@ + u64_le(v));
    }
}

/// Reads the 32-bit little-endian integer at `pos`.
pub(crate) fn read_u32_le(bytes: &Vec<u8>, pos: usize) -> (v: u32)
    requires
        pos + 4 <= bytes@.len(),
    ensures
        v == u32_from_le(bytes@.skip(pos as int)),
{
    let len: usize = bytes.len();
    assert(pos + 4 <= len);
    let b0 = bytes[pos];
    let b1 = bytes[pos + 1];
    let b2 = bytes[pos + 2];
    let b3 = bytes[pos + 3];
    proof {
        let s = bytes@.skip(pos as int);
        assert(s[0] == b0 && s[1] == b1 && s[2] == b2 && s[3] == b3);
    }
    (b0 as u32) | (b1 as u32) << 8 | (b2 as u32) << 16 | (b3 as u32) << 24
}

/// Reads the 64-bit little-endian integer at `pos`.
pub(crate) fn read_u64_le(bytes: &Vec<u8>, pos: usize) -> (v: u64)
    requires
        pos + 8 <= bytes@.len(),
    ensures
        v == u64_from_le(bytes@.skip(pos as int)),
{
    let len: usize = bytes.len();
    assert(pos + 8 <= len);
    let b0 = bytes[pos];
    let b1 = bytes[pos + 1];
    let b2 = bytes[pos + 2];
    let b3 = bytes[pos + 3];
    let b4 = bytes[pos + 4];
    let b5 = bytes[pos + 5];
    let b6 = bytes[pos + 6];
    let b7 = bytes[pos + 7];
    proof {
        let s = bytes@.skip(pos as int);
        assert(s[0] == b0 && s[1] == b1 && s[2] == b2 && s[3] == b3 && s[4] == b4 && s[5] == b5
            && s[6] == b6 && s[7] == b7);
    }
    (b0 as u64) | (b1 as u64) << 8 | (b2 as u64) << 16 | (b3 as u64) << 24 | (b4 as u64) << 32 | (
    b5 as u64) << 40 | (b6 as u64) << 48 | (b7 as u64) << 56
}

/// Reads `n` tiles of four bytes each starting at `pos`; yields the tiles
/// and the position just past them, or `None` when the bytes run out.
pub(crate) fn decode_tiles(bytes: &Vec<u8>, pos: usize, n: u64) -> (r: Option<(Vec<u32>, usize)>)
    requires
        pos <= bytes@.len(),
    ensures
        match r {
            Some(parsed) => {
                &&& pos <= parsed.1 <= bytes@.len()
                &&& spec_decode_tiles(bytes@.skip(pos as int), n as nat) == Some(
                    (parsed.0@, bytes@.skip(parsed.1 as int)),
                )
            },
            None => spec_decode_tiles(bytes@.skip(pos as int), n as nat) is None,
        },
{
    let len: usize = bytes.len();
    let mut tiles: Vec<u32> = Vec::new();
    let mut cur: usize = pos;
    let mut i: u64 = 0;
    while i < n
        invariant
            pos <= cur <= len,
            len == bytes@.len(),
            i <= n,
            tiles@.len() == i as nat,
            spec_decode_tiles(bytes@.skip(pos as int), n as nat) == (match spec_decode_tiles(
                bytes@.skip(cur as int),
                (n - i) as nat,
            ) {
                Some(p) => Some((tiles@ + p.0, p.1)),
                None => None::<(Seq<u32>, Seq<u8>)>,
            }),
        decreases n - i,
    {
        if len - cur < 4 {
            proof {
                assert(bytes@.skip(cur as int).len() < 4);
            }
            return None;
        }
        let v = read_u32_le(bytes, cur);
        proof {
            let bcur = bytes@.skip(cur as int);
            assert(bcur.skip(4) =~= bytes@.skip(cur as int + 4));
            match spec_decode_tiles(bytes@.skip(cur as int + 4), (n - i - 1) as nat) {
                Some(p) => {
                    assert(spec_decode_tiles(bcur, (n - i) as nat) == Some(
                        (seq![v] + p.0, p.1),
                    ));
                    assert(tiles@.push(v) + p.0 =~= tiles@ + (seq![v] + p.0));
                },
                None => {
                    assert(spec_decode_tiles(bcur, (n - i) as nat) is None);
                },
            }
        }
        tiles.push(v);
        cur = cur + 4;
        i = i + 1;
    }
    proof {
        assert(spec_decode_tiles(bytes@.skip(cur as int), 0) == Some(
            (Seq::<u32>::empty(), bytes@.skip(cur as int)),
        ));
        assert(tiles@ + Seq::<u32>::empty() =~= tiles@);
    }
    Some((tiles, cur))
}

/// Reads `n` layers starting at `pos`; yields the layers and the position
/// just past them, or `None` when the bytes run out.
pub(crate) fn decode_layers(bytes: &Vec<u8>, pos: usize, n: u64) -> (r: Option<
    (Vec<Vec<u32>>, usize),
>)
    requires
        pos <= bytes@.len(),
    ensures
        match r {
            Some(parsed) => {
                &&& pos <= parsed.1 <= bytes@.len()
                &&& parsed.0@.len() == n as nat
                &&& spec_decode_layers(bytes@.skip(pos as int), n as nat) == Some(
                    (views_of(parsed.0@), bytes@.skip(parsed.1 as int)),
                )
            },
            None => spec_decode_layers(bytes@.skip(pos as int), n as nat) is None,
        },
{
    let len: usize = bytes.len();
    let mut layers: Vec<Vec<u32>> = Vec::new();
    let mut cur: usize = pos;
    let mut i: u64 = 0;
    proof {
        assert(views_of(layers@) =~= Seq::<Seq<u32>>::empty());
    }
    while i < n
        invariant
            pos <= cur <= len,
            len == bytes@.len(),
            i <= n,
            layers@.len() == i as nat,
            spec_decode_layers(bytes@.skip(pos as int), n as nat) == (match spec_decode_layers(
                bytes@.skip(cur as int),
                (n - i) as nat,
            ) {
                Some(p) => Some((views_of(layers@) + p.0, p.1)),
                None => None::<(Seq<Seq<u32>>, Seq<u8>)>,
            }),
        decreases n - i,
    {
        if len - cur < 8 {
            proof {
                assert(bytes@.skip(cur as int).len() < 8);
                assert(spec_decode_layer(bytes@.skip(cur as int)) is None);
            }
            return None;
        }
        let count = read_u64_le(bytes, cur);
        let parsed_tiles = decode_tiles(bytes, cur + 8, count);
        proof {
            let bcur = bytes@.skip(cur as int);
            assert(bcur.skip(8) =~= bytes@.skip(cur as int + 8));
            assert(u64_from_le(bcur) == count);
            assert(spec_decode_layer(bcur) == spec_decode_tiles(
                bytes@.skip(cur as int + 8),
                count as nat,
            ));
        }
        match parsed_tiles {
            None => {
                return None;
            },
            Some(parsed) => {
                let (layer, next) = parsed;
                proof {
                    let bcur = bytes@.skip(cur as int);
                    assert(spec_decode_layer(bcur) == Some((layer@, bytes@.skip(next as int))));
                    match spec_decode_layers(bytes@.skip(next as int), (n - i - 1) as nat) {
                        Some(p) => {
                            assert(spec_decode_layers(bcur, (n - i) as nat) == Some(
                                (seq![layer@] + p.0, p.1),
                            ));
                            assert(views_of(layers@.push(layer)) =~= views_of(layers@).push(
                                layer@,
                            ));
                            assert(views_of(layers@).push(layer@) + p.0 =~= views_of(layers@) + (
                            seq![layer@] + p.0));
                        },
                        None => {
                            assert(spec_decode_layers(bcur, (n - i) as nat) is None);
                        },
                    }
                }
                layers.push(layer);
                cur = next;
                i = i + 1;
            },
        }
    }
    proof {
        assert(spec_decode_layers(bytes@.skip(cur as int), 0) == Some(
            (Seq::<Seq<u32>>::empty(), bytes@.skip(cur as int)),
        ));
        assert(views_of(layers@) + Seq::<Seq<u32>>::empty() =~= views_of(layers@));
    }
    Some((layers, cur))
}

} // verus!
