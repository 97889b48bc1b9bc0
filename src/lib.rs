//! Vector tile generation: assigns features to the tiles of a zoom range and
//! encodes each tile in the Mapbox Vector Tile wire format.
use crate::feature::Feature;
use crate::mvt_encoder::{encode_tile, tile_msg};
use crate::projection::MAX_ZOOM;
use crate::tiler::{
    assignment, features_view, input_fits, lemma_contents_fit, lemma_single_point_assignment, placed, tile_contents, tile_features,
    TileFeatureView,
};
use vstd::prelude::*;
use vstd::string::*;

pub mod feature;
pub mod pbf;
pub mod projection;
pub mod mvt_encoder;
pub mod tiler;

verus! {

/// A tile in the slippy-map numbering: origin top-left, x growing east and y
/// growing south, both in `[0, 2^z - 1]`.
#[derive(Clone, Copy, Debug, PartialEq, Eq, Hash, Structural)]
pub struct TileCoord {
    pub z: u8,
    pub x: u32,
    pub y: u32,
}

/// The decimal digits of `n`, most significant first, without leading zeros.
pub open spec fn decimal(n: nat) -> Seq<char>
    decreases n,
{
    if n < 10 {
        seq![(n + 48) as char]
    } else {
        decimal(n / 10).push(((n % 10) + 48) as char)
    }
}

/// The output path of a tile: `"{z}/{x}/{y}.pbf"`.
pub open spec fn tile_path(c: TileCoord) -> Seq<char> {
    decimal(c.z as nat) + seq!['/'] + decimal(c.x as nat) + seq!['/'] + decimal(c.y as nat) + seq![
        '.',
        'p',
        'b',
        'f',
    ]
}

/// Relies on `ToString` for `u32`, which formats through `Display`: the
/// decimal digits of `n`.
#[verifier::external_body]
fn decimal_text(n: u32) -> (r: String)
    ensures
        r@ == decimal(n as nat),
{
    n.to_string()
}

impl TileCoord {
    pub fn new(z: u8, x: u32, y: u32) -> (r: Self)
        ensures
            r == (TileCoord { z, x, y }),
    {
        TileCoord { z, x, y }
    }

    /// The output path of the tile, `"{z}/{x}/{y}.pbf"`.
    pub fn to_path(&self) -> (r: String)
        ensures
            r@ == tile_path(*self),
    {
        let mut s = decimal_text(self.z as u32);
        s.append("/");
        let x = decimal_text(self.x);
        s.append(x.as_str());
        s.append("/");
        let y = decimal_text(self.y);
        s.append(y.as_str());
        s.append(".pbf");
        proof {
            reveal_strlit("/");
            reveal_strlit(".pbf");
        }
        assert(s@ =~= tile_path(*self));
        s
    }
}

/// Why a tile could not be produced.
#[derive(Clone, Copy, Debug, PartialEq, Eq, Structural)]
pub enum TileError {
    /// There were no features to work on.
    EmptyFeatureSet,
    /// A line with no vertex or a polygon with no ring was to be encoded.
    EmptyGeometry,
}

/// An encoded tile and its output path.
#[derive(Debug)]
pub struct TileFile {
    pub path: String,
    pub data: Vec<u8>,
}

/// Path and bytes of each file.
pub open spec fn files_view(v: Seq<TileFile>) -> Seq<(Seq<char>, Seq<u8>)> {
    v.map_values(|f: TileFile| (f.path@, f.data@))
}

/// The files of one zoom level: one per tile that holds a feature, in
/// increasing tile order.
pub open spec fn zoom_files(fs: Seq<Feature>, zoom: u8, name: Seq<char>) -> Seq<(Seq<char>, Seq<u8>)> {
    assignment(fs, zoom).map_values(
        |t: (TileCoord, Seq<TileFeatureView>)| (tile_path(t.0), tile_msg(t.1, name)),
    )
}

/// The files of the zoom levels `min_zoom..=max_zoom`, level by level.
pub open spec fn range_files(fs: Seq<Feature>, min_zoom: int, max_zoom: int, name: Seq<char>) -> Seq<
    (Seq<char>, Seq<u8>),
>
    decreases max_zoom + 1 - min_zoom,
{
    if max_zoom < min_zoom {
        Seq::empty()
    } else {
        range_files(fs, min_zoom, max_zoom - 1, name) + zoom_files(fs, max_zoom as u8, name)
    }
}

/// Tiles the features at every zoom level from `min_zoom` to `max_zoom`
/// (inclusive, ascending) and encodes each tile that holds a feature into a
/// layer named `layer_name`. Fails when there is no feature.
pub fn generate_tiles(features: &[Feature], min_zoom: u8, max_zoom: u8, layer_name: &str) -> (r:
    Result<Vec<TileFile>, TileError>)
    requires
        max_zoom <= MAX_ZOOM,
        input_fits(features@),
    ensures
        features@.len() == 0 ==> r == Err::<Vec<TileFile>, TileError>(TileError::EmptyFeatureSet),
        features@.len() > 0 ==> r is Ok && files_view(r->Ok_0@) == range_files(
            features@,
            min_zoom as int,
            max_zoom as int,
            layer_name@,
        ),
{
    if features.len() == 0 {
        return Err(TileError::EmptyFeatureSet);
    }
    let ghost fs = features@;
    let mut files: Vec<TileFile> = Vec::new();
    if min_zoom > max_zoom {
        assert(files_view(files@) =~= range_files(fs, min_zoom as int, max_zoom as int, layer_name@));
        return Ok(files);
    }
    let mut zoom: u8 = min_zoom;
    assert(files_view(files@) =~= range_files(fs, min_zoom as int, min_zoom - 1, layer_name@));
    loop
        invariant
            min_zoom <= zoom <= max_zoom <= MAX_ZOOM,
            fs == features@,
            fs.len() > 0,
            input_fits(fs),
            files_view(files@) == range_files(fs, min_zoom as int, zoom - 1, layer_name@),
        decreases max_zoom - zoom,
    {
        let buckets = tile_features(features, zoom);
        let ghost start = files_view(files@);
        let ghost tiles = assignment(fs, zoom);
        let mut k: usize = 0;
        while k < buckets.len()
            invariant
                k <= buckets.len(),
                zoom <= MAX_ZOOM,
                fs == features@,
                input_fits(fs),
                tiles == assignment(fs, zoom),
                crate::tiler::buckets_view(buckets@) == tiles,
                crate::tiler::is_assignment(fs, zoom, tiles),
                files_view(files@) == start + tiles.take(k as int).map_values(
                    |t: (TileCoord, Seq<TileFeatureView>)| (tile_path(t.0), tile_msg(t.1, layer_name@)),
                ),
            decreases buckets.len() - k,
        {
            let b = &buckets[k];
            let ghost t = tiles[k as int];
            assert(t == (b.coord, features_view(b.features@)));
            proof {
                lemma_contents_fit(fs, zoom as nat, b.coord.x as int, b.coord.y as int);
                assert(features_view(b.features@) == tile_contents(fs, zoom as nat, b.coord.x as int, b.coord.y as int));
                assert(forall|i: int| 0 <= i < b.features@.len() ==> features_view(b.features@)[i] == #[trigger] b.features@[i]@);
            }
            let data = encode_tile(b.features.as_slice(), layer_name);
            match data {
                Ok(data) => {
                    let path = b.coord.to_path();
                    let ghost before = files@;
                    files.push(TileFile { path, data });
                    assert(files_view(files@) =~= files_view(before).push((tile_path(t.0), tile_msg(t.1, layer_name@))));
                    assert(tiles.take(k + 1) =~= tiles.take(k as int).push(t));
                    assert(files_view(files@) =~= start + tiles.take(k + 1).map_values(
                        |t: (TileCoord, Seq<TileFeatureView>)| (tile_path(t.0), tile_msg(t.1, layer_name@)),
                    ));
                },
                Err(_) => {
                    assert(false);
                },
            }
            k += 1;
        }
        assert(tiles.take(buckets.len() as int) =~= tiles);
        assert(files_view(files@) =~= range_files(fs, min_zoom as int, zoom as int, layer_name@));
        if zoom == max_zoom {
            return Ok(files);
        }
        zoom += 1;
    }
}

/// A single point, tiled over the zoom levels `min_zoom..=max_zoom`, gives
/// one file per level, whose tile holds that one feature.
pub proof fn lemma_single_point_files(f: Feature, min_zoom: int, max_zoom: int, name: Seq<char>)
    requires
        f.geometry is Point,
        0 <= min_zoom,
        min_zoom <= max_zoom + 1,
        max_zoom <= MAX_ZOOM,
    ensures
        range_files(seq![f], min_zoom, max_zoom, name).len() == max_zoom - min_zoom + 1,
        forall|z: int| min_zoom <= z <= max_zoom ==> (#[trigger] assignment(seq![f], z as u8)).len() == 1
            && assignment(seq![f], z as u8)[0].1.len() == 1,
    decreases max_zoom + 1 - min_zoom,
{
    if max_zoom >= min_zoom {
        lemma_single_point_files(f, min_zoom, max_zoom - 1, name);
        lemma_single_point_assignment(f, max_zoom as u8);
        assert forall|z: int| min_zoom <= z <= max_zoom implies (#[trigger] assignment(seq![f], z as u8)).len() == 1
            && assignment(seq![f], z as u8)[0].1.len() == 1 by {
            lemma_single_point_assignment(f, z as u8);
        }
    }
}

} // verus!
