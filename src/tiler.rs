//! Assignment of features to the tiles of one zoom level, with their
//! coordinates reprojected into each tile's local space.
use crate::feature::{copy_properties, props_view, Feature, GeometryType, Property, ValueView, WorldPoint};
use crate::mvt_encoder::{all_props, geometry_fits, geometry_is_empty, tile_fits, rings_fit, MAX_COMMAND_COUNT};
use crate::projection::{
    lemma_zoom_zero_single_tile, local_coord, tile_index, world_to_local, world_to_tile, MAX_ZOOM,
};
use crate::TileCoord;
use vstd::arithmetic::power2::{lemma2_to64, lemma_pow2_strictly_increases};
use vstd::prelude::*;

verus! {

/// Geometry in tile-local coordinates (nominal range 0..4096). A polygon is
/// its rings, exterior first.
#[derive(Debug)]
pub enum TileGeometry {
    Point(i32, i32),
    LineString(Vec<(i32, i32)>),
    Polygon(Vec<Vec<(i32, i32)>>),
}

/// What a tile geometry is, as a mathematical value.
pub enum GeomView {
    Point(i32, i32),
    LineString(Seq<(i32, i32)>),
    Polygon(Seq<Seq<(i32, i32)>>),
}

impl View for TileGeometry {
    type V = GeomView;

    open spec fn view(&self) -> GeomView {
        match self {
            TileGeometry::Point(x, y) => GeomView::Point(*x, *y),
            TileGeometry::LineString(c) => GeomView::LineString(c@),
            TileGeometry::Polygon(r) => GeomView::Polygon(
                r@.map_values(|ring: Vec<(i32, i32)>| ring@),
            ),
        }
    }
}

/// A feature placed in one tile.
#[derive(Debug)]
pub struct TileFeature {
    pub geometry: TileGeometry,
    pub properties: Vec<Property>,
}

/// What a tile feature is, as a mathematical value.
pub struct TileFeatureView {
    pub geometry: GeomView,
    pub properties: Seq<(Seq<char>, ValueView)>,
}

impl View for TileFeature {
    type V = TileFeatureView;

    open spec fn view(&self) -> TileFeatureView {
        TileFeatureView { geometry: self.geometry@, properties: props_view(self.properties@) }
    }
}

/// The views of a sequence of tile features.
pub open spec fn features_view(fs: Seq<TileFeature>) -> Seq<TileFeatureView> {
    fs.map_values(|f: TileFeature| f@)
}

/// A tile and the features placed in it, in input order.
#[derive(Debug)]
pub struct TileBucket {
    pub coord: TileCoord,
    pub features: Vec<TileFeature>,
}

// ---------------------------------------------------------------------------
// Which tiles a feature covers
pub open spec fn min_i64(a: i64, b: i64) -> i64 {
    if a < b {
        a
    } else {
        b
    }
}

pub open spec fn max_i64(a: i64, b: i64) -> i64 {
    if a < b {
        b
    } else {
        a
    }
}

/// Least element of a non-empty sequence.
pub open spec fn seq_min(s: Seq<i64>) -> i64
    decreases s.len(),
{
    if s.len() <= 1 {
        s[0]
    } else {
        min_i64(seq_min(s.drop_last()), s.last())
    }
}

/// Greatest element of a non-empty sequence.
pub open spec fn seq_max(s: Seq<i64>) -> i64
    decreases s.len(),
{
    if s.len() <= 1 {
        s[0]
    } else {
        max_i64(seq_max(s.drop_last()), s.last())
    }
}

pub open spec fn xs(pts: Seq<WorldPoint>) -> Seq<i64> {
    pts.map_values(|p: WorldPoint| p.x)
}

pub open spec fn ys(pts: Seq<WorldPoint>) -> Seq<i64> {
    pts.map_values(|p: WorldPoint| p.y)
}

/// The vertices that bound a geometry: the point itself, the line's
/// vertices, or the polygon's exterior ring (holes do not widen it).
pub open spec fn outline(g: GeometryType) -> Seq<WorldPoint> {
    match g {
        GeometryType::Point(p) => seq![p],
        GeometryType::LineString(c) => c@,
        GeometryType::Polygon(ext, _) => ext@,
    }
}

/// Whether the tile `(x, y)` at `zoom` lies in the rectangle of tiles
/// spanned by the bounding box of `g`. Every tile of that rectangle counts,
/// whether or not the geometry itself crosses it.
pub open spec fn covers(g: GeometryType, zoom: nat, x: int, y: int) -> bool {
    let o = outline(g);
    &&& o.len() > 0
    &&& tile_index(seq_min(xs(o)) as int, zoom) <= x <= tile_index(seq_max(xs(o)) as int, zoom)
    &&& tile_index(seq_min(ys(o)) as int, zoom) <= y <= tile_index(seq_max(ys(o)) as int, zoom)
}

// ---------------------------------------------------------------------------
// What a tile holds
pub open spec fn local_point(p: WorldPoint, x: int, y: int, zoom: nat) -> (i32, i32) {
    (local_coord(p.x as int, x, zoom), local_coord(p.y as int, y, zoom))
}

pub open spec fn local_path(c: Seq<WorldPoint>, x: int, y: int, zoom: nat) -> Seq<(i32, i32)> {
    c.map_values(|p: WorldPoint| local_point(p, x, y, zoom))
}

pub open spec fn local_rings(hs: Seq<Vec<WorldPoint>>, x: int, y: int, zoom: nat) -> Seq<Seq<(i32, i32)>> {
    hs.map_values(|h: Vec<WorldPoint>| local_path(h@, x, y, zoom))
}

/// A geometry reprojected into tile `(x, y)`; holes follow the exterior ring.
pub open spec fn local_geometry(g: GeometryType, x: int, y: int, zoom: nat) -> GeomView {
    match g {
        GeometryType::Point(p) => GeomView::Point(local_point(p, x, y, zoom).0, local_point(p, x, y, zoom).1),
        GeometryType::LineString(c) => GeomView::LineString(local_path(c@, x, y, zoom)),
        GeometryType::Polygon(ext, holes) => GeomView::Polygon(
            seq![local_path(ext@, x, y, zoom)] + local_rings(holes@, x, y, zoom),
        ),
    }
}

/// A feature as placed in tile `(x, y)`.
pub open spec fn placed(f: Feature, x: int, y: int, zoom: nat) -> TileFeatureView {
    TileFeatureView {
        geometry: local_geometry(f.geometry, x, y, zoom),
        properties: props_view(f.properties@),
    }
}

/// The features that tile `(x, y)` at `zoom` holds, in input order.
pub open spec fn tile_contents(fs: Seq<Feature>, zoom: nat, x: int, y: int) -> Seq<TileFeatureView>
    decreases fs.len(),
{
    if fs.len() == 0 {
        Seq::empty()
    } else {
        let rest = tile_contents(fs.drop_last(), zoom, x, y);
        if covers(fs.last().geometry, zoom, x, y) {
            rest.push(placed(fs.last(), x, y, zoom))
        } else {
            rest
        }
    }
}

/// Tile `a` comes before tile `b`: x first, then y.
pub open spec fn coord_lt(a: TileCoord, b: TileCoord) -> bool {
    a.x < b.x || (a.x == b.x && a.y < b.y)
}

/// The buckets are in strictly increasing tile order, all at `zoom`.
pub open spec fn ordered_at(bs: Seq<TileBucket>, zoom: u8) -> bool {
    &&& forall|i: int| 0 <= i < bs.len() ==> (#[trigger] bs[i]).coord.z == zoom
    &&& forall|i: int, j: int| 0 <= i < j < bs.len() ==> coord_lt(#[trigger] bs[i].coord, #[trigger] bs[j].coord)
}

/// The buckets hold exactly the non-empty tiles of `contents`, each with its
/// features.
pub open spec fn holds(bs: Seq<TileBucket>, contents: spec_fn(int, int) -> Seq<TileFeatureView>) -> bool {
    &&& forall|i: int| 0 <= i < bs.len() ==> features_view((#[trigger] bs[i]).features@) == contents(
        bs[i].coord.x as int,
        bs[i].coord.y as int,
    ) && bs[i].features@.len() > 0
    &&& forall|x: int, y: int| #[trigger] contents(x, y).len() > 0 ==> exists|i: int|
        0 <= i < bs.len() && (#[trigger] bs[i]).coord.x == x && bs[i].coord.y == y
}

/// Adds `tf` at the end of the bucket of `coord`, creating the bucket in its
/// place in tile order if there is none.
fn add_to_tile(
    buckets: &mut Vec<TileBucket>,
    coord: TileCoord,
    tf: TileFeature,
    Ghost(contents): Ghost<spec_fn(int, int) -> Seq<TileFeatureView>>,
)
    requires
        ordered_at(old(buckets)@, coord.z),
        holds(old(buckets)@, contents),
    ensures
        ordered_at(final(buckets)@, coord.z),
        holds(
            final(buckets)@,
            |x: int, y: int|
                if x == coord.x && y == coord.y {
                    contents(x, y).push(tf@)
                } else {
                    contents(x, y)
                },
        ),
{
    let ghost tfv = tf@;
    let ghost after = |x: int, y: int|
        if x == coord.x && y == coord.y {
            contents(x, y).push(tfv)
        } else {
            contents(x, y)
        };
    let mut p: usize = 0;
    while p < buckets.len()
        invariant
            p <= buckets.len(),
            buckets@ == old(buckets)@,
            forall|k: int| 0 <= k < p ==> coord_lt(#[trigger] buckets@[k].coord, coord),
        ensures
            p <= buckets.len(),
            buckets@ == old(buckets)@,
            forall|k: int| 0 <= k < p ==> coord_lt(#[trigger] buckets@[k].coord, coord),
            p < buckets.len() ==> !coord_lt(buckets@[p as int].coord, coord),
        decreases buckets.len() - p,
    {
        let c = buckets[p].coord;
        if !(c.x < coord.x || (c.x == coord.x && c.y < coord.y)) {
            break;
        }
        p += 1;
    }
    let ghost bs = buckets@;
    if p < buckets.len() && buckets[p].coord.x == coord.x && buckets[p].coord.y == coord.y {
        let mut b = buckets.remove(p);
        let ghost old_features = b.features@;
        b.features.push(tf);
        assert(features_view(b.features@) =~= features_view(old_features).push(tfv));
        buckets.insert(p, b);
        assert(buckets@ =~= bs.update(p as int, b));
        assert forall|x: int, y: int| #[trigger] after(x, y).len() > 0 implies exists|i: int|
            0 <= i < buckets@.len() && (#[trigger] buckets@[i]).coord.x == x && buckets@[i].coord.y == y by {
            if x == coord.x && y == coord.y {
                assert(buckets@[p as int].coord.x == x);
            } else {
                assert(contents(x, y).len() > 0);
                let i = choose|i: int| 0 <= i < bs.len() && (#[trigger] bs[i]).coord.x == x && bs[i].coord.y == y;
                assert(buckets@[i].coord.x == x);
            }
        }
    } else {
        proof {
            assert(p < bs.len() ==> coord_lt(coord, bs[p as int].coord));
            assert forall|k: int| 0 <= k < bs.len() implies !((#[trigger] bs[k]).coord.x == coord.x
                && bs[k].coord.y == coord.y) by {
                if k >= p {
                    if k > p {
                        assert(coord_lt(bs[p as int].coord, bs[k].coord));
                    }
                }
            }
            if contents(coord.x as int, coord.y as int).len() > 0 {
                let i = choose|i: int| 0 <= i < bs.len() && (#[trigger] bs[i]).coord.x == coord.x && bs[i].coord.y == coord.y;
            }
        }
        let mut fv: Vec<TileFeature> = Vec::new();
        fv.push(tf);
        assert(features_view(fv@) =~= contents(coord.x as int, coord.y as int).push(tfv));
        buckets.insert(p, TileBucket { coord, features: fv });
        assert forall|i: int, j: int| 0 <= i < j < buckets@.len() implies coord_lt(
            #[trigger] buckets@[i].coord,
            #[trigger] buckets@[j].coord,
        ) by {
            if j < p {
                assert(buckets@[i] == bs[i]);
                assert(buckets@[j] == bs[j]);
                assert(coord_lt(bs[i].coord, bs[j].coord));
            } else if j == p {
                assert(buckets@[i] == bs[i]);
                assert(coord_lt(bs[i].coord, coord));
            } else if i < p {
                assert(buckets@[i] == bs[i]);
                assert(buckets@[j] == bs[j - 1]);
                assert(coord_lt(bs[i].coord, bs[j - 1].coord));
            } else if i == p {
                assert(buckets@[j] == bs[j - 1]);
                if j - 1 > p {
                    assert(coord_lt(bs[p as int].coord, bs[j - 1].coord));
                }
            } else {
                assert(buckets@[i] == bs[i - 1]);
                assert(buckets@[j] == bs[j - 1]);
            }
        }
        assert forall|i: int| 0 <= i < buckets@.len() implies features_view(
            (#[trigger] buckets@[i]).features@,
        ) == after(buckets@[i].coord.x as int, buckets@[i].coord.y as int)
            && buckets@[i].features@.len() > 0 by {
            if i < p {
                assert(buckets@[i] == bs[i]);
            } else if i > p {
                assert(buckets@[i] == bs[i - 1]);
            }
        }
        assert forall|x: int, y: int| #[trigger] after(x, y).len() > 0 implies exists|i: int|
            0 <= i < buckets@.len() && (#[trigger] buckets@[i]).coord.x == x && buckets@[i].coord.y == y by {
            if x == coord.x && y == coord.y {
                assert(buckets@[p as int].coord.x == x);
            } else {
                assert(contents(x, y).len() > 0);
                let i = choose|i: int| 0 <= i < bs.len() && (#[trigger] bs[i]).coord.x == x && bs[i].coord.y == y;
                if i < p {
                    assert(buckets@[i].coord.x == x);
                } else {
                    assert(buckets@[i + 1].coord.x == x);
                }
            }
        }
    }
}

proof fn lemma_holds_ext(
    bs: Seq<TileBucket>,
    c1: spec_fn(int, int) -> Seq<TileFeatureView>,
    c2: spec_fn(int, int) -> Seq<TileFeatureView>,
)
    requires
        holds(bs, c1),
        forall|x: int, y: int| #[trigger] c1(x, y) == c2(x, y),
    ensures
        holds(bs, c2),
{
    assert(c1 =~= c2);
}

// ---------------------------------------------------------------------------
// Reprojection
fn local_path_of(c: &Vec<WorldPoint>, x: u32, y: u32, zoom: u8) -> (r: Vec<(i32, i32)>)
    requires
        zoom <= MAX_ZOOM,
    ensures
        r@ == local_path(c@, x as int, y as int, zoom as nat),
{
    let mut r: Vec<(i32, i32)> = Vec::new();
    let mut i: usize = 0;
    while i < c.len()
        invariant
            i <= c.len(),
            zoom <= MAX_ZOOM,
            r@ =~= local_path(c@.take(i as int), x as int, y as int, zoom as nat),
        decreases c.len() - i,
    {
        let p = c[i];
        r.push((world_to_local(p.x, x, zoom), world_to_local(p.y, y, zoom)));
        assert(local_path(c@.take(i + 1), x as int, y as int, zoom as nat) =~= local_path(
            c@.take(i as int),
            x as int,
            y as int,
            zoom as nat,
        ).push(local_point(p, x as int, y as int, zoom as nat)));
        i += 1;
    }
    assert(c@.take(c.len() as int) =~= c@);
    r
}

/// A feature reprojected into tile `(x, y)` at `zoom`, with a copy of its
/// properties.
fn place(f: &Feature, x: u32, y: u32, zoom: u8) -> (r: TileFeature)
    requires
        zoom <= MAX_ZOOM,
    ensures
        r@ == placed(*f, x as int, y as int, zoom as nat),
{
    let geometry = match &f.geometry {
        GeometryType::Point(p) => TileGeometry::Point(
            world_to_local(p.x, x, zoom),
            world_to_local(p.y, y, zoom),
        ),
        GeometryType::LineString(c) => TileGeometry::LineString(local_path_of(c, x, y, zoom)),
        GeometryType::Polygon(ext, holes) => {
            let mut rings: Vec<Vec<(i32, i32)>> = Vec::new();
            rings.push(local_path_of(ext, x, y, zoom));
            let mut k: usize = 0;
            while k < holes.len()
                invariant
                    k <= holes.len(),
                    zoom <= MAX_ZOOM,
                    rings@.map_values(|ring: Vec<(i32, i32)>| ring@) =~= seq![
                        local_path(ext@, x as int, y as int, zoom as nat),
                    ] + local_rings(holes@.take(k as int), x as int, y as int, zoom as nat),
                decreases holes.len() - k,
            {
                let ring = local_path_of(&holes[k], x, y, zoom);
                let ghost before = rings@;
                let ghost rv = ring@;
                assert(rv == local_path(holes@[k as int]@, x as int, y as int, zoom as nat));
                rings.push(ring);
                assert(rings@.map_values(|ring: Vec<(i32, i32)>| ring@) =~= before.map_values(
                    |ring: Vec<(i32, i32)>| ring@,
                ).push(rv));
                assert(local_rings(holes@.take(k + 1), x as int, y as int, zoom as nat) =~= local_rings(
                    holes@.take(k as int),
                    x as int,
                    y as int,
                    zoom as nat,
                ).push(rv));
                k += 1;
            }
            assert(holes@.take(holes.len() as int) =~= holes@);
            TileGeometry::Polygon(rings)
        },
    };
    let properties = copy_properties(&f.properties);
    TileFeature { geometry, properties }
}

// ---------------------------------------------------------------------------
// Tile ranges
fn outline_bounds(pts: &Vec<WorldPoint>) -> (r: (i64, i64, i64, i64))
    requires
        pts.len() > 0,
    ensures
        r == (seq_min(xs(pts@)), seq_max(xs(pts@)), seq_min(ys(pts@)), seq_max(ys(pts@))),
{
    let mut min_x = pts[0].x;
    let mut max_x = pts[0].x;
    let mut min_y = pts[0].y;
    let mut max_y = pts[0].y;
    assert(xs(pts@.take(1)) =~= seq![pts@[0].x]);
    assert(ys(pts@.take(1)) =~= seq![pts@[0].y]);
    let mut i: usize = 1;
    while i < pts.len()
        invariant
            1 <= i <= pts.len(),
            min_x == seq_min(xs(pts@.take(i as int))),
            max_x == seq_max(xs(pts@.take(i as int))),
            min_y == seq_min(ys(pts@.take(i as int))),
            max_y == seq_max(ys(pts@.take(i as int))),
        decreases pts.len() - i,
    {
        let p = pts[i];
        assert(xs(pts@.take(i + 1)).drop_last() =~= xs(pts@.take(i as int)));
        assert(ys(pts@.take(i + 1)).drop_last() =~= ys(pts@.take(i as int)));
        if p.x < min_x {
            min_x = p.x;
        }
        if p.x > max_x {
            max_x = p.x;
        }
        if p.y < min_y {
            min_y = p.y;
        }
        if p.y > max_y {
            max_y = p.y;
        }
        i += 1;
    }
    assert(pts@.take(pts.len() as int) =~= pts@);
    (min_x, max_x, min_y, max_y)
}

/// The rectangle of tiles that a geometry covers at `zoom`, if its outline
/// has a vertex.
fn tile_range(g: &GeometryType, zoom: u8) -> (r: Option<(u32, u32, u32, u32)>)
    requires
        zoom <= MAX_ZOOM,
    ensures
        r is None <==> outline(*g).len() == 0,
        r matches Some((x0, x1, y0, y1)) ==> {
            &&& x1 < 0x8000_0000
            &&& y1 < 0x8000_0000
            &&& forall|x: int, y: int|
                covers(*g, zoom as nat, x, y) <==> (x0 <= x <= x1 && y0 <= y <= y1)
        },
{
    let (min_x, max_x, min_y, max_y) = match g {
        GeometryType::Point(p) => {
            assert(xs(outline(*g)) =~= seq![p.x]);
            assert(ys(outline(*g)) =~= seq![p.y]);
            (p.x, p.x, p.y, p.y)
        },
        GeometryType::LineString(c) => {
            if c.len() == 0 {
                return None;
            }
            outline_bounds(c)
        },
        GeometryType::Polygon(ext, _) => {
            if ext.len() == 0 {
                return None;
            }
            outline_bounds(ext)
        },
    };
    proof {
        lemma2_to64();
        if zoom < 31 {
            lemma_pow2_strictly_increases(zoom as nat, 31);
        }
    }
    Some(
        (
            world_to_tile(min_x, zoom),
            world_to_tile(max_x, zoom),
            world_to_tile(min_y, zoom),
            world_to_tile(max_y, zoom),
        ),
    )
}

// ---------------------------------------------------------------------------
// Assignment
/// The tiles and what each holds.
pub open spec fn buckets_view(bs: Seq<TileBucket>) -> Seq<(TileCoord, Seq<TileFeatureView>)> {
    bs.map_values(|b: TileBucket| (b.coord, features_view(b.features@)))
}

/// `s` lists, in increasing tile order, every tile at `zoom` that holds a
/// feature of `fs`, each with what it holds.
pub open spec fn is_assignment(
    fs: Seq<Feature>,
    zoom: u8,
    s: Seq<(TileCoord, Seq<TileFeatureView>)>,
) -> bool {
    &&& forall|i: int| 0 <= i < s.len() ==> (#[trigger] s[i]).0.z == zoom
    &&& forall|i: int, j: int| 0 <= i < j < s.len() ==> coord_lt(#[trigger] s[i].0, #[trigger] s[j].0)
    &&& forall|i: int|
        0 <= i < s.len() ==> (#[trigger] s[i]).1 == tile_contents(fs, zoom as nat, s[i].0.x as int, s[i].0.y as int)
            && s[i].1.len() > 0
    &&& forall|x: int, y: int| #[trigger] tile_contents(fs, zoom as nat, x, y).len() > 0 ==> exists|i: int|
        0 <= i < s.len() && (#[trigger] s[i]).0.x == x && s[i].0.y == y
}

/// The tiles at `zoom` that hold a feature of `fs`, in increasing tile
/// order, each with what it holds.
pub open spec fn assignment(fs: Seq<Feature>, zoom: u8) -> Seq<(TileCoord, Seq<TileFeatureView>)> {
    choose|s: Seq<(TileCoord, Seq<TileFeatureView>)>| is_assignment(fs, zoom, s)
}

proof fn lemma_assignment_prefix(
    fs: Seq<Feature>,
    zoom: u8,
    a: Seq<(TileCoord, Seq<TileFeatureView>)>,
    b: Seq<(TileCoord, Seq<TileFeatureView>)>,
    k: int,
)
    requires
        is_assignment(fs, zoom, a),
        is_assignment(fs, zoom, b),
        0 <= k <= a.len(),
        k <= b.len(),
    ensures
        forall|m: int| 0 <= m < k ==> (#[trigger] a[m]).0 == b[m].0,
    decreases k,
{
    if k > 0 {
        let m = k - 1;
        lemma_assignment_prefix(fs, zoom, a, b, m);
        let c = a[m].0;
        assert(tile_contents(fs, zoom as nat, c.x as int, c.y as int).len() > 0);
        let j = choose|j: int| 0 <= j < b.len() && (#[trigger] b[j]).0.x == c.x && b[j].0.y == c.y;
        assert(b[j].0 == c);
        if j < m {
            assert(a[j].0 == b[j].0);
            assert(coord_lt(a[j].0, a[m].0));
        } else if j > m {
            let d = b[m].0;
            assert(coord_lt(b[m].0, b[j].0));
            assert(tile_contents(fs, zoom as nat, d.x as int, d.y as int).len() > 0);
            let l = choose|l: int| 0 <= l < a.len() && (#[trigger] a[l]).0.x == d.x && a[l].0.y == d.y;
            if l < m {
                assert(a[l].0 == b[l].0);
                assert(coord_lt(b[l].0, b[m].0));
            } else if l > m {
                assert(coord_lt(a[m].0, a[l].0));
            }
        }
    }
}

/// There is one list of a zoom level's tiles and their contents.
proof fn lemma_assignment_unique(
    fs: Seq<Feature>,
    zoom: u8,
    a: Seq<(TileCoord, Seq<TileFeatureView>)>,
    b: Seq<(TileCoord, Seq<TileFeatureView>)>,
)
    requires
        is_assignment(fs, zoom, a),
        is_assignment(fs, zoom, b),
    ensures
        a == b,
{
    if a.len() > b.len() {
        lemma_assignment_prefix(fs, zoom, a, b, b.len() as int);
        let n = b.len() as int;
        let c = a[n].0;
        assert(tile_contents(fs, zoom as nat, c.x as int, c.y as int).len() > 0);
        let j = choose|j: int| 0 <= j < b.len() && (#[trigger] b[j]).0.x == c.x && b[j].0.y == c.y;
        assert(a[j].0 == b[j].0);
        assert(coord_lt(a[j].0, a[n].0));
    } else if b.len() > a.len() {
        lemma_assignment_prefix(fs, zoom, b, a, a.len() as int);
        let n = a.len() as int;
        let c = b[n].0;
        assert(tile_contents(fs, zoom as nat, c.x as int, c.y as int).len() > 0);
        let j = choose|j: int| 0 <= j < a.len() && (#[trigger] a[j]).0.x == c.x && a[j].0.y == c.y;
        assert(b[j].0 == a[j].0);
        assert(coord_lt(b[j].0, b[n].0));
    } else {
        lemma_assignment_prefix(fs, zoom, a, b, a.len() as int);
        assert(a =~= b);
    }
}

proof fn lemma_buckets_assignment(fs: Seq<Feature>, zoom: u8, bs: Seq<TileBucket>)
    requires
        ordered_at(bs, zoom),
        holds(bs, |x: int, y: int| tile_contents(fs, zoom as nat, x, y)),
    ensures
        is_assignment(fs, zoom, buckets_view(bs)),
        buckets_view(bs) == assignment(fs, zoom),
{
    let s = buckets_view(bs);
    assert forall|x: int, y: int| #[trigger] tile_contents(fs, zoom as nat, x, y).len() > 0 implies exists|i: int|
        0 <= i < s.len() && (#[trigger] s[i]).0.x == x && s[i].0.y == y by {
        let c = |x: int, y: int| tile_contents(fs, zoom as nat, x, y);
        assert(c(x, y).len() > 0);
        let i = choose|i: int| 0 <= i < bs.len() && (#[trigger] bs[i]).coord.x == x && bs[i].coord.y == y;
        assert(s[i].0 == bs[i].coord);
    }
    assert forall|i: int, j: int| 0 <= i < j < s.len() implies coord_lt(#[trigger] s[i].0, #[trigger] s[j].0) by {
        assert(coord_lt(bs[i].coord, bs[j].coord));
    }
    assert forall|i: int| 0 <= i < s.len() implies (#[trigger] s[i]).1 == tile_contents(
        fs,
        zoom as nat,
        s[i].0.x as int,
        s[i].0.y as int,
    ) && s[i].1.len() > 0 by {
        assert(features_view(bs[i].features@) == tile_contents(fs, zoom as nat, bs[i].coord.x as int, bs[i].coord.y as int));
    }
    assert(is_assignment(fs, zoom, s));
    lemma_assignment_unique(fs, zoom, s, assignment(fs, zoom));
}

/// What the tiles hold once the features before `i` are placed, and feature
/// `i` is placed in the tiles of its rectangle that come before `(tx, ty)`
/// (column by column, each from top to bottom).
pub open spec fn partial(
    fs: Seq<Feature>,
    i: int,
    zoom: nat,
    x: int,
    y: int,
    tx: int,
    ty: int,
) -> Seq<TileFeatureView> {
    tile_contents(fs.take(i), zoom, x, y) + if covers(fs[i].geometry, zoom, x, y) && (x < tx || (x
        == tx && y < ty)) {
        seq![placed(fs[i], x, y, zoom)]
    } else {
        Seq::empty()
    }
}

proof fn lemma_contents_step(fs: Seq<Feature>, i: int, zoom: nat, x: int, y: int)
    requires
        0 <= i < fs.len(),
    ensures
        tile_contents(fs.take(i + 1), zoom, x, y) == tile_contents(fs.take(i), zoom, x, y) + if covers(
            fs[i].geometry,
            zoom,
            x,
            y,
        ) {
            seq![placed(fs[i], x, y, zoom)]
        } else {
            Seq::empty()
        },
{
    assert(fs.take(i + 1).drop_last() =~= fs.take(i));
    assert(tile_contents(fs.take(i), zoom, x, y) + Seq::<TileFeatureView>::empty() =~= tile_contents(
        fs.take(i),
        zoom,
        x,
        y,
    ));
}

/// Assigns every feature to each tile of the rectangle spanned by its
/// bounding box at `zoom` (a point to its one tile), reprojected into that
/// tile. Features with no vertex are skipped. The tiles come in increasing
/// order of `(x, y)`, each with its features in input order.
pub fn tile_features(features: &[Feature], zoom: u8) -> (r: Vec<TileBucket>)
    requires
        zoom <= MAX_ZOOM,
    ensures
        ordered_at(r@, zoom),
        holds(r@, |x: int, y: int| tile_contents(features@, zoom as nat, x, y)),
        buckets_view(r@) == assignment(features@, zoom),
        is_assignment(features@, zoom, assignment(features@, zoom)),
{
    let ghost fs = features@;
    let ghost z = zoom as nat;
    let mut buckets: Vec<TileBucket> = Vec::new();
    assert(holds(buckets@, |x: int, y: int| tile_contents(fs.take(0), z, x, y))) by {
        assert(fs.take(0) =~= Seq::<Feature>::empty());
    }
    let mut i: usize = 0;
    while i < features.len()
        invariant
            i <= features.len(),
            fs == features@,
            z == zoom as nat,
            zoom <= MAX_ZOOM,
            ordered_at(buckets@, zoom),
            holds(buckets@, |x: int, y: int| tile_contents(fs.take(i as int), z, x, y)),
        decreases features.len() - i,
    {
        let f = &features[i];
        let ghost ii = i as int;
        assert(fs[ii] == *f);
        match tile_range(&f.geometry, zoom) {
            None => {
                proof {
                    assert forall|x: int, y: int|
                        #[trigger] tile_contents(fs.take(ii), z, x, y) == tile_contents(fs.take(ii + 1), z, x, y) by {
                        lemma_contents_step(fs, ii, z, x, y);
                        assert(tile_contents(fs.take(ii), z, x, y) + Seq::<TileFeatureView>::empty()
                            =~= tile_contents(fs.take(ii), z, x, y));
                    }
                    lemma_holds_ext(
                        buckets@,
                        |x: int, y: int| tile_contents(fs.take(ii), z, x, y),
                        |x: int, y: int| tile_contents(fs.take(ii + 1), z, x, y),
                    );
                }
            },
            Some((x0, x1, y0, y1)) => {
                proof {
                    assert forall|x: int, y: int|
                        #[trigger] tile_contents(fs.take(ii), z, x, y) == partial(fs, ii, z, x, y, x0 as int, y0 as int) by {
                        assert(tile_contents(fs.take(ii), z, x, y) + Seq::<TileFeatureView>::empty()
                            =~= tile_contents(fs.take(ii), z, x, y));
                    }
                    lemma_holds_ext(
                        buckets@,
                        |x: int, y: int| tile_contents(fs.take(ii), z, x, y),
                        |x: int, y: int| partial(fs, ii, z, x, y, x0 as int, y0 as int),
                    );
                }
                let mut tx: u32 = x0;
                while tx <= x1
                    invariant
                        ii == i,
                        i < features.len(),
                        fs == features@,
                        fs[ii] == *f,
                        z == zoom as nat,
                        zoom <= MAX_ZOOM,
                        x0 <= tx,
                        tx <= x1 + 1 || tx == x0,
                        x1 < 0x8000_0000,
                        y1 < 0x8000_0000,
                        forall|x: int, y: int| covers(f.geometry, z, x, y) <==> (x0 <= x <= x1 && y0 <= y <= y1),
                        ordered_at(buckets@, zoom),
                        holds(buckets@, |x: int, y: int| partial(fs, ii, z, x, y, tx as int, y0 as int)),
                    decreases x1 + 1 - tx,
                {
                    let mut ty: u32 = y0;
                    while ty <= y1
                        invariant
                            ii == i,
                            i < features.len(),
                            fs == features@,
                            fs[ii] == *f,
                            z == zoom as nat,
                            zoom <= MAX_ZOOM,
                            x0 <= tx <= x1,
                            y0 <= ty,
                            ty <= y1 + 1 || ty == y0,
                            x1 < 0x8000_0000,
                            y1 < 0x8000_0000,
                            forall|x: int, y: int| covers(f.geometry, z, x, y) <==> (x0 <= x <= x1 && y0 <= y <= y1),
                            ordered_at(buckets@, zoom),
                            holds(buckets@, |x: int, y: int| partial(fs, ii, z, x, y, tx as int, ty as int)),
                        decreases y1 + 1 - ty,
                    {
                        let tf = place(f, tx, ty, zoom);
                        let ghost tfv = tf@;
                        let ghost before = |x: int, y: int| partial(fs, ii, z, x, y, tx as int, ty as int);
                        let coord = TileCoord::new(zoom, tx, ty);
                        add_to_tile(&mut buckets, coord, tf, Ghost(before));
                        proof {
                            assert forall|x: int, y: int|
                                (if x == coord.x && y == coord.y {
                                    before(x, y).push(tfv)
                                } else {
                                    before(x, y)
                                }) == #[trigger] partial(fs, ii, z, x, y, tx as int, ty + 1) by {
                                if x == coord.x && y == coord.y {
                                    assert(before(x, y).push(tfv) =~= partial(fs, ii, z, x, y, tx as int, ty + 1));
                                }
                            }
                            lemma_holds_ext(
                                buckets@,
                                |x: int, y: int|
                                    if x == coord.x && y == coord.y {
                                        before(x, y).push(tfv)
                                    } else {
                                        before(x, y)
                                    },
                                |x: int, y: int| partial(fs, ii, z, x, y, tx as int, ty + 1),
                            );
                        }
                        ty += 1;
                    }
                    proof {
                        assert forall|x: int, y: int|
                            #[trigger] partial(fs, ii, z, x, y, tx as int, ty as int) == partial(fs, ii, z, x, y, tx + 1, y0 as int) by {
                        }
                        lemma_holds_ext(
                            buckets@,
                            |x: int, y: int| partial(fs, ii, z, x, y, tx as int, ty as int),
                            |x: int, y: int| partial(fs, ii, z, x, y, tx + 1, y0 as int),
                        );
                    }
                    tx += 1;
                }
                proof {
                    assert forall|x: int, y: int|
                        #[trigger] partial(fs, ii, z, x, y, tx as int, y0 as int) == tile_contents(fs.take(ii + 1), z, x, y) by {
                        lemma_contents_step(fs, ii, z, x, y);
                    }
                    lemma_holds_ext(
                        buckets@,
                        |x: int, y: int| partial(fs, ii, z, x, y, tx as int, y0 as int),
                        |x: int, y: int| tile_contents(fs.take(ii + 1), z, x, y),
                    );
                }
            },
        }
        i += 1;
    }
    assert(fs.take(fs.len() as int) =~= fs);
    proof {
        lemma_buckets_assignment(fs, zoom, buckets@);
    }
    buckets
}

// ---------------------------------------------------------------------------
// Limits of the wire format
/// Every line and ring of `g` is short enough for its LineTo count to fit a
/// command integer.
pub open spec fn source_fits(g: GeometryType) -> bool {
    match g {
        GeometryType::Point(_) => true,
        GeometryType::LineString(c) => c@.len() <= MAX_COMMAND_COUNT,
        GeometryType::Polygon(ext, holes) => ext@.len() <= MAX_COMMAND_COUNT && forall|i: int|
            0 <= i < holes@.len() ==> #[trigger] holes@[i]@.len() <= MAX_COMMAND_COUNT,
    }
}

/// Number of properties over all features.
pub open spec fn total_props(fs: Seq<Feature>) -> nat
    decreases fs.len(),
{
    if fs.len() == 0 {
        0
    } else {
        total_props(fs.drop_last()) + fs.last().properties@.len()
    }
}

/// The features fit the wire format: command counts fit 29 bits and
/// dictionary indices fit `u32`.
pub open spec fn input_fits(fs: Seq<Feature>) -> bool {
    &&& forall|i: int| 0 <= i < fs.len() ==> source_fits(#[trigger] fs[i].geometry)
    &&& total_props(fs) <= u32::MAX
}

/// What a tile holds fits the wire format, and holds no empty geometry.
pub proof fn lemma_contents_fit(fs: Seq<Feature>, zoom: nat, x: int, y: int)
    requires
        input_fits(fs),
    ensures
        tile_fits(tile_contents(fs, zoom, x, y)),
        all_props(tile_contents(fs, zoom, x, y)).len() <= total_props(fs),
        forall|k: int| 0 <= k < tile_contents(fs, zoom, x, y).len() ==> !geometry_is_empty(
            #[trigger] tile_contents(fs, zoom, x, y)[k].geometry,
        ),
    decreases fs.len(),
{
    if fs.len() > 0 {
        let init = fs.drop_last();
        assert forall|i: int| 0 <= i < init.len() implies source_fits(#[trigger] init[i].geometry) by {
            assert(init[i] == fs[i]);
        }
        lemma_contents_fit(init, zoom, x, y);
        let rest = tile_contents(init, zoom, x, y);
        let f = fs.last();
        assert(source_fits(fs[fs.len() - 1].geometry));
        if covers(f.geometry, zoom, x, y) {
            let p = placed(f, x, y, zoom);
            let t = rest.push(p);
            assert(t.drop_last() =~= rest);
            assert(all_props(t) == all_props(rest) + p.properties);
            match f.geometry {
                GeometryType::Polygon(ext, holes) => {
                    let rs = seq![local_path(ext@, x, y, zoom)] + local_rings(holes@, x, y, zoom);
                    assert forall|i: int| 0 <= i < rs.len() implies #[trigger] rs[i].len() <= MAX_COMMAND_COUNT by {
                        if i > 0 {
                            assert(rs[i] == local_path(holes@[i - 1]@, x, y, zoom));
                        }
                    }
                    assert(rings_fit(rs));
                    assert(rs.len() > 0);
                },
                _ => {},
            }
            assert(geometry_fits(p.geometry));
            assert(!geometry_is_empty(p.geometry));
            assert forall|i: int| 0 <= i < t.len() implies geometry_fits(#[trigger] t[i].geometry) by {
                if i < rest.len() {
                    assert(t[i] == rest[i]);
                }
            }
            assert forall|k: int| 0 <= k < t.len() implies !geometry_is_empty(#[trigger] t[k].geometry) by {
                if k < rest.len() {
                    assert(t[k] == rest[k]);
                }
            }
        }
    }
}

// ---------------------------------------------------------------------------
// Laws of the assignment
/// At zoom 0 a feature covers no tile but `(0, 0)`.
pub proof fn lemma_zoom_zero_covers_origin(g: GeometryType, x: int, y: int)
    ensures
        covers(g, 0, x, y) ==> x == 0 && y == 0,
{
    let o = outline(g);
    if o.len() > 0 {
        lemma_zoom_zero_single_tile(seq_min(xs(o)) as int);
        lemma_zoom_zero_single_tile(seq_max(xs(o)) as int);
        lemma_zoom_zero_single_tile(seq_min(ys(o)) as int);
        lemma_zoom_zero_single_tile(seq_max(ys(o)) as int);
    }
}

/// A point covers exactly one tile: the one holding it.
pub proof fn lemma_point_single_tile(p: WorldPoint, zoom: nat, x: int, y: int)
    ensures
        covers(GeometryType::Point(p), zoom, x, y) <==> (x == tile_index(p.x as int, zoom) && y
            == tile_index(p.y as int, zoom)),
{
    assert(xs(seq![p]) =~= seq![p.x]);
    assert(ys(seq![p]) =~= seq![p.y]);
}

/// A tile holds every feature that covers it.
proof fn lemma_contents_include(fs: Seq<Feature>, i: int, zoom: nat, x: int, y: int)
    requires
        0 <= i < fs.len(),
        covers(fs[i].geometry, zoom, x, y),
    ensures
        tile_contents(fs, zoom, x, y).contains(placed(fs[i], x, y, zoom)),
    decreases fs.len(),
{
    let rest = tile_contents(fs.drop_last(), zoom, x, y);
    let p = placed(fs[i], x, y, zoom);
    if i == fs.len() - 1 {
        assert(rest.push(p)[rest.len() as int] == p);
    } else {
        assert(fs.drop_last()[i] == fs[i]);
        lemma_contents_include(fs.drop_last(), i, zoom, x, y);
        let k = choose|k: int| 0 <= k < rest.len() && rest[k] == p;
        if covers(fs.last().geometry, zoom, x, y) {
            assert(rest.push(placed(fs.last(), x, y, zoom))[k] == p);
        }
    }
}

/// A line or polygon appears, with every vertex, in each tile of the
/// rectangle spanned by the tiles of its bounding box's corners, whether
/// or not its geometry crosses that tile.
pub proof fn lemma_rectangle_inclusion(fs: Seq<Feature>, i: int, zoom: nat, x: int, y: int)
    requires
        0 <= i < fs.len(),
        outline(fs[i].geometry).len() > 0,
        tile_index(seq_min(xs(outline(fs[i].geometry))) as int, zoom) <= x <= tile_index(
            seq_max(xs(outline(fs[i].geometry))) as int,
            zoom,
        ),
        tile_index(seq_min(ys(outline(fs[i].geometry))) as int, zoom) <= y <= tile_index(
            seq_max(ys(outline(fs[i].geometry))) as int,
            zoom,
        ),
    ensures
        tile_contents(fs, zoom, x, y).contains(placed(fs[i], x, y, zoom)),
        match (fs[i].geometry, placed(fs[i], x, y, zoom).geometry) {
            (GeometryType::LineString(c), GeomView::LineString(l)) => l.len() == c@.len(),
            (GeometryType::Polygon(ext, holes), GeomView::Polygon(rs)) => {
                &&& rs.len() == holes@.len() + 1
                &&& rs[0].len() == ext@.len()
                &&& forall|k: int| 0 <= k < holes@.len() ==> #[trigger] rs[k + 1].len() == holes@[k]@.len()
            },
            _ => true,
        },
{
    lemma_contents_include(fs, i, zoom, x, y);
}

/// A lone point lands in exactly one tile at each zoom level, which holds
/// it alone.
pub proof fn lemma_single_point_assignment(f: Feature, zoom: u8)
    requires
        f.geometry is Point,
        zoom <= MAX_ZOOM,
    ensures
        assignment(seq![f], zoom).len() == 1,
        assignment(seq![f], zoom)[0].1 == seq![
            placed(f, assignment(seq![f], zoom)[0].0.x as int, assignment(seq![f], zoom)[0].0.y as int, zoom as nat),
        ],
{
    let fs = seq![f];
    let p = f.geometry->Point_0;
    let z = zoom as nat;
    let tx = tile_index(p.x as int, z);
    let ty = tile_index(p.y as int, z);
    vstd::arithmetic::power2::lemma_pow2_pos(z);
    lemma2_to64();
    if zoom < 31 {
        lemma_pow2_strictly_increases(z, 31);
    }
    let c = TileCoord { z: zoom, x: tx as u32, y: ty as u32 };
    assert(fs.drop_last() =~= Seq::<Feature>::empty());
    assert forall|x: int, y: int| #[trigger] tile_contents(fs, z, x, y) == if x == tx && y == ty {
        seq![placed(f, x, y, z)]
    } else {
        Seq::empty()
    } by {
        lemma_point_single_tile(p, z, x, y);
        assert(tile_contents(fs.drop_last(), z, x, y) == Seq::<TileFeatureView>::empty());
        assert(fs.last() == f);
        assert(f.geometry == GeometryType::Point(p));
        assert(Seq::<TileFeatureView>::empty().push(placed(f, x, y, z)) =~= seq![placed(f, x, y, z)]);
    }
    let s = seq![(c, seq![placed(f, tx, ty, z)])];
    assert forall|x: int, y: int| #[trigger] tile_contents(fs, z, x, y).len() > 0 implies exists|i: int|
        0 <= i < s.len() && (#[trigger] s[i]).0.x == x && s[i].0.y == y by {
        assert(s[0].0.x == x);
    }
    assert(is_assignment(fs, zoom, s));
    lemma_assignment_unique(fs, zoom, s, assignment(fs, zoom));
}

} // verus!
