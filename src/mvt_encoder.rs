//! Encoding of one tile's features in the Mapbox Vector Tile format.
use crate::feature::{PropValue, Property, ValueView};
use crate::pbf::{
    bytes_field, fixed64_field, packed_field, put_bytes_field, put_fixed64_field, put_packed_field,
    put_varint_field, varint_field,
};
use crate::tiler::{features_view, GeomView, TileFeature, TileFeatureView, TileGeometry};
use crate::TileError;
use vstd::prelude::*;
use vstd::string::*;
use vstd::utf8::encode_utf8;

verus! {

/// Largest count that a command integer can carry (29 bits).
pub const MAX_COMMAND_COUNT: u32 = 0x1fff_ffff;

/// Command id of MoveTo.
pub const MOVE_TO: u32 = 1;

/// Command id of LineTo.
pub const LINE_TO: u32 = 2;

/// Command id of ClosePath.
pub const CLOSE_PATH: u32 = 7;

/// The geometry type of an encoded feature.
#[derive(Clone, Copy, Debug, PartialEq, Eq, Structural)]
pub enum GeomType {
    Unknown,
    Point,
    Linestring,
    Polygon,
}

impl GeomType {
    /// The number that stands for the type on the wire.
    pub open spec fn spec_code(self) -> nat {
        match self {
            GeomType::Unknown => 0,
            GeomType::Point => 1,
            GeomType::Linestring => 2,
            GeomType::Polygon => 3,
        }
    }

    /// The number that stands for the type on the wire.
    pub fn code(&self) -> (r: u32)
        ensures
            r == self.spec_code(),
    {
        match self {
            GeomType::Unknown => 0,
            GeomType::Point => 1,
            GeomType::Linestring => 2,
            GeomType::Polygon => 3,
        }
    }
}

/// A command integer: the command id in the low three bits, the count above.
pub open spec fn command(id: nat, count: nat) -> nat {
    id + count * 8
}

/// Zig-zag encoding: `0, -1, 1, -2, ...` map to `0, 1, 2, 3, ...`.
pub open spec fn zigzag(n: int) -> nat {
    if n >= 0 {
        (2 * n) as nat
    } else {
        (-2 * n - 1) as nat
    }
}

/// Inverse of `zigzag`.
pub open spec fn unzigzag(u: nat) -> int {
    if u % 2 == 0 {
        (u / 2) as int
    } else {
        -((u + 1) / 2)
    }
}

/// Packs command `id` with `count`: `(id & 0x7) | (count << 3)`.
pub fn command_integer(id: u32, count: u32) -> (r: u32)
    requires
        id < 8,
        count <= MAX_COMMAND_COUNT,
    ensures
        r == command(id as nat, count as nat),
{
    proof {
        assert((id & 7) | (count << 3) == id + count * 8) by (bit_vector)
            requires
                id < 8,
                count <= 0x1fff_ffff,
        ;
    }
    (id & 0x7) | (count << 3)
}

/// Zig-zag encoding of a 32-bit signed integer, `(n << 1) ^ (n >> 31)`.
pub fn zigzag_encode(n: i32) -> (r: u32)
    ensures
        r == zigzag(n as int),
{
    if n >= 0 {
        (n as u32) * 2
    } else {
        ((-1 - n) as u32) * 2 + 1
    }
}

/// Decodes a zig-zag encoded integer.
pub fn zigzag_decode(u: u32) -> (r: i32)
    ensures
        r == unzigzag(u as nat),
{
    if u % 2 == 0 {
        (u / 2) as i32
    } else {
        -((u / 2) as i32) - 1
    }
}

/// Decoding the zig-zag encoding of any 32-bit signed integer gives it back.
pub proof fn lemma_zigzag_round_trip(n: i32)
    ensures
        unzigzag(zigzag(n as int)) == n,
        zigzag(n as int) <= u32::MAX,
{
}

/// The two zig-zag encoded coordinates of `p`.
pub open spec fn zz_point(p: (i32, i32)) -> Seq<u32> {
    seq![zigzag(p.0 as int) as u32, zigzag(p.1 as int) as u32]
}

/// Zig-zag encoded move from vertex `k - 1` to vertex `k` of `c`, each
/// component taken as a 32-bit difference.
pub open spec fn delta(c: Seq<(i32, i32)>, k: int) -> Seq<u32> {
    seq![
        zigzag(c[k].0.wrapping_sub(c[k - 1].0) as int) as u32,
        zigzag(c[k].1.wrapping_sub(c[k - 1].1) as int) as u32,
    ]
}

/// The moves to vertices `1..n` of `c`, each from its predecessor.
pub open spec fn deltas(c: Seq<(i32, i32)>, n: int) -> Seq<u32>
    decreases n,
{
    if n <= 1 {
        Seq::empty()
    } else {
        deltas(c, n - 1) + delta(c, n - 1)
    }
}

/// Commands of a path through the first `n` vertices of `c`: MoveTo the
/// first vertex (its own value), then one LineTo over the remaining ones.
pub open spec fn path_cmds(c: Seq<(i32, i32)>, n: int) -> Seq<u32> {
    seq![command(1, 1) as u32] + zz_point(c[0]) + if n > 1 {
        seq![command(2, (n - 1) as nat) as u32] + deltas(c, n)
    } else {
        Seq::empty()
    }
}

/// Commands of a closed ring: its vertices without the closing duplicate,
/// then ClosePath. A ring with fewer than four vertices gives nothing.
pub open spec fn ring_cmds(r: Seq<(i32, i32)>) -> Seq<u32> {
    if r.len() < 4 {
        Seq::empty()
    } else {
        path_cmds(r, r.len() - 1) + seq![command(7, 1) as u32]
    }
}

/// Commands of a polygon: its rings in order.
pub open spec fn rings_cmds(rs: Seq<Seq<(i32, i32)>>) -> Seq<u32>
    decreases rs.len(),
{
    if rs.len() == 0 {
        Seq::empty()
    } else {
        rings_cmds(rs.drop_last()) + ring_cmds(rs.last())
    }
}

/// The command stream of a geometry.
pub open spec fn geometry_cmds(g: GeomView) -> Seq<u32> {
    match g {
        GeomView::Point(x, y) => seq![command(1, 1) as u32] + zz_point((x, y)),
        GeomView::LineString(c) => path_cmds(c, c.len() as int),
        GeomView::Polygon(rs) => rings_cmds(rs),
    }
}

/// The wire type of a geometry.
pub open spec fn geometry_type(g: GeomView) -> GeomType {
    match g {
        GeomView::Point(..) => GeomType::Point,
        GeomView::LineString(..) => GeomType::Linestring,
        GeomView::Polygon(..) => GeomType::Polygon,
    }
}

/// A line with no vertex or a polygon with no ring.
pub open spec fn geometry_is_empty(g: GeomView) -> bool {
    match g {
        GeomView::Point(..) => false,
        GeomView::LineString(c) => c.len() == 0,
        GeomView::Polygon(rs) => rs.len() == 0,
    }
}

/// Every line and ring is short enough for its LineTo count to fit a
/// command integer.
pub open spec fn geometry_fits(g: GeomView) -> bool {
    match g {
        GeomView::Point(..) => true,
        GeomView::LineString(c) => c.len() <= MAX_COMMAND_COUNT,
        GeomView::Polygon(rs) => rings_fit(rs),
    }
}

/// Every ring is short enough for its LineTo count to fit a command integer.
pub open spec fn rings_fit(rs: Seq<Seq<(i32, i32)>>) -> bool {
    forall|i: int| 0 <= i < rs.len() ==> #[trigger] rs[i].len() <= MAX_COMMAND_COUNT
}

proof fn lemma_deltas_len(c: Seq<(i32, i32)>, n: int)
    requires
        n >= 1,
    ensures
        deltas(c, n).len() == 2 * (n - 1),
    decreases n,
{
    if n > 1 {
        lemma_deltas_len(c, n - 1);
    }
}

/// A ring of four or more vertices keeps all of them but the closing
/// duplicate: MoveTo its first vertex, one LineTo over the others, then
/// ClosePath. A shorter ring leaves no command.
pub proof fn lemma_ring_policy(r: Seq<(i32, i32)>)
    ensures
        r.len() < 4 ==> ring_cmds(r).len() == 0,
        r.len() >= 4 ==> {
            &&& ring_cmds(r).len() == 2 * r.len() + 1
            &&& ring_cmds(r)[0] == command(1, 1)
            &&& ring_cmds(r)[3] == command(2, (r.len() - 2) as nat) as u32
            &&& ring_cmds(r).last() == command(7, 1)
        },
{
    if r.len() >= 4 {
        lemma_deltas_len(r, r.len() - 1);
        let head = seq![command(1, 1) as u32] + zz_point(r[0]);
        let tail = seq![command(2, (r.len() - 2) as nat) as u32] + deltas(r, r.len() - 1);
        assert(ring_cmds(r) =~= head + tail + seq![command(7, 1) as u32]);
        assert((head + tail + seq![command(7, 1) as u32])[3] == tail[0]);
    }
}

/// Appends the commands of a path through the first `n` vertices of `c`.
fn push_path(c: &Vec<(i32, i32)>, n: usize, out: &mut Vec<u32>)
    requires
        1 <= n <= c.len(),
        n <= MAX_COMMAND_COUNT + 1,
    ensures
        final(out)@ == old(out)@ + path_cmds(c@, n as int),
{
    let ghost start = old(out)@;
    out.push(command_integer(MOVE_TO, 1));
    out.push(zigzag_encode(c[0].0));
    out.push(zigzag_encode(c[0].1));
    let ghost head = seq![command(1, 1) as u32] + zz_point(c@[0]);
    assert(out@ =~= start + head);
    if n > 1 {
        out.push(command_integer(LINE_TO, (n - 1) as u32));
        let ghost lt = seq![command(2, (n - 1) as nat) as u32];
        assert(out@ =~= start + head + lt + deltas(c@, 1));
        let mut i: usize = 1;
        while i < n
            invariant
                1 <= i <= n <= c.len(),
                out@ == start + head + lt + deltas(c@, i as int),
            decreases n - i,
        {
            let dx = c[i].0.wrapping_sub(c[i - 1].0);
            let dy = c[i].1.wrapping_sub(c[i - 1].1);
            out.push(zigzag_encode(dx));
            out.push(zigzag_encode(dy));
            assert(out@ =~= start + head + lt + deltas(c@, i + 1));
            i += 1;
        }
        assert(out@ =~= start + path_cmds(c@, n as int));
    } else {
        assert(out@ =~= start + path_cmds(c@, n as int));
    }
}

/// Encodes a geometry as its type and command stream; fails on a line with no
/// vertex and on a polygon with no ring.
pub fn encode_geometry(geometry: &TileGeometry) -> (r: Result<(GeomType, Vec<u32>), TileError>)
    requires
        geometry_fits(geometry@),
    ensures
        r is Err <==> geometry_is_empty(geometry@),
        r is Err ==> r->Err_0 == TileError::EmptyGeometry,
        r is Ok ==> r->Ok_0.0 == geometry_type(geometry@) && r->Ok_0.1@ == geometry_cmds(
            geometry@,
        ),
{
    match geometry {
        TileGeometry::Point(x, y) => {
            let mut cmds: Vec<u32> = Vec::new();
            cmds.push(command_integer(MOVE_TO, 1));
            cmds.push(zigzag_encode(*x));
            cmds.push(zigzag_encode(*y));
            assert(cmds@ =~= geometry_cmds(geometry@));
            Ok((GeomType::Point, cmds))
        },
        TileGeometry::LineString(c) => {
            if c.len() == 0 {
                return Err(TileError::EmptyGeometry);
            }
            let mut cmds: Vec<u32> = Vec::new();
            push_path(c, c.len(), &mut cmds);
            assert(cmds@ =~= geometry_cmds(geometry@));
            Ok((GeomType::Linestring, cmds))
        },
        TileGeometry::Polygon(rings) => {
            if rings.len() == 0 {
                return Err(TileError::EmptyGeometry);
            }
            let ghost rs = rings@.map_values(|ring: Vec<(i32, i32)>| ring@);
            assert(geometry@ == GeomView::Polygon(rs));
            assert(rings_fit(rs));
            let mut cmds: Vec<u32> = Vec::new();
            let mut i: usize = 0;
            while i < rings.len()
                invariant
                    i <= rings.len(),
                    rs == rings@.map_values(|ring: Vec<(i32, i32)>| ring@),
                    rings_fit(rs),
                    cmds@ == rings_cmds(rs.take(i as int)),
                decreases rings.len() - i,
            {
                let ring = &rings[i];
                assert(rs[i as int] == ring@);
                assert(rs[i as int].len() <= MAX_COMMAND_COUNT);
                assert(rs.take(i + 1).drop_last() =~= rs.take(i as int));
                let ghost before = cmds@;
                if ring.len() >= 4 {
                    push_path(ring, ring.len() - 1, &mut cmds);
                    cmds.push(command_integer(CLOSE_PATH, 1));
                    assert(cmds@ =~= before + ring_cmds(ring@));
                } else {
                    assert(cmds@ =~= before + ring_cmds(ring@));
                }
                i += 1;
            }
            assert(rs.take(rings.len() as int) =~= rs);
            Ok((GeomType::Polygon, cmds))
        },
    }
}

// ---------------------------------------------------------------------------
// Dictionaries
/// The distinct elements of `s`, in order of first occurrence.
pub open spec fn dedup<A>(s: Seq<A>) -> Seq<A>
    decreases s.len(),
{
    if s.len() == 0 {
        s
    } else {
        let d = dedup(s.drop_last());
        if d.contains(s.last()) {
            d
        } else {
            d.push(s.last())
        }
    }
}

/// The properties of all features, in order.
pub open spec fn all_props(fs: Seq<TileFeatureView>) -> Seq<(Seq<char>, ValueView)>
    decreases fs.len(),
{
    if fs.len() == 0 {
        Seq::empty()
    } else {
        all_props(fs.drop_last()) + fs.last().properties
    }
}

pub open spec fn prop_keys(ps: Seq<(Seq<char>, ValueView)>) -> Seq<Seq<char>> {
    ps.map_values(|p: (Seq<char>, ValueView)| p.0)
}

pub open spec fn prop_values(ps: Seq<(Seq<char>, ValueView)>) -> Seq<ValueView> {
    ps.map_values(|p: (Seq<char>, ValueView)| p.1)
}

/// The key dictionary of a tile: its distinct keys in order of first use.
pub open spec fn key_dict(fs: Seq<TileFeatureView>) -> Seq<Seq<char>> {
    dedup(prop_keys(all_props(fs)))
}

/// The value dictionary of a tile: its distinct values in order of first use.
pub open spec fn value_dict(fs: Seq<TileFeatureView>) -> Seq<ValueView> {
    dedup(prop_values(all_props(fs)))
}

/// The tags of a property list: for each property, the dictionary index of
/// its key, then that of its value.
pub open spec fn tag_seq(
    keys: Seq<Seq<char>>,
    values: Seq<ValueView>,
    props: Seq<(Seq<char>, ValueView)>,
) -> Seq<u32>
    decreases props.len(),
{
    if props.len() == 0 {
        Seq::empty()
    } else {
        tag_seq(keys, values, props.drop_last()) + seq![
            keys.index_of(props.last().0) as u32,
            values.index_of(props.last().1) as u32,
        ]
    }
}

// ---------------------------------------------------------------------------
// Messages
/// A `Value` message: exactly one field for a scalar, none for `Other`.
pub open spec fn value_msg(v: ValueView) -> Seq<u8> {
    match v {
        ValueView::Str(s) => bytes_field(1, encode_utf8(s)),
        ValueView::Double(b) => fixed64_field(3, b as nat),
        ValueView::Int(i) => varint_field(4, (i as u64) as nat),
        ValueView::Bool(b) => varint_field(7, if b { 1 } else { 0 }),
        ValueView::Other => Seq::empty(),
    }
}

/// A `Feature` message: id, tags, geometry type and command stream.
pub open spec fn feature_msg(
    id: nat,
    f: TileFeatureView,
    keys: Seq<Seq<char>>,
    values: Seq<ValueView>,
) -> Seq<u8> {
    varint_field(1, id) + packed_field(2, tag_seq(keys, values, f.properties)) + varint_field(
        3,
        geometry_type(f.geometry).spec_code(),
    ) + packed_field(4, geometry_cmds(f.geometry))
}

/// The `features` fields of a layer for the first `n` features.
pub open spec fn features_part(
    fs: Seq<TileFeatureView>,
    keys: Seq<Seq<char>>,
    values: Seq<ValueView>,
    n: int,
) -> Seq<u8>
    decreases n,
{
    if n <= 0 {
        Seq::empty()
    } else {
        features_part(fs, keys, values, n - 1) + bytes_field(
            2,
            feature_msg((n - 1) as nat, fs[n - 1], keys, values),
        )
    }
}

/// The `keys` fields of a layer.
pub open spec fn keys_part(keys: Seq<Seq<char>>) -> Seq<u8>
    decreases keys.len(),
{
    if keys.len() == 0 {
        Seq::empty()
    } else {
        keys_part(keys.drop_last()) + bytes_field(3, encode_utf8(keys.last()))
    }
}

/// The `values` fields of a layer.
pub open spec fn values_part(values: Seq<ValueView>) -> Seq<u8>
    decreases values.len(),
{
    if values.len() == 0 {
        Seq::empty()
    } else {
        values_part(values.drop_last()) + bytes_field(4, value_msg(values.last()))
    }
}

/// A `Layer` message: name, features, keys, values, extent 4096, version 2,
/// in field-number order.
pub open spec fn layer_msg(fs: Seq<TileFeatureView>, name: Seq<char>) -> Seq<u8> {
    bytes_field(1, encode_utf8(name)) + features_part(fs, key_dict(fs), value_dict(fs), fs.len() as int)
        + keys_part(key_dict(fs)) + values_part(value_dict(fs)) + varint_field(5, 4096)
        + varint_field(15, 2)
}

/// A `Tile` message holding the one layer of `fs`.
pub open spec fn tile_msg(fs: Seq<TileFeatureView>, name: Seq<char>) -> Seq<u8> {
    bytes_field(3, layer_msg(fs, name))
}

/// Every geometry of `fs` fits command integers and the tags fit `u32`.
pub open spec fn tile_fits(fs: Seq<TileFeatureView>) -> bool {
    &&& forall|i: int| 0 <= i < fs.len() ==> geometry_fits(#[trigger] fs[i].geometry)
    &&& all_props(fs).len() <= u32::MAX
}

// ---------------------------------------------------------------------------
// Lemmas on dictionaries
proof fn lemma_dedup_generic<A>(s: Seq<A>)
    ensures
        dedup(s).no_duplicates(),
        dedup(s).len() <= s.len(),
        forall|x: A| dedup(s).contains(x) <==> s.contains(x),
    decreases s.len(),
{
    if s.len() > 0 {
        lemma_dedup_generic(s.drop_last());
        assert forall|x: A| s.contains(x) <==> (s.drop_last().contains(x) || x == s.last()) by {
            if s.contains(x) {
                let k = choose|k: int| 0 <= k < s.len() && s[k] == x;
                if k < s.len() - 1 {
                    assert(s.drop_last()[k] == x);
                }
            }
            if s.drop_last().contains(x) {
                let k = choose|k: int| 0 <= k < s.drop_last().len() && s.drop_last()[k] == x;
                assert(s[k] == x);
            }
            if x == s.last() {
                assert(s[s.len() - 1] == x);
            }
        }
        let d = dedup(s.drop_last());
        if !d.contains(s.last()) {
            assert forall|x: A| d.push(s.last()).contains(x) <==> (d.contains(x) || x == s.last()) by {
                if d.push(s.last()).contains(x) {
                    let k = choose|k: int| 0 <= k < d.push(s.last()).len() && d.push(s.last())[k] == x;
                    if k < d.len() {
                        assert(d[k] == x);
                    }
                }
                if d.contains(x) {
                    let k = choose|k: int| 0 <= k < d.len() && d[k] == x;
                    assert(d.push(s.last())[k] == x);
                }
                if x == s.last() {
                    assert(d.push(s.last())[d.len() as int] == x);
                }
            }
        }
    }
}

/// The dictionary of a prefix is a prefix of the dictionary.
proof fn lemma_dedup_prefix<A>(a: Seq<A>, b: Seq<A>)
    requires
        a.len() <= b.len(),
        a == b.take(a.len() as int),
    ensures
        dedup(a).len() <= dedup(b).len(),
        forall|k: int| 0 <= k < dedup(a).len() ==> #[trigger] dedup(a)[k] == dedup(b)[k],
    decreases b.len(),
{
    if a.len() == b.len() {
        assert(a =~= b);
    } else {
        assert(a == b.drop_last().take(a.len() as int));
        lemma_dedup_prefix(a, b.drop_last());
    }
}

/// In a sequence without duplicates, `index_of` finds the one position of an
/// element.
proof fn lemma_index_of_unique<A>(d: Seq<A>, k: int)
    requires
        d.no_duplicates(),
        0 <= k < d.len(),
    ensures
        d.index_of(d[k]) == k,
{
}

proof fn lemma_all_props_step(fs: Seq<TileFeatureView>, i: int)
    requires
        0 <= i < fs.len(),
    ensures
        all_props(fs.take(i + 1)) == all_props(fs.take(i)) + fs[i].properties,
{
    assert(fs.take(i + 1).drop_last() =~= fs.take(i));
}

proof fn lemma_all_props_prefix(fs: Seq<TileFeatureView>, i: int)
    requires
        0 <= i <= fs.len(),
    ensures
        all_props(fs.take(i)).len() <= all_props(fs).len(),
        all_props(fs.take(i)) == all_props(fs).take(all_props(fs.take(i)).len() as int),
    decreases fs.len() - i,
{
    if i == fs.len() {
        assert(fs.take(i) =~= fs);
        assert(all_props(fs) =~= all_props(fs).take(all_props(fs).len() as int));
    } else {
        lemma_all_props_prefix(fs, i + 1);
        lemma_all_props_step(fs, i);
        let a = all_props(fs.take(i));
        let b = all_props(fs.take(i + 1));
        assert(a =~= b.take(a.len() as int));
        assert(a =~= all_props(fs).take(a.len() as int));
    }
}

// ---------------------------------------------------------------------------
// Encoding
pub open spec fn strings_view(v: Seq<String>) -> Seq<Seq<char>> {
    v.map_values(|s: String| s@)
}

pub open spec fn values_view(v: Seq<PropValue>) -> Seq<ValueView> {
    v.map_values(|x: PropValue| x@)
}

/// Index of `key` in the key dictionary, added at the end if absent.
fn key_index(keys: &mut Vec<String>, key: &String) -> (idx: usize)
    ensures
        strings_view(final(keys)@) == if strings_view(old(keys)@).contains(key@) {
            strings_view(old(keys)@)
        } else {
            strings_view(old(keys)@).push(key@)
        },
        idx < final(keys)@.len(),
        strings_view(final(keys)@)[idx as int] == key@,
{
    let mut k: usize = 0;
    while k < keys.len()
        invariant
            k <= keys.len(),
            keys@ == old(keys)@,
            forall|m: int| 0 <= m < k ==> strings_view(keys@)[m] != key@,
        decreases keys.len() - k,
    {
        if keys[k] == *key {
            assert(strings_view(keys@).contains(key@)) by {
                assert(strings_view(keys@)[k as int] == key@);
            }
            return k;
        }
        k += 1;
    }
    assert(!strings_view(keys@).contains(key@));
    let ghost before = keys@;
    keys.push(key.clone());
    assert(strings_view(keys@) =~= strings_view(before).push(key@));
    k
}

/// Index of `value` in the value dictionary, added at the end if absent.
fn value_index(values: &mut Vec<PropValue>, value: &PropValue) -> (idx: usize)
    ensures
        values_view(final(values)@) == if values_view(old(values)@).contains(value@) {
            values_view(old(values)@)
        } else {
            values_view(old(values)@).push(value@)
        },
        idx < final(values)@.len(),
        values_view(final(values)@)[idx as int] == value@,
{
    let mut k: usize = 0;
    while k < values.len()
        invariant
            k <= values.len(),
            values@ == old(values)@,
            forall|m: int| 0 <= m < k ==> values_view(values@)[m] != value@,
        decreases values.len() - k,
    {
        if values[k].same_as(value) {
            assert(values_view(values@).contains(value@)) by {
                assert(values_view(values@)[k as int] == value@);
            }
            return k;
        }
        k += 1;
    }
    assert(!values_view(values@).contains(value@));
    let ghost before = values@;
    values.push(value.duplicate());
    assert(values_view(values@) =~= values_view(before).push(value@));
    k
}

/// The `Value` message of a property value.
pub fn encode_value(v: &PropValue) -> (r: Vec<u8>)
    ensures
        r@ == value_msg(v@),
{
    let mut r: Vec<u8> = Vec::new();
    match v {
        PropValue::Str(s) => {
            let b = s.as_str().as_bytes_vec();
            put_bytes_field(1, &b, &mut r);
        },
        PropValue::Int(i) => {
            put_varint_field(4, *i as u64, &mut r);
        },
        PropValue::Double(bits) => {
            put_fixed64_field(3, *bits, &mut r);
        },
        PropValue::Bool(b) => {
            put_varint_field(7, if *b { 1 } else { 0 }, &mut r);
        },
        PropValue::Other => {},
    }
    assert(r@ =~= value_msg(v@));
    r
}

/// Encodes one tile's features as a tile message holding one layer named
/// `layer_name`. Fails when there is no feature, or when a geometry is empty.
pub fn encode_tile(features: &[TileFeature], layer_name: &str) -> (r: Result<Vec<u8>, TileError>)
    requires
        tile_fits(features_view(features@)),
    ensures
        features@.len() == 0 ==> r == Err::<Vec<u8>, TileError>(TileError::EmptyFeatureSet),
        features@.len() > 0 && (exists|i: int|
            0 <= i < features@.len() && geometry_is_empty(#[trigger] features@[i]@.geometry))
            ==> r == Err::<Vec<u8>, TileError>(TileError::EmptyGeometry),
        features@.len() > 0 && (forall|i: int|
            0 <= i < features@.len() ==> !geometry_is_empty(#[trigger] features@[i]@.geometry))
            ==> r is Ok && r->Ok_0@ == tile_msg(features_view(features@), layer_name@),
{
    if features.len() == 0 {
        return Err(TileError::EmptyFeatureSet);
    }
    let ghost fs = features_view(features@);
    let ghost kd = key_dict(fs);
    let ghost vd = value_dict(fs);
    let ghost all = all_props(fs);
    proof {
        lemma_dedup_generic(prop_keys(all));
        lemma_dedup_generic(prop_values(all));
    }
    let mut keys: Vec<String> = Vec::new();
    let mut values: Vec<PropValue> = Vec::new();
    let mut layer: Vec<u8> = Vec::new();
    let name = layer_name.as_bytes_vec();
    put_bytes_field(1, &name, &mut layer);
    let ghost head = layer@;
    assert(fs.take(0) =~= Seq::<TileFeatureView>::empty());
    assert(strings_view(keys@) =~= dedup(prop_keys(all_props(fs.take(0)))));
    assert(values_view(values@) =~= dedup(prop_values(all_props(fs.take(0)))));
    assert(layer@ =~= head + features_part(fs, kd, vd, 0));
    let mut i: usize = 0;
    while i < features.len()
        invariant
            i <= features.len(),
            fs == features_view(features@),
            kd == key_dict(fs),
            vd == value_dict(fs),
            all == all_props(fs),
            tile_fits(fs),
            kd.no_duplicates(),
            vd.no_duplicates(),
            kd.len() <= all.len(),
            vd.len() <= all.len(),
            strings_view(keys@) == dedup(prop_keys(all_props(fs.take(i as int)))),
            values_view(values@) == dedup(prop_values(all_props(fs.take(i as int)))),
            layer@ == head + features_part(fs, kd, vd, i as int),
            forall|k: int| 0 <= k < i ==> !geometry_is_empty(#[trigger] features@[k]@.geometry),
        decreases features.len() - i,
    {
        let f = &features[i];
        assert(fs[i as int] == f@);
        let ghost pre = all_props(fs.take(i as int));
        let ghost props = f@.properties;
        proof {
            lemma_all_props_step(fs, i as int);
            lemma_all_props_prefix(fs, i + 1);
        }
        let mut tags: Vec<u32> = Vec::new();
        let mut j: usize = 0;
        assert(props.take(0) =~= Seq::<(Seq<char>, ValueView)>::empty());
        assert(pre + props.take(0) =~= pre);
        while j < f.properties.len()
            invariant
                i < features.len(),
                j <= f.properties.len(),
                f == &features[i as int],
                props == f@.properties,
                fs == features_view(features@),
                kd == key_dict(fs),
                vd == value_dict(fs),
                all == all_props(fs),
                all.len() <= u32::MAX,
                kd.no_duplicates(),
                vd.no_duplicates(),
                kd.len() <= all.len(),
                vd.len() <= all.len(),
                all_props(fs.take(i + 1)) == pre + props,
                all_props(fs.take(i + 1)).len() <= all.len(),
                all_props(fs.take(i + 1)) == all.take(all_props(fs.take(i + 1)).len() as int),
                strings_view(keys@) == dedup(prop_keys(pre + props.take(j as int))),
                values_view(values@) == dedup(prop_values(pre + props.take(j as int))),
                tags@ == tag_seq(kd, vd, props.take(j as int)),
            decreases f.properties.len() - j,
        {
            let ghost p1 = pre + props.take(j as int);
            let ghost p2 = pre + props.take(j + 1);
            assert(p2 =~= p1.push(props[j as int]));
            assert(p2.drop_last() =~= p1);
            assert(props[j as int] == (f.properties@[j as int].0@, f.properties@[j as int].1@));
            let ki = key_index(&mut keys, &f.properties[j].0);
            let vi = value_index(&mut values, &f.properties[j].1);
            proof {
                assert(prop_keys(p2) =~= prop_keys(p1).push(props[j as int].0));
                assert(prop_keys(p2).drop_last() =~= prop_keys(p1));
                assert(prop_values(p2) =~= prop_values(p1).push(props[j as int].1));
                assert(prop_values(p2).drop_last() =~= prop_values(p1));
                assert(strings_view(keys@) == dedup(prop_keys(p2)));
                assert(values_view(values@) == dedup(prop_values(p2)));
                assert(p2 =~= (pre + props).take(p2.len() as int));
                assert(p2 =~= all.take((pre.len() + props.len()) as int).take(p2.len() as int));
                assert(p2 =~= all.take(p2.len() as int));
                assert(prop_keys(p2) =~= prop_keys(all).take(p2.len() as int));
                assert(prop_values(p2) =~= prop_values(all).take(p2.len() as int));
                lemma_dedup_prefix(prop_keys(p2), prop_keys(all));
                lemma_dedup_prefix(prop_values(p2), prop_values(all));
                assert(kd[ki as int] == props[j as int].0);
                assert(vd[vi as int] == props[j as int].1);
                lemma_index_of_unique(kd, ki as int);
                lemma_index_of_unique(vd, vi as int);
                assert(props.take(j + 1).drop_last() =~= props.take(j as int));
            }
            tags.push(ki as u32);
            tags.push(vi as u32);
            j += 1;
        }
        assert(props.take(props.len() as int) =~= props);
        assert(tile_fits(fs));
        assert(geometry_fits(fs[i as int].geometry));
        let enc = encode_geometry(&f.geometry);
        match enc {
            Err(e) => {
                return Err(e);
            },
            Ok((t, cmds)) => {
                let mut msg: Vec<u8> = Vec::new();
                put_varint_field(1, i as u64, &mut msg);
                put_packed_field(2, &tags, &mut msg);
                put_varint_field(3, t.code() as u64, &mut msg);
                put_packed_field(4, &cmds, &mut msg);
                assert(msg@ =~= feature_msg(i as nat, fs[i as int], kd, vd));
                put_bytes_field(2, &msg, &mut layer);
                assert(layer@ =~= head + features_part(fs, kd, vd, i + 1));
            },
        }
        i += 1;
    }
    assert(fs.take(fs.len() as int) =~= fs);
    let ghost mid = layer@;
    assert(kd.take(0) =~= Seq::<Seq<char>>::empty());
    assert(layer@ =~= mid + keys_part(kd.take(0)));
    let mut k: usize = 0;
    while k < keys.len()
        invariant
            k <= keys.len(),
            strings_view(keys@) == kd,
            layer@ == mid + keys_part(kd.take(k as int)),
        decreases keys.len() - k,
    {
        let b = keys[k].as_str().as_bytes_vec();
        assert(kd[k as int] == keys@[k as int]@);
        put_bytes_field(3, &b, &mut layer);
        assert(kd.take(k + 1).drop_last() =~= kd.take(k as int));
        assert(layer@ =~= mid + keys_part(kd.take(k + 1)));
        k += 1;
    }
    assert(kd.take(kd.len() as int) =~= kd);
    let ghost mid2 = layer@;
    assert(vd.take(0) =~= Seq::<ValueView>::empty());
    assert(layer@ =~= mid2 + values_part(vd.take(0)));
    let mut m: usize = 0;
    while m < values.len()
        invariant
            m <= values.len(),
            values_view(values@) == vd,
            layer@ == mid2 + values_part(vd.take(m as int)),
        decreases values.len() - m,
    {
        let b = encode_value(&values[m]);
        assert(vd[m as int] == values@[m as int]@);
        put_bytes_field(4, &b, &mut layer);
        assert(vd.take(m + 1).drop_last() =~= vd.take(m as int));
        assert(layer@ =~= mid2 + values_part(vd.take(m + 1)));
        m += 1;
    }
    assert(vd.take(vd.len() as int) =~= vd);
    put_varint_field(5, 4096, &mut layer);
    put_varint_field(15, 2, &mut layer);
    assert(layer@ =~= layer_msg(fs, layer_name@));
    let mut tile: Vec<u8> = Vec::new();
    put_bytes_field(3, &layer, &mut tile);
    assert(tile@ =~= tile_msg(fs, layer_name@));
    Ok(tile)
}

proof fn lemma_tag_pair(keys: Seq<Seq<char>>, values: Seq<ValueView>, props: Seq<(Seq<char>, ValueView)>, j: int)
    requires
        0 <= j < props.len(),
    ensures
        tag_seq(keys, values, props).len() == 2 * props.len(),
        tag_seq(keys, values, props)[2 * j] == keys.index_of(props[j].0) as u32,
        tag_seq(keys, values, props)[2 * j + 1] == values.index_of(props[j].1) as u32,
    decreases props.len(),
{
    let init = props.drop_last();
    let pair = seq![keys.index_of(props.last().0) as u32, values.index_of(props.last().1) as u32];
    if init.len() > 0 {
        if j < props.len() - 1 {
            lemma_tag_pair(keys, values, init, j);
            assert(init[j] == props[j]);
        } else {
            lemma_tag_pair(keys, values, init, 0);
        }
    }
    assert(tag_seq(keys, values, props) == tag_seq(keys, values, init) + pair);
}

/// The dictionaries of a tile hold each distinct key and each distinct
/// value once, so their lengths are the numbers of distinct keys and
/// values; two properties with the same key and value, in the same feature
/// or in two features, are tagged with the same pair of indices.
pub proof fn lemma_shared_pair_same_indices(fs: Seq<TileFeatureView>, a: int, ja: int, b: int, jb: int)
    requires
        0 <= a < fs.len(),
        0 <= b < fs.len(),
        0 <= ja < fs[a].properties.len(),
        0 <= jb < fs[b].properties.len(),
        fs[a].properties[ja] == fs[b].properties[jb],
    ensures
        key_dict(fs).len() == prop_keys(all_props(fs)).to_set().len(),
        value_dict(fs).len() == prop_values(all_props(fs)).to_set().len(),
        tag_seq(key_dict(fs), value_dict(fs), fs[a].properties)[2 * ja] == tag_seq(
            key_dict(fs),
            value_dict(fs),
            fs[b].properties,
        )[2 * jb],
        tag_seq(key_dict(fs), value_dict(fs), fs[a].properties)[2 * ja + 1] == tag_seq(
            key_dict(fs),
            value_dict(fs),
            fs[b].properties,
        )[2 * jb + 1],
{
    let ks = prop_keys(all_props(fs));
    let vs = prop_values(all_props(fs));
    lemma_dedup_generic(ks);
    lemma_dedup_generic(vs);
    assert(key_dict(fs).to_set() =~= ks.to_set());
    assert(value_dict(fs).to_set() =~= vs.to_set());
    key_dict(fs).unique_seq_to_set();
    value_dict(fs).unique_seq_to_set();
    lemma_tag_pair(key_dict(fs), value_dict(fs), fs[a].properties, ja);
    lemma_tag_pair(key_dict(fs), value_dict(fs), fs[b].properties, jb);
}

} // verus!
