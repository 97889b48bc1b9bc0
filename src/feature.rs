//! Input features: a geometry over world coordinates and a list of
//! properties with scalar values.
use vstd::prelude::*;

verus! {

/// A position in world coordinates (see `projection`).
#[derive(Clone, Copy, Debug, PartialEq, Eq, Structural)]
pub struct WorldPoint {
    pub x: i64,
    pub y: i64,
}

/// Value of a property. A double is held by its IEEE-754 bit pattern, which
/// identifies it exactly; `Other` stands for null and for every non-scalar
/// value, all of which encode as an empty value.
#[derive(Debug)]
pub enum PropValue {
    Str(String),
    Int(i64),
    Double(u64),
    Bool(bool),
    Other,
}

/// What a property value is, as a mathematical value.
pub enum ValueView {
    Str(Seq<char>),
    Int(i64),
    Double(u64),
    Bool(bool),
    Other,
}

impl View for PropValue {
    type V = ValueView;

    open spec fn view(&self) -> ValueView {
        match self {
            PropValue::Str(s) => ValueView::Str(s@),
            PropValue::Int(i) => ValueView::Int(*i),
            PropValue::Double(b) => ValueView::Double(*b),
            PropValue::Bool(b) => ValueView::Bool(*b),
            PropValue::Other => ValueView::Other,
        }
    }
}

impl PropValue {
    /// Whether two values are the same dictionary entry: same type and equal
    /// content.
    pub fn same_as(&self, other: &PropValue) -> (r: bool)
        ensures
            r == (self@ == other@),
    {
        match (self, other) {
            (PropValue::Str(a), PropValue::Str(b)) => *a == *b,
            (PropValue::Int(a), PropValue::Int(b)) => *a == *b,
            (PropValue::Double(a), PropValue::Double(b)) => *a == *b,
            (PropValue::Bool(a), PropValue::Bool(b)) => *a == *b,
            (PropValue::Other, PropValue::Other) => true,
            _ => false,
        }
    }

    /// A deep copy.
    pub fn duplicate(&self) -> (r: PropValue)
        ensures
            r@ == self@,
    {
        match self {
            PropValue::Str(s) => PropValue::Str(s.clone()),
            PropValue::Int(i) => PropValue::Int(*i),
            PropValue::Double(b) => PropValue::Double(*b),
            PropValue::Bool(b) => PropValue::Bool(*b),
            PropValue::Other => PropValue::Other,
        }
    }
}

/// A property: key and value.
pub type Property = (String, PropValue);

/// What a property list is, as a sequence of keys and values.
pub open spec fn props_view(p: Seq<Property>) -> Seq<(Seq<char>, ValueView)> {
    p.map_values(|e: Property| (e.0@, e.1@))
}

/// A deep copy of a property list.
pub fn copy_properties(p: &Vec<Property>) -> (r: Vec<Property>)
    ensures
        props_view(r@) == props_view(p@),
{
    let mut r: Vec<Property> = Vec::new();
    let mut i: usize = 0;
    while i < p.len()
        invariant
            i <= p.len(),
            props_view(r@) =~= props_view(p@.take(i as int)),
        decreases p.len() - i,
    {
        let k = p[i].0.clone();
        let v = p[i].1.duplicate();
        let ghost old_r = r@;
        let ghost e = (k@, v@);
        r.push((k, v));
        assert(props_view(r@) =~= props_view(old_r).push(e));
        assert(props_view(p@.take(i + 1)) =~= props_view(p@.take(i as int)).push(e));
        i += 1;
    }
    assert(p@.take(p.len() as int) =~= p@);
    r
}

/// Geometry of an input feature. A polygon has an exterior ring and any
/// number of interior rings (holes); rings are closed, their first vertex
/// repeated at the end.
#[derive(Debug)]
pub enum GeometryType {
    Point(WorldPoint),
    LineString(Vec<WorldPoint>),
    Polygon(Vec<WorldPoint>, Vec<Vec<WorldPoint>>),
}

/// An input feature.
#[derive(Debug)]
pub struct Feature {
    pub geometry: GeometryType,
    pub properties: Vec<Property>,
}

} // verus!
