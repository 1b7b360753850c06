use vstd::prelude::*;

verus! {

/// A geographic point in decimicro-degrees (1e-7 degree).
///
/// Two coordinates are the same graph node exactly when both fields are equal.
#[derive(Clone, Copy, Debug, PartialEq, Eq, Hash, Structural)]
pub struct Coord {
    pub lon: i32,
    pub lat: i32,
}

impl Coord {
    pub fn new(lon: i32, lat: i32) -> (r: Coord)
        ensures
            r.lon == lon,
            r.lat == lat,
    {
        Coord { lon, lat }
    }
}

/// A directed, weighted edge to `target`.
#[derive(Clone, Copy, Debug, PartialEq, Eq, Structural)]
pub struct Edge {
    pub target: Coord,
    pub cost: i64,
}

/// The identifier of a map node.
#[derive(Clone, Copy, Debug, PartialEq, Eq, Hash, Structural)]
pub struct NodeId(pub i64);

impl NodeId {
    pub fn new(id: i64) -> (r: NodeId)
        ensures
            r.0 == id,
    {
        NodeId(id)
    }
}

impl From<i64> for NodeId {
    fn from(id: i64) -> (r: NodeId) {
        NodeId(id)
    }
}

impl vstd::std_specs::convert::FromSpecImpl<i64> for NodeId {
    open spec fn obeys_from_spec() -> bool {
        true
    }

    open spec fn from_spec(id: i64) -> NodeId {
        NodeId(id)
    }
}

} // verus!
