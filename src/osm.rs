use std::collections::HashMap;

use vstd::prelude::*;

use crate::coord::Coord;

verus! {

broadcast use vstd::std_specs::hash::group_hash_axioms;

/// The kind of map feature a way is drawn as.
#[derive(Clone, Copy, Debug, PartialEq, Eq, Structural)]
pub enum WayKind {
    Highway,
    Waterway,
    Railway,
    Building,
    Natural,
    Aeroway,
}

/// The kind of a way from the tag keys it carries, the first that applies of
/// highway, waterway, railway, building, natural and aeroway; `None` when it
/// carries none of them.
pub fn classify_way(
    highway: bool,
    waterway: bool,
    railway: bool,
    building: bool,
    natural: bool,
    aeroway: bool,
) -> (r: Option<WayKind>)
    ensures
        r == if highway {
            Some(WayKind::Highway)
        } else if waterway {
            Some(WayKind::Waterway)
        } else if railway {
            Some(WayKind::Railway)
        } else if building {
            Some(WayKind::Building)
        } else if natural {
            Some(WayKind::Natural)
        } else if aeroway {
            Some(WayKind::Aeroway)
        } else {
            None
        },
{
    if highway {
        Some(WayKind::Highway)
    } else if waterway {
        Some(WayKind::Waterway)
    } else if railway {
        Some(WayKind::Railway)
    } else if building {
        Some(WayKind::Building)
    } else if natural {
        Some(WayKind::Natural)
    } else if aeroway {
        Some(WayKind::Aeroway)
    } else {
        None
    }
}

/// The coordinates of the node ids `ids` that `nodes` knows, in order; ids it
/// does not know are skipped.
pub open spec fn known_coords(ids: Seq<i64>, nodes: Map<i64, Coord>) -> Seq<Coord>
    decreases ids.len(),
{
    if ids.len() == 0 {
        seq![]
    } else {
        let rest = known_coords(ids.drop_last(), nodes);
        if nodes.contains_key(ids.last()) {
            rest.push(nodes[ids.last()])
        } else {
            rest
        }
    }
}

/// The polyline of a way whose nodes are `ids`: the coordinates of those ids
/// that `nodes` holds, in order.
pub fn extract_way_nodes(ids: &Vec<i64>, nodes: &HashMap<i64, Coord>) -> (r: Vec<Coord>)
    ensures
        r@ == known_coords(ids@, nodes@),
{
    let mut r: Vec<Coord> = Vec::new();
    let mut i: usize = 0;
    while i < ids.len()
        invariant
            i <= ids.len(),
            r@ == known_coords(ids@.take(i as int), nodes@),
        decreases ids.len() - i,
    {
        assert(ids@.take(i as int + 1).drop_last() =~= ids@.take(i as int));
        match nodes.get(&ids[i]) {
            Some(c) => r.push(*c),
            None => {},
        }
        i = i + 1;
    }
    assert(ids@.take(i as int) =~= ids@);
    r
}

/// The rings of a multipolygon whose member ways are `members`: for each
/// member that `ways` holds, in order, the polyline of its node ids.
pub open spec fn member_rings(members: Seq<i64>, ways: Map<i64, Vec<i64>>, nodes: Map<i64, Coord>) -> Seq<Seq<Coord>>
    decreases members.len(),
{
    if members.len() == 0 {
        seq![]
    } else {
        let rest = member_rings(members.drop_last(), ways, nodes);
        if ways.contains_key(members.last()) {
            rest.push(known_coords(ways[members.last()]@, nodes))
        } else {
            rest
        }
    }
}

/// Assembles a multipolygon from its member ways `members`: one ring per
/// member that `ways` (way id to node ids) holds, in order.
pub fn assemble_multipolygon(
    members: &Vec<i64>,
    ways: &HashMap<i64, Vec<i64>>,
    nodes: &HashMap<i64, Coord>,
) -> (r: Vec<Vec<Coord>>)
    ensures
        r@.map_values(|w: Vec<Coord>| w@) == member_rings(members@, ways@, nodes@),
{
    let mut r: Vec<Vec<Coord>> = Vec::new();
    let mut i: usize = 0;
    while i < members.len()
        invariant
            i <= members.len(),
            r@.map_values(|w: Vec<Coord>| w@) == member_rings(members@.take(i as int), ways@, nodes@),
        decreases members.len() - i,
    {
        assert(members@.take(i as int + 1).drop_last() =~= members@.take(i as int));
        let ghost before = r@;
        match ways.get(&members[i]) {
            Some(ids) => {
                let ring = extract_way_nodes(ids, nodes);
                r.push(ring);
                assert(r@.map_values(|w: Vec<Coord>| w@) =~= before.map_values(|w: Vec<Coord>| w@).push(ring@));
            },
            None => {},
        }
        i = i + 1;
    }
    assert(members@.take(i as int) =~= members@);
    r
}

} // verus!
