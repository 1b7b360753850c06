use std::collections::HashMap;

use flat_map::FlatMap;
use vstd::prelude::*;

use crate::coord::NodeId;

verus! {

broadcast use vstd::std_specs::hash::group_hash_axioms;

#[verifier::external_type_specification]
#[verifier::external_body]
#[verifier::reject_recursive_types(K)]
#[verifier::reject_recursive_types(V)]
pub struct ExFlatMap<K, V>(FlatMap<K, V>);

/// Relies on the `Clone` that `FlatMap` derives; nothing is claimed of the
/// copy. `Node`'s derived `Clone` calls it.
pub assume_specification<K: Clone, V: Clone>[ <FlatMap<K, V> as Clone>::clone ](m: &FlatMap<K, V>) -> FlatMap<K, V>;

/// The entries of a tag map, key to value.
pub uninterp spec fn tag_entries(t: FlatMap<String, String>) -> Map<Seq<char>, Seq<char>>;

/// Relies on `FlatMap::get`, a binary search over the map's entries, which
/// the map keeps sorted by key and free of repeated keys: the value stored
/// under `key`, if there is one.
#[verifier::external_body]
fn tag_value<'a>(t: &'a FlatMap<String, String>, key: &str) -> (r: Option<&'a String>)
    ensures
        r is None <==> !tag_entries(*t).contains_key(key@),
        r matches Some(v) ==> v@ == tag_entries(*t)[key@],
{
    t.get(key)
}

/// A map node: its id, its tags and its position in decimicro-degrees.
#[derive(Clone, Debug)]
pub struct Node {
    pub id: NodeId,
    pub tags: FlatMap<String, String>,
    pub lat: i64,
    pub lon: i64,
}

impl PartialEq for Node {
    fn eq(&self, other: &Node) -> (r: bool) {
        self.id.0 == other.id.0
    }
}

impl vstd::std_specs::cmp::PartialEqSpecImpl for Node {
    open spec fn obeys_eq_spec() -> bool {
        true
    }

    open spec fn eq_spec(&self, other: &Node) -> bool {
        self.id == other.id
    }
}

impl Eq for Node {}

impl Node {
    pub fn new(id: NodeId, tags: FlatMap<String, String>, lat: i64, lon: i64) -> (r: Node)
        ensures
            r.id == id,
            r.tags == tags,
            r.lat == lat,
            r.lon == lon,
    {
        Node { id, tags, lat, lon }
    }

    pub fn id(&self) -> (r: NodeId)
        ensures
            r == self.id,
    {
        self.id
    }

    pub fn tags(&self) -> (r: &FlatMap<String, String>)
        ensures
            *r == self.tags,
    {
        &self.tags
    }

    /// The latitude in decimicro-degrees.
    pub fn lat_as_i64(&self) -> (r: i64)
        ensures
            r == self.lat,
    {
        self.lat
    }

    /// The longitude in decimicro-degrees.
    pub fn lon_as_i64(&self) -> (r: i64)
        ensures
            r == self.lon,
    {
        self.lon
    }

    /// The value of the tag `key`, if the node has it.
    pub fn get_tag(&self, key: &str) -> (r: Option<&String>)
        ensures
            r is None <==> !tag_entries(self.tags).contains_key(key@),
            r matches Some(v) ==> v@ == tag_entries(self.tags)[key@],
    {
        tag_value(&self.tags, key)
    }
}

/// For each id, the first node of `v` that has it.
pub open spec fn first_by_id(v: Seq<Node>) -> Map<i64, Node>
    decreases v.len(),
{
    if v.len() == 0 {
        Map::empty()
    } else {
        first_by_id(v.drop_first()).insert(v[0].id.0, v[0])
    }
}

/// A set of nodes, one per id, looked up by id.
pub struct Nodes {
    pub nodes: HashMap<i64, Node>,
}

impl Nodes {
    /// The nodes of `nodes`; of several with one id, the first is kept.
    pub fn new(nodes: Vec<Node>) -> (r: Nodes)
        ensures
            r.nodes@ == first_by_id(nodes@),
    {
        let ghost all = nodes@;
        let mut rest = nodes;
        let mut m: HashMap<i64, Node> = HashMap::new();
        assert(all.subrange(all.len() as int, all.len() as int) =~= Seq::<Node>::empty());
        while rest.len() > 0
            invariant
                rest@ == all.take(rest@.len() as int),
                rest@.len() <= all.len(),
                m@ == first_by_id(all.subrange(rest@.len() as int, all.len() as int)),
            decreases rest@.len(),
        {
            let ghost k = rest@.len() as int;
            let node = rest.pop().unwrap();
            assert(node == all[k - 1]);
            assert(all.subrange(k - 1, all.len() as int).drop_first() =~= all.subrange(k, all.len() as int));
            assert(rest@ =~= all.take(k - 1));
            m.insert(node.id.0, node);
        }
        assert(all.subrange(0, all.len() as int) =~= all);
        Nodes { nodes: m }
    }

    /// The node whose id is `id`, if there is one.
    pub fn get_node_by_id(&self, id: NodeId) -> (r: Option<&Node>)
        ensures
            r is None <==> !self.nodes@.contains_key(id.0),
            r matches Some(n) ==> *n == self.nodes@[id.0],
    {
        self.nodes.get(&id.0)
    }
}

} // verus!
