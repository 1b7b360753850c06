use flat_map::FlatMap;
use maps::coord::NodeId;
use maps::node::{Node, Nodes};

#[test]
fn test_get_node_by_id() {
    let node1 = Node::new(NodeId::new(1), FlatMap::new(), 0, 0);
    let node2 = Node::new(NodeId::new(2), FlatMap::new(), 0, 0);
    let node3 = Node::new(NodeId::new(3), FlatMap::new(), 0, 0);
    let nodes = Nodes::new(vec![node1.clone(), node2.clone(), node3.clone()]);

    assert_eq!(nodes.get_node_by_id(NodeId::new(1)), Some(&node1));
    assert_eq!(nodes.get_node_by_id(NodeId::new(2)), Some(&node2));
    assert_eq!(nodes.get_node_by_id(NodeId::new(3)), Some(&node3));
    assert_eq!(nodes.get_node_by_id(NodeId::new(4)), None);
}

#[test]
fn nodes_keep_the_first_of_a_repeated_id() {
    let first = Node::new(NodeId::new(5), FlatMap::new(), 10, 20);
    let second = Node::new(NodeId::new(5), FlatMap::new(), 30, 40);
    let nodes = Nodes::new(vec![first, second]);
    let found = nodes.get_node_by_id(NodeId::new(5)).unwrap();
    assert_eq!(found.lat_as_i64(), 10);
    assert_eq!(found.lon_as_i64(), 20);
    assert_eq!(nodes.nodes.len(), 1);
}

#[test]
fn node_tags_are_looked_up_by_key() {
    let mut tags = FlatMap::new();
    tags.insert("highway".to_string(), "primary".to_string());
    tags.insert("name".to_string(), "Main".to_string());
    let node = Node::new(NodeId::new(9), tags, -5, 7);
    assert_eq!(node.get_tag("highway"), Some(&"primary".to_string()));
    assert_eq!(node.get_tag("name"), Some(&"Main".to_string()));
    assert_eq!(node.get_tag("railway"), None);
    assert_eq!(node.id(), NodeId::new(9));
    assert_eq!(node.tags().len(), 2);
    assert_eq!((node.lat_as_i64(), node.lon_as_i64()), (-5, 7));
}

#[test]
fn nodes_compare_by_id() {
    let a = Node::new(NodeId::new(1), FlatMap::new(), 0, 0);
    let b = Node::new(NodeId::new(1), FlatMap::new(), 5, 5);
    let c = Node::new(NodeId::new(2), FlatMap::new(), 0, 0);
    assert_eq!(a, b);
    assert_ne!(a, c);
}
