use softbody::node::Node;
use softbody::scene::Bond;
use softbody::scene::ConnectionMap;
use softbody::scene::Scene;

fn node(object_id: u32, is_boundary: bool) -> Node<f32> {
    Node { state: 0.0, object_id, is_boundary }
}

#[test]
fn new_map_is_empty() {
    let map: ConnectionMap<(f32, f32)> = ConnectionMap::new();
    assert_eq!(map.len(), 0);
    assert!(map.bonds().is_empty());
    assert_eq!(map.get(0, 1), None);
    assert!(!map.contains_key(0, 1));
}

#[test]
fn insert_stores_the_smaller_index_first() {
    let mut map: ConnectionMap<(f32, f32)> = ConnectionMap::new();
    assert!(map.insert(5, 2, (0.1, 100.0)));
    assert_eq!(map.len(), 1);
    assert_eq!(map.bonds()[0], Bond { a: 2, b: 5, params: (0.1, 100.0) });
    assert_eq!(map.get(2, 5), Some((0.1, 100.0)));
    assert_eq!(map.get(5, 2), Some((0.1, 100.0)));
    assert!(map.contains_key(5, 2));
    assert!(!map.contains_key(2, 4));
}

#[test]
fn insert_keeps_the_first_bond_of_a_pair() {
    let mut map: ConnectionMap<u32> = ConnectionMap::new();
    assert!(map.insert(0, 1, 10));
    assert!(!map.insert(1, 0, 20));
    assert!(!map.insert(0, 1, 30));
    assert_eq!(map.len(), 1);
    assert_eq!(map.get(0, 1), Some(10));
}

#[test]
fn insert_refuses_a_bond_from_a_node_to_itself() {
    let mut map: ConnectionMap<u32> = ConnectionMap::new();
    assert!(!map.insert(3, 3, 1));
    assert_eq!(map.len(), 0);
}

#[test]
fn remove_returns_the_parameters_and_keeps_the_order_of_the_rest() {
    let mut map: ConnectionMap<u32> = ConnectionMap::new();
    map.insert(0, 1, 10);
    map.insert(1, 2, 20);
    map.insert(2, 3, 30);
    assert_eq!(map.remove(2, 1), Some(20));
    assert_eq!(map.len(), 2);
    assert_eq!(map.bonds()[0], Bond { a: 0, b: 1, params: 10 });
    assert_eq!(map.bonds()[1], Bond { a: 2, b: 3, params: 30 });
    assert_eq!(map.remove(1, 2), None);
    assert_eq!(map.len(), 2);
}

#[test]
fn snapshot_of_a_map_holds_the_same_bonds() {
    let mut map: ConnectionMap<u32> = ConnectionMap::new();
    map.insert(0, 1, 10);
    map.insert(4, 2, 20);
    let copy = map.snapshot();
    assert_eq!(copy.bonds(), map.bonds());
    map.remove(0, 1);
    assert_eq!(copy.len(), 2);
    assert_eq!(map.len(), 1);
}

#[test]
fn scene_is_valid_when_every_bond_ends_at_a_node() {
    let mut connections: ConnectionMap<u32> = ConnectionMap::new();
    connections.insert(0, 1, 1);
    connections.insert(1, 2, 1);
    let scene = Scene {
        nodes: vec![node(1, true), node(1, false), node(1, true)],
        connections,
        object_repulsion: 7,
    };
    assert!(scene.is_valid());
}

#[test]
fn scene_is_invalid_when_a_bond_points_past_the_nodes() {
    let mut connections: ConnectionMap<u32> = ConnectionMap::new();
    connections.insert(0, 1, 1);
    connections.insert(1, 3, 1);
    let scene = Scene {
        nodes: vec![node(1, true), node(1, false), node(1, true)],
        connections,
        object_repulsion: 7,
    };
    assert!(!scene.is_valid());
}

#[test]
fn scene_without_nodes_and_bonds_is_valid() {
    let scene: Scene<f32, u32> =
        Scene { nodes: Vec::new(), connections: ConnectionMap::new(), object_repulsion: 0 };
    assert!(scene.is_valid());
}

#[test]
fn snapshot_of_a_scene_is_an_equal_and_independent_copy() {
    let mut connections: ConnectionMap<(f32, f32)> = ConnectionMap::new();
    connections.insert(0, 1, (0.1, 100.0));
    let mut scene = Scene {
        nodes: vec![node(1, true), node(2, false)],
        connections,
        object_repulsion: (0.015, 10.0),
    };
    let copy = scene.snapshot();
    assert_eq!(copy.nodes, scene.nodes);
    assert_eq!(copy.connections.bonds(), scene.connections.bonds());
    assert_eq!(copy.object_repulsion, (0.015, 10.0));
    scene.nodes[0].state = f32::NAN;
    scene.connections.remove(0, 1);
    assert_eq!(copy.nodes[0].state, 0.0);
    assert_eq!(copy.connections.len(), 1);
}
