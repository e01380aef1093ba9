use softbody::collisions::calculate_collisions_structure_simple;
use softbody::collisions::calculate_collisions_structure_with_grid;
use softbody::adjacency::calculate_connections_structure;
use softbody::adjacency::lists_are_closed;
use softbody::collisions::calculate_objects_interactions_structure;
use softbody::grid::Grid;
use softbody::grid::GridLayout;
use softbody::node::Node;
use softbody::scene::ConnectionMap;

fn node(object_id: u32, is_boundary: bool) -> Node<(f32, f32)> {
    Node { state: (0.0, 0.0), object_id, is_boundary }
}

#[test]
fn adjacency_mirrors_each_bond_into_both_ends() {
    let nodes = vec![node(1, false), node(1, false), node(1, false), node(1, false)];
    let mut connections: ConnectionMap<(f32, f32)> = ConnectionMap::new();
    connections.insert(0, 1, (0.1, 100.0));
    connections.insert(2, 1, (0.2, 50.0));
    connections.insert(0, 2, (0.3, 25.0));
    let structure = calculate_connections_structure(&connections, &nodes);
    assert_eq!(structure.len(), 4);
    assert_eq!(structure[0], vec![(1, (0.1, 100.0)), (2, (0.3, 25.0))]);
    assert_eq!(structure[1], vec![(0, (0.1, 100.0)), (2, (0.2, 50.0))]);
    assert_eq!(structure[2], vec![(1, (0.2, 50.0)), (0, (0.3, 25.0))]);
    assert!(structure[3].is_empty());
}

#[test]
fn adjacency_of_no_bonds_has_an_empty_list_per_node() {
    let nodes = vec![node(1, true), node(2, true)];
    let connections: ConnectionMap<u8> = ConnectionMap::new();
    let structure = calculate_connections_structure(&connections, &nodes);
    assert_eq!(structure, vec![Vec::new(), Vec::new()]);
}

#[test]
fn adjacency_of_no_nodes_is_empty() {
    let nodes: Vec<Node<u8>> = Vec::new();
    let connections: ConnectionMap<u8> = ConnectionMap::new();
    let structure = calculate_connections_structure(&connections, &nodes);
    assert!(structure.is_empty());
}

#[test]
fn adjacency_is_symmetric() {
    let nodes: Vec<Node<(f32, f32)>> = (0..6).map(|_| node(1, false)).collect();
    let mut connections: ConnectionMap<u32> = ConnectionMap::new();
    let pairs = [(0, 1), (1, 2), (2, 3), (3, 4), (4, 5), (5, 0), (0, 3), (1, 4)];
    for (k, (a, b)) in pairs.iter().enumerate() {
        connections.insert(*a, *b, k as u32);
    }
    let structure = calculate_connections_structure(&connections, &nodes);
    let mut entries = 0;
    for i in 0..nodes.len() {
        for (j, params) in &structure[i] {
            assert!(structure[*j].contains(&(i, *params)));
            entries += 1;
        }
    }
    assert_eq!(entries, 2 * pairs.len());
}

#[test]
fn brute_force_lists_boundary_nodes_of_other_bodies() {
    let nodes = vec![
        node(1, true),
        node(1, false),
        node(2, true),
        node(2, true),
        node(3, false),
        node(3, true),
    ];
    let structure = calculate_collisions_structure_simple(&nodes);
    assert_eq!(structure.len(), 6);
    assert_eq!(structure[0], vec![2, 3, 5]);
    assert!(structure[1].is_empty());
    assert_eq!(structure[2], vec![0, 5]);
    assert_eq!(structure[3], vec![0, 5]);
    assert!(structure[4].is_empty());
    assert_eq!(structure[5], vec![0, 2, 3]);
}

#[test]
fn brute_force_of_one_body_has_no_candidates() {
    let nodes = vec![node(1, true), node(1, true), node(1, true)];
    let structure = calculate_collisions_structure_simple(&nodes);
    assert_eq!(structure, vec![Vec::<usize>::new(), Vec::new(), Vec::new()]);
}

#[test]
fn brute_force_of_many_nodes_keeps_the_rows_in_node_order() {
    let nodes: Vec<Node<(f32, f32)>> = (0..500).map(|i| node(i % 5, i % 2 == 0)).collect();
    let structure = calculate_collisions_structure_simple(&nodes);
    assert_eq!(structure.len(), 500);
    for i in 0..500usize {
        let expected: Vec<usize> = if i % 2 == 0 {
            (0..500usize).filter(|j| j % 2 == 0 && j % 5 != i % 5).collect()
        } else {
            Vec::new()
        };
        assert_eq!(structure[i], expected);
    }
}

#[test]
fn grid_structure_lists_other_bodies_in_the_block() {
    let nodes = vec![
        node(1, true),
        node(2, true),
        node(2, true),
        node(1, true),
        node(2, false),
        node(3, true),
    ];
    let layout = GridLayout {
        cell_count_x: 4,
        cell_count_y: 1,
        node_cells: vec![(0, 0), (1, 0), (2, 0), (1, 0), (0, 0), (3, 0)],
    };
    let grid = Grid::new(&nodes, &layout);
    let structure = calculate_collisions_structure_with_grid(&nodes, &grid, &layout);
    assert_eq!(structure.len(), 6);
    assert_eq!(structure[0], vec![1]);
    assert_eq!(structure[1], vec![3, 0]);
    assert_eq!(structure[2], vec![3, 5]);
    assert_eq!(structure[3], vec![1, 2]);
    assert!(structure[4].is_empty());
    assert_eq!(structure[5], vec![2]);
}

#[test]
fn grid_structure_agrees_with_brute_force_on_adjacent_cells() {
    let placed: Vec<(u32, bool, (i32, i32))> = vec![
        (1, true, (0, 0)),
        (1, true, (1, 1)),
        (2, true, (1, 0)),
        (2, false, (2, 2)),
        (2, true, (2, 2)),
        (3, true, (4, 4)),
        (3, true, (3, 3)),
        (1, true, (2, 1)),
        (2, true, (0, 4)),
        (3, true, (-3, 9)),
    ];
    let nodes: Vec<Node<(f32, f32)>> = placed.iter().map(|p| node(p.0, p.1)).collect();
    let layout = GridLayout {
        cell_count_x: 5,
        cell_count_y: 5,
        node_cells: placed.iter().map(|p| p.2).collect(),
    };
    let clamped: Vec<(i32, i32)> =
        placed.iter().map(|p| (p.2 .0.clamp(0, 4), p.2 .1.clamp(0, 4))).collect();
    let grid = Grid::new(&nodes, &layout);
    let fast = calculate_collisions_structure_with_grid(&nodes, &grid, &layout);
    let slow = calculate_collisions_structure_simple(&nodes);
    for i in 0..nodes.len() {
        for j in 0..nodes.len() {
            let near = (clamped[i].0 - clamped[j].0).abs() <= 1
                && (clamped[i].1 - clamped[j].1).abs() <= 1;
            assert_eq!(fast[i].contains(&j), slow[i].contains(&j) && near);
        }
        let mut seen = fast[i].clone();
        seen.sort();
        seen.dedup();
        assert_eq!(seen.len(), fast[i].len());
    }
}

#[test]
fn grid_structure_of_an_empty_grid_has_no_candidates() {
    let nodes = vec![node(1, true), node(2, true)];
    let layout = GridLayout { cell_count_x: 0, cell_count_y: 0, node_cells: vec![(0, 0), (0, 0)] };
    let grid = Grid::new(&nodes, &layout);
    let structure = calculate_collisions_structure_with_grid(&nodes, &grid, &layout);
    assert_eq!(structure, vec![Vec::<usize>::new(), Vec::new()]);
}

#[test]
fn bodies_map_to_their_boundary_nodes() {
    let nodes = vec![
        node(7, true),
        node(7, false),
        node(9, true),
        node(7, true),
        node(4, false),
        node(9, true),
    ];
    let bodies = calculate_objects_interactions_structure(&nodes);
    assert_eq!(bodies.len(), 2);
    assert_eq!(bodies[&7], vec![0, 3]);
    assert_eq!(bodies[&9], vec![2, 5]);
    assert!(!bodies.contains_key(&4));
}

#[test]
fn bodies_without_boundary_nodes_give_an_empty_map() {
    let nodes = vec![node(1, false), node(2, false)];
    let bodies = calculate_objects_interactions_structure(&nodes);
    assert!(bodies.is_empty());
}

#[test]
fn built_adjacency_lists_are_closed() {
    let nodes = vec![node(1, false), node(1, false), node(1, false)];
    let mut connections: ConnectionMap<u8> = ConnectionMap::new();
    connections.insert(0, 2, 1);
    connections.insert(1, 2, 1);
    let structure = calculate_connections_structure(&connections, &nodes);
    assert!(lists_are_closed(&structure));
    let empty: Vec<Vec<(usize, u8)>> = Vec::new();
    assert!(lists_are_closed(&empty));
}

#[test]
fn lists_with_a_neighbour_past_the_end_are_not_closed() {
    let structure: Vec<Vec<(usize, u8)>> = vec![vec![(1, 0)], vec![(0, 0), (2, 0)]];
    assert!(!lists_are_closed(&structure));
    let structure: Vec<Vec<(usize, u8)>> = vec![vec![], vec![(0, 0), (1, 0)]];
    assert!(lists_are_closed(&structure));
}

#[test]
fn adjacency_lists_a_neighbour_once() {
    let nodes: Vec<Node<(f32, f32)>> = (0..4).map(|_| node(1, false)).collect();
    let mut connections: ConnectionMap<u32> = ConnectionMap::new();
    connections.insert(0, 1, 1);
    connections.insert(1, 0, 2);
    connections.insert(0, 2, 3);
    connections.insert(2, 0, 4);
    connections.insert(3, 0, 5);
    let structure = calculate_connections_structure(&connections, &nodes);
    assert_eq!(structure[0], vec![(1, 1), (2, 3), (3, 5)]);
    assert_eq!(structure[1], vec![(0, 1)]);
    assert_eq!(structure[2], vec![(0, 3)]);
    assert_eq!(structure[3], vec![(0, 5)]);
}

#[test]
fn candidates_are_mutual() {
    let placed: Vec<(u32, bool, (i32, i32))> = vec![
        (1, true, (0, 0)),
        (2, true, (1, 1)),
        (2, true, (3, 3)),
        (3, false, (1, 0)),
        (3, true, (2, 2)),
        (1, true, (2, 3)),
    ];
    let nodes: Vec<Node<(f32, f32)>> = placed.iter().map(|p| node(p.0, p.1)).collect();
    let layout = GridLayout {
        cell_count_x: 4,
        cell_count_y: 4,
        node_cells: placed.iter().map(|p| p.2).collect(),
    };
    let grid = Grid::new(&nodes, &layout);
    let fast = calculate_collisions_structure_with_grid(&nodes, &grid, &layout);
    let slow = calculate_collisions_structure_simple(&nodes);
    for i in 0..nodes.len() {
        for j in 0..nodes.len() {
            assert_eq!(slow[i].contains(&j), slow[j].contains(&i));
            assert_eq!(fast[i].contains(&j), fast[j].contains(&i));
        }
    }
    assert_eq!(fast[1], vec![0, 4]);
    assert_eq!(fast[4], vec![5, 1, 2]);
}

#[test]
fn moving_the_nodes_does_not_change_the_brute_force_lists() {
    let mut nodes = vec![node(1, true), node(2, true), node(2, false), node(3, true)];
    let before = calculate_collisions_structure_simple(&nodes);
    for (i, n) in nodes.iter_mut().enumerate() {
        n.state = (i as f32 * 0.5, -1.0);
    }
    assert_eq!(calculate_collisions_structure_simple(&nodes), before);
}
