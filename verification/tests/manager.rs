use softbody::grid::GridLayout;
use softbody::manager::Rebuilt;
use softbody::manager::SimulationEngineEnum;
use softbody::manager::SimulationManager;
use softbody::manager::SimulationSettings;
use softbody::manager::TimestepChange;
use softbody::node::Node;
use softbody::scene::ConnectionMap;
use softbody::scene::Scene;

type Point = (f32, f32);
type Potential = (f32, f32);

fn settings(use_grid: bool, use_auto_dt: bool) -> SimulationSettings {
    SimulationSettings {
        steps_per_frame: 5,
        engine: SimulationEngineEnum::Cpu,
        use_grid,
        log_to_csv: false,
        use_backup: true,
        use_auto_dt,
    }
}

// Two bodies of two nodes each, one bond per body.
fn scene() -> Scene<Point, Potential> {
    let mut connections = ConnectionMap::new();
    connections.insert(0, 1, (0.1, 100.0));
    connections.insert(2, 3, (0.1, 100.0));
    Scene {
        nodes: vec![
            Node { state: (0.0, 0.0), object_id: 1, is_boundary: true },
            Node { state: (0.1, 0.0), object_id: 1, is_boundary: false },
            Node { state: (0.0, 0.5), object_id: 2, is_boundary: true },
            Node { state: (0.1, 0.5), object_id: 2, is_boundary: false },
        ],
        connections,
        object_repulsion: (0.015, 10.0),
    }
}

fn layout(scene: &Scene<Point, Potential>) -> GridLayout {
    // cells of 0.25 by 0.25 over the square from (0, 0) to (1, 1)
    GridLayout {
        cell_count_x: 4,
        cell_count_y: 4,
        node_cells: scene
            .nodes
            .iter()
            .map(|n| ((n.state.0 / 0.25) as i32, (n.state.1 / 0.25) as i32))
            .collect(),
    }
}

fn is_broken(scene: &Scene<Point, Potential>) -> bool {
    scene.nodes.iter().any(|n| !n.state.0.is_finite() || !n.state.1.is_finite())
}

#[test]
fn new_manager_primes_the_derived_structures() {
    let s = scene();
    let l = layout(&s);
    let manager = SimulationManager::new(settings(false, false), s, &l);
    assert_eq!(manager.scene.nodes.len(), 4);
    assert_eq!(manager.scene_backup.nodes, manager.scene.nodes);
    assert_eq!(manager.scene_backup.connections.bonds(), manager.scene.connections.bonds());
    assert_eq!(
        manager.connections_structure,
        vec![
            vec![(1, (0.1, 100.0))],
            vec![(0, (0.1, 100.0))],
            vec![(3, (0.1, 100.0))],
            vec![(2, (0.1, 100.0))],
        ]
    );
    assert_eq!(manager.collisions_structure, vec![vec![2], vec![], vec![0], vec![]]);
    assert_eq!(manager.grid.cell_count_x, 4);
    assert_eq!(manager.grid.cell_count_y, 4);
    assert_eq!(manager.grid.cells[0][0], vec![0]);
    assert_eq!(manager.grid.cells[0][2], vec![2]);
    assert!(!manager.last_iteration_use_grid);
    assert_eq!(manager.settings.steps_per_frame, 5);
    assert_eq!(manager.settings.engine, SimulationEngineEnum::Cpu);
}

#[test]
fn connection_break_rebuilds_adjacency_and_collisions_without_grid() {
    let s = scene();
    let l = layout(&s);
    let mut manager = SimulationManager::new(settings(false, false), s, &l);
    let rebuilt = manager.connection_break(&vec![(2, 3)]);
    assert_eq!(rebuilt, Rebuilt { connections: true, collisions: true });
    assert_eq!(manager.scene.connections.len(), 1);
    assert!(manager.scene.nodes[3].is_boundary);
    assert_eq!(
        manager.connections_structure,
        vec![vec![(1, (0.1, 100.0))], vec![(0, (0.1, 100.0))], vec![], vec![]]
    );
    assert_eq!(manager.collisions_structure, vec![vec![2, 3], vec![], vec![0], vec![0]]);
    assert_eq!(manager.scene_backup.connections.len(), 2);
    assert!(!manager.scene_backup.nodes[3].is_boundary);
}

#[test]
fn connection_break_leaves_collisions_to_the_grid_when_it_is_on() {
    let s = scene();
    let l = layout(&s);
    let mut manager = SimulationManager::new(settings(true, false), s, &l);
    let rebuilt = manager.connection_break(&vec![(0, 1)]);
    assert_eq!(rebuilt, Rebuilt { connections: true, collisions: false });
    assert!(manager.connections_structure[0].is_empty());
    assert!(manager.connections_structure[1].is_empty());
    assert_eq!(manager.collisions_structure, vec![vec![2], vec![], vec![0], vec![]]);
}

#[test]
fn connection_break_without_a_break_rebuilds_nothing() {
    let s = scene();
    let l = layout(&s);
    let mut manager = SimulationManager::new(settings(false, false), s, &l);
    let before = manager.connections_structure.clone();
    let rebuilt = manager.connection_break(&Vec::new());
    assert_eq!(rebuilt, Rebuilt { connections: false, collisions: false });
    let rebuilt = manager.connection_break(&vec![(1, 2)]);
    assert_eq!(rebuilt, Rebuilt { connections: false, collisions: false });
    assert_eq!(manager.connections_structure, before);
    assert_eq!(manager.scene.connections.len(), 2);
}

#[test]
fn update_grid_rebuilds_grid_and_collisions_when_the_grid_is_on() {
    let s = scene();
    let l = layout(&s);
    let mut manager = SimulationManager::new(settings(true, false), s, &l);
    // the second body falls next to the first
    manager.scene.nodes[2].state = (0.0, 0.2);
    manager.scene.nodes[3].state = (0.1, 0.2);
    manager.scene.nodes[3].is_boundary = true;
    let moved = layout(&manager.scene);
    let rebuilt = manager.update_grid(&moved);
    assert_eq!(rebuilt, Rebuilt { connections: false, collisions: true });
    assert_eq!(manager.grid.cells[0][0], vec![0, 2, 3]);
    assert!(manager.grid.cells[0][2].is_empty());
    assert_eq!(manager.collisions_structure, vec![vec![2, 3], vec![], vec![0], vec![0]]);
}

#[test]
fn update_grid_drops_candidates_that_are_far_apart() {
    let s = scene();
    let l = layout(&s);
    let mut manager = SimulationManager::new(settings(true, false), s, &l);
    let rebuilt = manager.update_grid(&l);
    assert!(rebuilt.collisions);
    // cells (0, 0) and (0, 2) do not touch
    assert_eq!(manager.collisions_structure, vec![Vec::<usize>::new(), vec![], vec![], vec![]]);
}

#[test]
fn update_grid_does_nothing_when_the_grid_is_off() {
    let s = scene();
    let l = layout(&s);
    let mut manager = SimulationManager::new(settings(false, false), s, &l);
    let other = GridLayout { cell_count_x: 1, cell_count_y: 1, node_cells: Vec::new() };
    let rebuilt = manager.update_grid(&other);
    assert_eq!(rebuilt, Rebuilt { connections: false, collisions: false });
    assert_eq!(manager.grid.cell_count_x, 4);
    assert_eq!(manager.collisions_structure, vec![vec![2], vec![], vec![0], vec![]]);
}

#[test]
fn grid_check_rebuilds_collisions_once_after_the_grid_is_switched_off() {
    let s = scene();
    let l = layout(&s);
    let mut manager = SimulationManager::new(settings(true, false), s, &l);
    assert_eq!(manager.grid_check(), Rebuilt { connections: false, collisions: false });
    assert!(manager.last_iteration_use_grid);
    manager.update_grid(&l);
    assert_eq!(manager.collisions_structure, vec![Vec::<usize>::new(), vec![], vec![], vec![]]);

    manager.settings.use_grid = false;
    assert_eq!(manager.grid_check(), Rebuilt { connections: false, collisions: true });
    assert_eq!(manager.collisions_structure, vec![vec![2], vec![], vec![0], vec![]]);
    assert!(!manager.last_iteration_use_grid);

    manager.collisions_structure = Vec::new();
    assert_eq!(manager.grid_check(), Rebuilt { connections: false, collisions: false });
    assert!(manager.collisions_structure.is_empty());
}

#[test]
fn grid_check_does_nothing_while_the_grid_stays_off() {
    let s = scene();
    let l = layout(&s);
    let mut manager = SimulationManager::new(settings(false, false), s, &l);
    manager.collisions_structure = Vec::new();
    assert_eq!(manager.grid_check(), Rebuilt { connections: false, collisions: false });
    assert!(manager.collisions_structure.is_empty());
    assert!(!manager.last_iteration_use_grid);
}

#[test]
fn a_broken_scene_is_restored_from_the_backup() {
    let s = scene();
    let l = layout(&s);
    let mut manager = SimulationManager::new(settings(false, true), s, &l);
    // the scene moves on, a bond breaks, then a position blows up
    manager.scene.nodes[1].state = (0.3, 0.0);
    manager.connection_break(&vec![(0, 1)]);
    manager.scene.nodes[0].state = (f32::NAN, 0.0);
    assert!(is_broken(&manager.scene));

    let backup_layout = layout(&manager.scene_backup);
    let broken = is_broken(&manager.scene);
    let change = manager.restore_if_broken(broken, &backup_layout);
    assert_eq!(change, TimestepChange::Halve);
    assert!(!is_broken(&manager.scene));
    assert_eq!(manager.scene.nodes, scene().nodes);
    assert_eq!(manager.scene.connections.bonds(), scene().connections.bonds());
    assert_eq!(manager.scene.object_repulsion, (0.015, 10.0));
    assert_eq!(manager.scene_backup.nodes, scene().nodes);
    assert_eq!(manager.connections_structure[0], vec![(1, (0.1, 100.0))]);
    assert_eq!(manager.connections_structure[1], vec![(0, (0.1, 100.0))]);
    assert_eq!(manager.collisions_structure, vec![vec![2], vec![], vec![0], vec![]]);
    assert_eq!(manager.grid.cells[0][0], vec![0]);
}

#[test]
fn a_healthy_scene_becomes_the_new_backup() {
    let s = scene();
    let l = layout(&s);
    let mut manager = SimulationManager::new(settings(false, true), s, &l);
    manager.scene.nodes[1].state = (0.3, 0.0);
    manager.connection_break(&vec![(0, 1)]);
    let broken = is_broken(&manager.scene);
    assert!(!broken);
    let change = manager.restore_if_broken(broken, &l);
    assert_eq!(change, TimestepChange::Grow);
    assert_eq!(manager.scene_backup.nodes, manager.scene.nodes);
    assert_eq!(manager.scene_backup.nodes[1].state, (0.3, 0.0));
    assert_eq!(manager.scene_backup.connections.len(), 1);
    assert_eq!(manager.scene.connections.len(), 1);
}

#[test]
fn a_healthy_scene_with_a_fixed_step_keeps_it() {
    let s = scene();
    let l = layout(&s);
    let mut manager = SimulationManager::new(settings(false, false), s, &l);
    let change = manager.restore_if_broken(false, &l);
    assert_eq!(change, TimestepChange::Keep);
}

#[test]
fn a_scene_broken_twice_goes_back_to_the_same_backup() {
    let s = scene();
    let l = layout(&s);
    let mut manager = SimulationManager::new(settings(true, false), s, &l);
    for _ in 0..2 {
        manager.scene.nodes[2].state = (0.0, f32::INFINITY);
        let broken = is_broken(&manager.scene);
        let change = manager.restore_if_broken(broken, &l);
        assert_eq!(change, TimestepChange::Halve);
        assert_eq!(manager.scene.nodes, scene().nodes);
    }
}

#[test]
fn engines_compare_by_variant() {
    assert_eq!(SimulationEngineEnum::Cpu, SimulationEngineEnum::Cpu);
    assert_ne!(SimulationEngineEnum::CpuMultithread, SimulationEngineEnum::CpuMultithreadSingleKernel);
    assert_ne!(SimulationEngineEnum::OpenCl, SimulationEngineEnum::NoEngine);
}

#[test]
fn the_selected_engine_runs_when_it_can() {
    let mut s = settings(false, false);
    for engine in [
        SimulationEngineEnum::Cpu,
        SimulationEngineEnum::CpuMultithread,
        SimulationEngineEnum::CpuMultithreadSingleKernel,
        SimulationEngineEnum::NoEngine,
    ] {
        s.engine = engine;
        assert_eq!(s.effective_engine(false), engine);
        assert_eq!(s.effective_engine(true), engine);
    }
    s.engine = SimulationEngineEnum::OpenCl;
    assert_eq!(s.effective_engine(true), SimulationEngineEnum::OpenCl);
}

#[test]
fn the_device_engine_falls_back_to_the_cpu_without_a_device() {
    let mut s = settings(false, false);
    s.engine = SimulationEngineEnum::OpenCl;
    assert_eq!(s.effective_engine(false), SimulationEngineEnum::CpuMultithreadSingleKernel);
}

#[test]
fn device_copies_go_stale_only_for_the_device_engine() {
    let all = Rebuilt { connections: true, collisions: true };
    let some = Rebuilt { connections: false, collisions: true };
    let none = Rebuilt { connections: false, collisions: false };
    let mut s = settings(false, false);
    assert_eq!(s.device_refresh(all), none);
    s.engine = SimulationEngineEnum::CpuMultithread;
    assert_eq!(s.device_refresh(some), none);
    s.engine = SimulationEngineEnum::OpenCl;
    assert_eq!(s.device_refresh(all), all);
    assert_eq!(s.device_refresh(some), some);
    assert_eq!(s.device_refresh(none), none);
}
