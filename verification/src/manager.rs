use crate::adjacency::calculate_connections_structure;
use crate::adjacency::is_adjacency_of;
use crate::bond_break::breaks_any;
use crate::bond_break::exposed_nodes;
use crate::bond_break::handle_connection_break;
use crate::bond_break::key_set;
use crate::bond_break::lemma_nothing_breaks;
use crate::collisions::calculate_collisions_structure_simple;
use crate::collisions::calculate_collisions_structure_with_grid;
use crate::collisions::is_grid_structure;
use crate::collisions::is_simple_structure;
use crate::collisions::lemma_simple_row_ignores_state;
use crate::collisions::same_topology;
use crate::collisions::simple_row;
use crate::grid::Grid;
use crate::grid::GridLayout;
use crate::scene::Scene;
use crate::scene::without_keys;
use vstd::prelude::*;

verus! {

/// The strategy that advances the scene by one integration step.
#[derive(PartialEq, Eq, Clone, Copy, Debug, Structural)]
pub enum SimulationEngineEnum {
    Cpu,
    CpuMultithread,
    CpuMultithreadSingleKernel,
    OpenCl,
    /// No engine is selected: the scene stands still.
    NoEngine,
}

/// The switches of a simulation. Step sizes and intervals are kept by the
/// caller's clock.
#[derive(Clone, Copy, Debug)]
pub struct SimulationSettings {
    pub steps_per_frame: u32,
    pub engine: SimulationEngineEnum,
    pub use_grid: bool,
    pub log_to_csv: bool,
    pub use_backup: bool,
    pub use_auto_dt: bool,
}

impl SimulationSettings {
    /// The engine that runs a step: the selected one, unless the device
    /// engine is selected and no device engine could be built. Then the
    /// single-kernel CPU engine stands in.
    pub fn effective_engine(&self, device_available: bool) -> (engine: SimulationEngineEnum)
        ensures
            engine == if self.engine == SimulationEngineEnum::OpenCl && !device_available {
                SimulationEngineEnum::CpuMultithreadSingleKernel
            } else {
                self.engine
            },
    {
        match self.engine {
            SimulationEngineEnum::OpenCl => {
                if device_available {
                    SimulationEngineEnum::OpenCl
                } else {
                    SimulationEngineEnum::CpuMultithreadSingleKernel
                }
            },
            selected => selected,
        }
    }

    /// Which device copies have to be uploaded again after `rebuilt`: those of
    /// the rebuilt structures if the device engine is selected, none
    /// otherwise.
    pub fn device_refresh(&self, rebuilt: Rebuilt) -> (stale: Rebuilt)
        ensures
            stale.connections == (rebuilt.connections && self.engine
                == SimulationEngineEnum::OpenCl),
            stale.collisions == (rebuilt.collisions && self.engine == SimulationEngineEnum::OpenCl),
    {
        match self.engine {
            SimulationEngineEnum::OpenCl => rebuilt,
            _ => Rebuilt { connections: false, collisions: false },
        }
    }
}

/// Which derived structures a call rebuilt. Copies of them held elsewhere,
/// such as device buffers, are out of date afterwards.
#[derive(PartialEq, Eq, Clone, Copy, Debug, Structural)]
pub struct Rebuilt {
    pub connections: bool,
    pub collisions: bool,
}

/// What the caller has to do with the time step after a backup check.
#[derive(PartialEq, Eq, Clone, Copy, Debug, Structural)]
pub enum TimestepChange {
    /// The scene had blown up and was restored: halve the step.
    Halve,
    /// The scene is healthy and the step adapts: grow it, up to its maximum.
    Grow,
    /// The scene is healthy and the step is fixed.
    Keep,
}

/// Owns a scene, its last good snapshot and the structures derived from it,
/// and keeps the derived structures in step with the scene.
#[derive(Debug)]
pub struct SimulationManager<S, P> {
    pub scene: Scene<S, P>,
    pub scene_backup: Scene<S, P>,
    pub connections_structure: Vec<Vec<(usize, P)>>,
    pub collisions_structure: Vec<Vec<usize>>,
    pub grid: Grid,
    pub settings: SimulationSettings,
    /// Whether the grid was in use when `grid_check` last ran.
    pub last_iteration_use_grid: bool,
}

impl<S: Copy + Sync, P: Copy> SimulationManager<S, P> {
    /// The adjacency lists match the bond map of the scene.
    pub open spec fn connections_current(&self) -> bool {
        is_adjacency_of(
            self.connections_structure@,
            self.scene.connections.entries(),
            self.scene.nodes@.len() as int,
        )
    }

    /// The collision lists are the brute-force lists of the scene.
    pub open spec fn collisions_simple(&self) -> bool {
        is_simple_structure(self.collisions_structure@, self.scene.nodes@)
    }

    /// The manager is in step with its scene: the scene and its snapshot are
    /// well formed, the adjacency lists match the bond map, and while the grid
    /// is off, and was off when `grid_check` last ran, the collision lists are
    /// the brute-force lists. With the grid on, the collision lists are those
    /// of the last `update_grid`.
    pub open spec fn coherent(&self) -> bool {
        &&& self.scene.wf()
        &&& self.scene_backup.wf()
        &&& self.connections_current()
        &&& !self.settings.use_grid && !self.last_iteration_use_grid ==> self.collisions_simple()
    }

    /// The collision lists are those that the grid gives for `layout`.
    pub open spec fn collisions_from_grid(&self, layout: &GridLayout) -> bool {
        &&& self.grid.built_from(self.scene.nodes@, layout)
        &&& is_grid_structure(
            self.collisions_structure@,
            self.scene.nodes@,
            &self.grid,
            layout.node_cells@,
        )
    }

    /// Integration keeps the manager in step: a manager that differs from a
    /// coherent one only in the numeric state of its nodes and in its grid is
    /// coherent.
    pub proof fn lemma_stepping_keeps_coherent(before: &Self, after: &Self)
        requires
            before.coherent(),
            same_topology(before.scene.nodes@, after.scene.nodes@),
            after.scene.connections.entries() == before.scene.connections.entries(),
            after.scene_backup == before.scene_backup,
            after.connections_structure == before.connections_structure,
            after.collisions_structure == before.collisions_structure,
            after.settings == before.settings,
            after.last_iteration_use_grid == before.last_iteration_use_grid,
        ensures
            after.coherent(),
    {
        if !after.settings.use_grid && !after.last_iteration_use_grid {
            assert forall|i: int| 0 <= i < after.scene.nodes@.len() implies (
            #[trigger] after.collisions_structure@[i])@ == simple_row(after.scene.nodes@, i) by {
                lemma_simple_row_ignores_state(before.scene.nodes@, after.scene.nodes@, i);
            }
        }
    }

    /// Takes over `scene`, keeps a snapshot of it as the first backup and
    /// builds the adjacency lists, the brute-force collision lists and the
    /// grid for `layout`.
    pub fn new(simulation_settings: SimulationSettings, scene: Scene<S, P>, layout: &GridLayout) -> (out:
        Self)
        requires
            scene.wf(),
            layout.node_cells@.len() == scene.nodes@.len(),
        ensures
            out.scene == scene,
            out.scene_backup.same_as(&scene),
            out.connections_current(),
            out.collisions_simple(),
            out.grid.built_from(scene.nodes@, layout),
            out.grid.holds_below(scene.nodes@.len() as int),
            out.settings == simulation_settings,
            !out.last_iteration_use_grid,
            out.coherent(),
    {
        let connections_structure = calculate_connections_structure(
            &scene.connections,
            &scene.nodes,
        );
        let collisions_structure = calculate_collisions_structure_simple(&scene.nodes);
        let grid = Grid::new(&scene.nodes, layout);
        let scene_backup = scene.snapshot();
        SimulationManager {
            scene,
            scene_backup,
            connections_structure,
            collisions_structure,
            grid,
            settings: simulation_settings,
            last_iteration_use_grid: false,
        }
    }

    /// Notices that the grid was switched off since the last call and then
    /// rebuilds the collision lists by brute force, once.
    pub fn grid_check(&mut self) -> (rebuilt: Rebuilt)
        ensures
            rebuilt.collisions == (old(self).last_iteration_use_grid && !old(self).settings.use_grid),
            !rebuilt.connections,
            rebuilt.collisions ==> final(self).collisions_simple(),
            !rebuilt.collisions ==> final(self).collisions_structure == old(self).collisions_structure,
            final(self).last_iteration_use_grid == old(self).settings.use_grid,
            final(self).scene == old(self).scene,
            final(self).scene_backup == old(self).scene_backup,
            final(self).connections_structure == old(self).connections_structure,
            final(self).grid == old(self).grid,
            final(self).settings == old(self).settings,
            old(self).coherent() ==> final(self).coherent(),
    {
        let switched_off = self.last_iteration_use_grid && !self.settings.use_grid;
        if switched_off {
            self.collisions_structure = calculate_collisions_structure_simple(&self.scene.nodes);
        }
        self.last_iteration_use_grid = self.settings.use_grid;
        Rebuilt { connections: false, collisions: switched_off }
    }

    /// Runs the bond-break controller on the pairs that the caller found
    /// stretched too far.
    ///
    /// If a bond broke, the adjacency lists are rebuilt, and with the grid
    /// off the collision lists too. With the grid on they are left for
    /// `update_grid`.
    pub fn connection_break(&mut self, connections_to_break: &Vec<(usize, usize)>) -> (rebuilt:
        Rebuilt)
        requires
            old(self).scene.wf(),
        ensures
            final(self).scene.wf(),
            final(self).scene.connections.entries() == without_keys(
                old(self).scene.connections.entries(),
                key_set(connections_to_break@),
            ),
            final(self).scene.nodes@ == exposed_nodes(
                old(self).scene.nodes@,
                old(self).scene.connections.entries(),
                key_set(connections_to_break@),
            ),
            final(self).scene.object_repulsion == old(self).scene.object_repulsion,
            rebuilt.connections == breaks_any(
                old(self).scene.connections.entries(),
                key_set(connections_to_break@),
            ),
            rebuilt.collisions == (rebuilt.connections && !old(self).settings.use_grid),
            rebuilt.connections ==> final(self).connections_current(),
            !rebuilt.connections ==> final(self).connections_structure == old(self).connections_structure,
            rebuilt.collisions ==> final(self).collisions_simple(),
            !rebuilt.collisions ==> final(self).collisions_structure == old(self).collisions_structure,
            final(self).scene_backup == old(self).scene_backup,
            final(self).grid == old(self).grid,
            final(self).settings == old(self).settings,
            final(self).last_iteration_use_grid == old(self).last_iteration_use_grid,
            old(self).coherent() ==> final(self).coherent(),
    {
        let ghost bonds_before = self.scene.connections.entries();
        let ghost nodes_before = self.scene.nodes@;
        let broke = handle_connection_break(
            &mut self.scene.nodes,
            &mut self.scene.connections,
            connections_to_break,
        );
        let mut rebuilt = Rebuilt { connections: broke, collisions: false };
        if broke {
            self.connections_structure = calculate_connections_structure(
                &self.scene.connections,
                &self.scene.nodes,
            );
            if !self.settings.use_grid {
                self.collisions_structure = calculate_collisions_structure_simple(
                    &self.scene.nodes,
                );
                rebuilt.collisions = true;
            }
        } else {
            proof {
                lemma_nothing_breaks(nodes_before, bonds_before, key_set(connections_to_break@));
            }
        }
        rebuilt
    }

    /// With the grid on, rebuilds the grid for `layout` and the collision
    /// lists from it. With the grid off, does nothing.
    pub fn update_grid(&mut self, layout: &GridLayout) -> (rebuilt: Rebuilt)
        requires
            old(self).settings.use_grid ==> layout.node_cells@.len() == old(self).scene.nodes@.len(),
        ensures
            rebuilt.collisions == old(self).settings.use_grid,
            !rebuilt.connections,
            rebuilt.collisions ==> final(self).collisions_from_grid(layout),
            !rebuilt.collisions ==> final(self).collisions_structure == old(self).collisions_structure && final(self).grid == old(self).grid,
            final(self).scene == old(self).scene,
            final(self).scene_backup == old(self).scene_backup,
            final(self).connections_structure == old(self).connections_structure,
            final(self).settings == old(self).settings,
            final(self).last_iteration_use_grid == old(self).last_iteration_use_grid,
            old(self).coherent() ==> final(self).coherent(),
    {
        if self.settings.use_grid {
            self.grid = Grid::new(&self.scene.nodes, layout);
            self.collisions_structure = calculate_collisions_structure_with_grid(
                &self.scene.nodes,
                &self.grid,
                layout,
            );
        }
        Rebuilt { connections: false, collisions: self.settings.use_grid }
    }

    /// The backup check. `broken` says whether the caller found a node
    /// position that is not finite.
    ///
    /// A broken scene is replaced by the last snapshot, every derived
    /// structure is rebuilt for it (the grid for `layout`, the collision lists
    /// by brute force), and the caller is told to halve the time step. A
    /// healthy scene becomes the new snapshot, and the caller is told to grow
    /// the step if it adapts.
    pub fn restore_if_broken(&mut self, broken: bool, layout: &GridLayout) -> (change:
        TimestepChange)
        requires
            broken ==> old(self).scene_backup.wf() && layout.node_cells@.len() == old(self).scene_backup.nodes@.len(),
        ensures
            change == if broken {
                TimestepChange::Halve
            } else if old(self).settings.use_auto_dt {
                TimestepChange::Grow
            } else {
                TimestepChange::Keep
            },
            broken ==> {
                &&& final(self).scene.same_as(&old(self).scene_backup)
                &&& final(self).scene.wf()
                &&& final(self).scene_backup == old(self).scene_backup
                &&& final(self).connections_current()
                &&& final(self).collisions_simple()
                &&& final(self).grid.built_from(final(self).scene.nodes@, layout)
                &&& final(self).grid.holds_below(final(self).scene.nodes@.len() as int)
            },
            !broken ==> {
                &&& final(self).scene_backup.same_as(&old(self).scene)
                &&& final(self).scene == old(self).scene
                &&& final(self).connections_structure == old(self).connections_structure
                &&& final(self).collisions_structure == old(self).collisions_structure
                &&& final(self).grid == old(self).grid
            },
            final(self).settings == old(self).settings,
            final(self).last_iteration_use_grid == old(self).last_iteration_use_grid,
            old(self).coherent() ==> final(self).coherent(),
    {
        if broken {
            self.scene = self.scene_backup.snapshot();
            self.connections_structure = calculate_connections_structure(
                &self.scene.connections,
                &self.scene.nodes,
            );
            self.grid = Grid::new(&self.scene.nodes, layout);
            self.collisions_structure = calculate_collisions_structure_simple(&self.scene.nodes);
            TimestepChange::Halve
        } else {
            self.scene_backup = self.scene.snapshot();
            if self.settings.use_auto_dt {
                TimestepChange::Grow
            } else {
                TimestepChange::Keep
            }
        }
    }
}

} // verus!
