//! A swarm of ants walks a directed graph of colonies. Two ants that meet on a
//! colony destroy it, and each other. The run ends when every ant is dead or
//! every surviving ant has used up its moves.

pub mod ant;
pub mod builder;
pub mod cleanup;
pub mod laws;
pub mod movement;
pub mod render;
pub mod rng;
pub mod round_trip;
pub mod seq_lemmas;
pub mod simulation;
pub mod text;
pub mod world;

pub use ant::{advance_ant, update_ant, Ant, MAX_MOVES};
pub use builder::{build_world, is_space_char, ParseError};
pub use cleanup::{phase_cleanup, Destruction, DestructionView};
pub use movement::{
    detect_collisions, move_chunk, phase_move, phase_move_and_detect, CHUNK_SIZE, MOVEMENT_SEED,
};
pub use render::render_world;
pub use simulation::{
    init_ants, live_colonies, simulate, simulation_state, tick, ConfigError, Outcome,
    SimulationReport, SimulationState, PLACEMENT_SEED,
};
pub use world::{ColonyData, Direction, Edge, World, WorldView};
