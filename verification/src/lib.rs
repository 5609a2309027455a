//! A solver for building and taking apart shapes of voxels with a swarm of bots.
//!
//! A grid of side `r` holds a matrix of full and void voxels. Bots move through the void
//! voxels, fill and void voxels next to them, split and fuse. In each time step every bot
//! carries out one command, and no two commands of a step may touch the same voxel. The
//! solver plans the commands, carries them out in a simulator that keeps the energy spent,
//! and hands out the trace of the commands.
//!
//! * `geometry`: coordinates, displacements and their classes, boxes.
//! * `bot`, `codec`, `trace`: commands and their bytes, bots with their seeds, traces.
//! * `model`, `matrix`, `grid`: model files, the matrix, flags for the voxels of a grid.
//! * `target`: the queue of targets, ranked by their distance from the ground.
//! * `volatile`: what one time step has claimed.
//! * `state`: what a system is in contracts, and what each command makes of it.
//! * `system`, `queries`, `replay`: the simulator.
//! * `moves`, `search`, `clear`: ways over free voxels and their commands.
//! * `ai`, `run`: the planner, and a run from a model to its result.
//! * `ids`, `partition`, `laws`: what holds of every state that the simulator reaches.

pub mod ai;
pub mod bot;
pub mod clear;
pub mod codec;
pub mod error;
pub mod geometry;
pub mod grid;
pub mod ids;
pub mod laws;
pub mod matrix;
pub mod model;
pub mod moves;
pub mod partition;
pub mod queries;
pub mod replay;
pub mod run;
pub mod search;
pub mod state;
pub mod system;
pub mod target;
pub mod trace;
pub mod volatile;
