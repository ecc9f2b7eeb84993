//! Synchronisation core of a tick-based multiplayer block world.
//!
//! A server holds the canonical world and sends each connected client only
//! what has changed since the client last confirmed what it knows. The
//! transport is an unreliable datagram socket: packets may be lost, come
//! twice or come out of order. The modules, leaves first:
//!
//! - `world`: blocks, chunks and the terrain that holds them;
//! - `delta`: the change records and their replay onto a terrain;
//! - `engine`: which changes a peer is owed;
//! - `player`, `message`: what clients and the server tell each other;
//! - `wire`, `codec`: the bytes that stand for it;
//! - `queue`: the bounded queue between socket and tick;
//! - `server`, `registry`: the server's side, per connection and as a whole;
//! - `client`: the client's side;
//! - `convergence`: why the whole keeps every peer up to date;
//! - `args`, `states`, `procedural_functions`: settings, states and random
//!   draws for the program around the core.

pub mod world;
pub mod delta;
pub mod engine;
pub mod player;
pub mod message;
pub mod wire;
pub mod codec;
pub mod queue;
pub mod server;
pub mod registry;
pub mod client;
pub mod convergence;
pub mod args;
pub mod states;
pub mod procedural_functions;
