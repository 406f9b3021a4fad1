//! Decision logic of a quadrotor simulator.
pub mod ieee;
pub mod rng;
pub mod mavlink;
pub mod scan;
pub mod obstacle;
pub mod contact;
pub mod allocation;
pub mod text;
pub mod number;
pub mod csv;
pub mod maneuver;
pub mod trajectory;
pub mod controller;
pub mod sensor;
pub mod wind;
pub mod ranger;
pub mod metrics;
pub mod multi;
pub mod sim;
pub mod toy_world;
pub mod plant;
pub mod render;
