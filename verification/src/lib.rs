//! Verified core of a resource-collection simulation: a grid map with
//! obstacles and resource deposits, a base that aggregates what the robots
//! report, scouts that explore and collectors that fetch resources.

pub mod messages;
pub mod rng;
pub mod map;
pub mod base;
pub mod app;
pub mod robot;
pub mod ui;
