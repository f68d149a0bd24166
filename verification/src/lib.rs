//! Island Time: an earliest-arrival ferry planner over a small fixed
//! archipelago, with deadline search, leg budgets, waypoints and avoidance
//! filters, together with the parsing and rendering its users need.
//!
//! - `timetable`: islands, ferry services and the next-departure rule.
//! - `names`: island names, clock times, numbers and closed-hop arguments.
//! - `journey`: what a journey under a planning request is.
//! - `planner`: earliest-arrival planning, proved to find the earliest journey.
//! - `deadline`: the latest start from which a deadline can be met.
//! - `laws`: how answers to related requests compare.
//! - `render`: the JSON and text the command line prints.
//! - `render_laws`: what the printed forms say of a request and its legs.

pub mod timetable;
pub mod names;
pub mod journey;
pub mod planner;
pub mod deadline;
pub mod render;
pub mod laws;
pub mod render_laws;
