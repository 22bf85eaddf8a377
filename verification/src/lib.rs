//! The rules of the Orbit Wars game: the random numbers behind its maps, the
//! tick that moves it on, the scoring, and the planner that plays it.
//!
//! Coordinates, angles and speeds are doubles. The rules carry them as bit
//! patterns (`double::Double`), compare them, and leave their arithmetic to the
//! caller, who hands the results in.

pub mod agents;
pub mod combat;
pub mod comets;
pub mod document;
pub mod double;
pub mod engine;
pub mod env;
pub mod features;
pub mod flow;
pub mod forecast;
pub mod game;
pub mod garrison;
pub mod mapgen;
pub mod motion;
pub mod observation;
pub mod planner;
pub mod pyrandom;
pub mod ranking;
pub mod regroup;
pub mod replay;
pub mod state;
pub mod survey;
pub mod tick;
pub mod turn;
pub mod vecenv;
