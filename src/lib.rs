//! Weekly scheduling of actuators: time slots with dated overrides, the rules that keep them
//! apart, and the rule in force at each moment, with contracts proved by Verus.

pub mod actuator;
pub mod rpc;
pub mod schedule;
pub mod server;
pub mod text;
pub mod time;
pub mod time_slot;
pub mod utils;
