//! Daily event-completion tracking and Tyrian clock arithmetic for a Guild Wars 2
//! event-timer overlay.

pub mod finished_events;
pub mod time_utils;
pub mod gw2_api;
pub mod game_state;
