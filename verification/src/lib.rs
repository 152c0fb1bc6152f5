//! A verified core for a city-weather lookup client.
//!
//! A free-text city name is geocoded to a list of candidate locations,
//! the candidates are collapsed so that at most one entry per
//! (country, state) pair survives, and the current weather of each
//! surviving location is fetched and assembled into the result list.
//! The sorting, deduplication, error classification and assembly logic
//! lives here; the HTTP transport, configuration loading and rendering
//! are left to the surrounding binary.

pub mod app;
pub mod json;
pub mod order;
pub mod utils;
pub mod weather_client;
