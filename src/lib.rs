//! Relay for bus arrival predictions: cleans and shapes what the transit
//! prediction service returns into arrivals grouped by stop, route and
//! destination, and decides what each inbound request is answered with.

pub mod clean;
pub mod laws;
pub mod model;
pub mod relay;
pub mod shape;
pub mod stamp;
