//! A small TCP port-scanning library: a resolver that turns host and port
//! text into a concrete target, and a scan engine that tracks a bounded
//! concurrent sweep of a port range and collects the open ports.

pub mod decimal;
pub mod ip;
pub mod resolver;
pub mod scan;
