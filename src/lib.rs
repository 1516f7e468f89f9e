//! A forest of constructive-solid-geometry trees over boxes, the compiler that
//! flattens it into a forward-only instruction list, and the colour codec that
//! lets a rendered pixel be traced back to the node that painted it.

pub mod node_id;
pub mod global_id;
pub mod operations;
pub mod compiler;
pub mod controls;
pub mod picking;
