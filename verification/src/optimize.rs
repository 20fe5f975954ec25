//! Optimization passes over the control-flow graph.

pub mod add_assign;
pub mod copy_const;
pub mod peel;
