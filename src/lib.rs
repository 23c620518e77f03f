//! Reading of combinational And-Inverter Graphs in the ASCII AIGER format,
//! delay propagation through them, and emission of a gate-level netlist.
pub mod aig;
pub mod delay;
pub mod error;
pub mod header;
pub mod model;
pub mod text;
pub mod utils;
pub mod verilog;
