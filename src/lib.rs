//! An interactive debugger's core for a compiled hardware-design model: the
//! bit-vector formatter, the waveform store, the command interpreter, the
//! instance hierarchy with its probe markers, and the simulation control plane
//! that orders requests and fans responses out to listeners.

pub mod bits;
pub mod command_line;
pub mod design;
pub mod dut;
pub mod hier;
pub mod interpreter;
pub mod paths;
pub mod render;
pub mod sim;
pub mod wave;
