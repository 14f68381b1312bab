//! Verified core of an IoT protocol simulator.
//!
//! The library holds the register model, the Modbus TCP request handling, the
//! frame decoder and the editor state of the simulator as plain values. Locks,
//! sockets, clocks and the window live outside and call in.

pub mod bits;
pub mod editor;
pub mod editor_laws;
pub mod float;
pub mod float_laws;
pub mod float_text;
pub mod hex_list;
pub mod labels;
pub mod model;
pub mod natural;
pub mod numerals;
pub mod parser;
pub mod parser_laws;
pub mod protocol;
pub mod table;
pub mod text;
pub mod views;
