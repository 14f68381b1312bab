//! Shared data model for the simulator: byte orders, typed values, the
//! register bank and its demo data.

pub mod byte_order;
pub mod demo;
pub mod store;
pub mod store_laws;
pub mod value_laws;
pub mod value_type;

pub use byte_order::{ByteOrder, DataWidth};
pub use store::{
    snapshot_area, Area, AreaSnapshot, Cell, RegisterStore, Row, ALL_AREAS, DEFAULT_AREA_SIZE,
};
pub use value_type::{bytes_to_regs, encode_string_fixed, ValueType};
