//! Turns a dated text log of time-stamped readings into a grid whose
//! columns follow the header row of a template sheet.

pub mod text;
pub mod label;
pub mod line;
pub mod log;
pub mod template;
pub mod grid;
