//! Decoding of the attribute blocks and application headers that a Tock
//! board keeps in flash, and the layout of applications in flash.

pub mod attributes;
pub mod board_settings;
pub mod command_impl;
pub mod number;
pub mod read_range;
