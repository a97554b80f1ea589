//! The attributes that a Tock board keeps in flash: its system attributes and
//! the headers and footers of its applications.

pub mod app_attributes;
pub mod decode;
pub mod system_attributes;
