//! What the commands of the library decide.

pub mod reshuffle_apps;
