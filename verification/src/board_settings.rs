use vstd::prelude::*;

verus! {

/// Where a board keeps its applications.
pub struct BoardSettings {
    /// The architecture of the board's processor, when known.
    pub arch: Option<String>,
    /// Flash address of the first application.
    pub start_address: u64,
    /// Size of a flash page.
    pub page_size: u64,
    /// Address of the board's RAM.
    pub ram_start_address: u64,
}

} // verus!
