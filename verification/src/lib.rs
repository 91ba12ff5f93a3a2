//! binsweep: inventory of globally installed developer binaries.

pub mod text;
pub mod json;
pub mod util;
pub mod cargo;
pub mod path;
pub mod inventory;
pub mod gobin;
pub mod npm;
pub mod pipx;
pub mod shadow;
pub mod report;
pub mod cli;
pub mod layout;
