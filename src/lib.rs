pub mod cxxstring;
pub mod cxxset;
pub mod dictionary;
pub mod encoding;
pub mod translation;
pub mod transform;
pub mod config;
pub mod utils;
pub mod hooks;
pub mod watchdog;
