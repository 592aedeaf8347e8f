//! Recovery of the load address of a flat 32-bit binary image: string offsets
//! found in the image are shifted by each candidate base address and compared
//! with the 32-bit values that the image holds.

pub mod config;
pub mod extract;
pub mod number;
pub mod partition;
pub mod rank;
pub mod run;
pub mod scan;

pub use config::Config;
pub use config::ConfigError;
pub use partition::Interval;
pub use partition::InvalidPartition;
pub use run::run;
pub use run::RunError;
