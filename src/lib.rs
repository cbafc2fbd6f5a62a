//! Resolution of an operating system's trusted root certificates into one
//! PEM bundle: certificates from the user, admin and system trust domains are
//! merged with first-wins precedence, filtered by trust verdict and written
//! out as PEM blocks.

pub mod pem;
pub mod verdict;
pub mod merge;
pub mod resolve;
pub mod laws;
pub mod probe;
