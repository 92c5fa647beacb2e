//! Account and parameter resolution for switching between Kubernetes
//! cluster credentials.
//!
//! A configuration holds named accounts, one per cloud provider. Activating
//! an account reads the provider's typed record out of the account's
//! free-form parameters, builds the command line of the provider's own tool,
//! has the caller run it, and judges how the run ended. Nothing here starts
//! a process or reads a file: the caller hands in what it read and what the
//! process returned.

pub mod account;
pub mod command;
pub mod error;
pub mod params;
pub mod provider;
pub mod text;
