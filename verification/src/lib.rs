//! Cascading environment layers: parsing of `.cade`, `.env` and `.envrc`
//! files, composition of layers, safely quoted shell statements for an
//! activation and for the restore that undoes it, and the decisions around
//! them.
pub mod text;
pub mod assoc;
pub mod types;
pub mod order;
pub mod compose;
pub mod envs;
pub mod external;
pub mod shells;
pub mod parse;
pub mod verbosity;
pub mod config;
pub mod envrc;
pub mod session;
pub mod script;
pub mod control;
pub mod cadefile;
pub mod cli;
