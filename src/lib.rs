pub mod cli;
pub mod client;
pub mod crypto;
pub mod download;
pub mod file;
pub mod io;
pub mod model;
pub mod progress;
pub mod select;
pub mod split;
pub mod text;
