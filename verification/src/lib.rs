pub mod bytemap;
pub mod codec;
pub mod command;
pub mod config;
pub mod persist;
pub mod resp;
pub mod server;
pub mod state;
pub mod text;
pub mod vector;
