pub mod frame;
pub mod frame_laws;
pub mod database;
pub mod store_laws;
pub mod command;
pub mod connection;
