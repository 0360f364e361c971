pub mod command;
pub mod database;
pub mod decimal;
pub mod laws;
pub mod resp;
