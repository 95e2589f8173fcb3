pub mod chunk;
pub mod database;
pub mod generator;
pub mod point;
