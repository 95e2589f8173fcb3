pub mod utility;
pub mod world;
