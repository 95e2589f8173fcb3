pub mod component;
pub mod system;
