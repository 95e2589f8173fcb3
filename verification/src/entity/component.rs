pub mod camera;
pub mod chunk;
pub mod owned_by_account;
pub mod user;
