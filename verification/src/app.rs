pub mod browser;
pub mod home;
pub mod model;
pub mod reader;
