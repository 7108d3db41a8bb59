pub mod app;
pub mod apps;
pub mod fields;
pub mod text;
