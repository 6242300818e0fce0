mod bindings;
pub mod text;
pub mod api;
pub mod display;
