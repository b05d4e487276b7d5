pub mod component;
pub mod comp_storage;
pub mod comp_manager;
