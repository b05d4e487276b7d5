pub mod entity;
pub mod entity_manager;
