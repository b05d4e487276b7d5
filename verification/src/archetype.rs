pub mod archetype;
pub mod archetype_manager;
pub mod archetype_iter;
pub mod archetype_query;
