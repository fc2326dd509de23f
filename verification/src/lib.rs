pub mod compile;
pub mod entity;
pub mod entity_instance;
pub mod entity_manager;
pub mod persist;
pub mod scene;
pub mod transform;
pub mod transform_system;
pub mod wire;
