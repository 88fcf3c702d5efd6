pub mod components;
pub mod entities;
pub mod gameplay_state_system;
pub mod input_system;
pub mod map;
pub mod resources;
pub mod world;
