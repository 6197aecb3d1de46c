//! Pixel-agent office: the verified core of a terminal view of coding agents.
pub mod agent;
pub mod text;
pub mod grid;
pub mod path_order;
pub mod renderer;
pub mod pixels;
pub mod sprites;
pub mod scene;
pub mod transcript;
pub mod watcher;
pub mod office;
pub mod roster;
