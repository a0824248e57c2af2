pub mod node;
pub mod order;
pub mod render;
pub mod scan;
pub mod text;
pub mod title;
