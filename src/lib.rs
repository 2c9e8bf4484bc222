pub mod audio;
pub mod planner;
pub mod pool;
pub mod reorder;
pub mod speech;
pub mod style;
pub mod symbols;
pub mod text;
pub mod wav;
