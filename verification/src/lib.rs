pub mod text;
pub mod tree;
pub mod taskpath;
pub mod time;
pub mod session;
pub mod syntax;
pub mod ranged;
pub mod task;
pub mod group;
pub mod tasktree;
pub mod chart;
pub mod context;
pub mod active;
pub mod properties;
pub mod print_color;
