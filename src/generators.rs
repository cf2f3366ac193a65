pub mod aldous_broder;
pub mod binarytree;
mod common;
pub mod hunt_and_kill;
pub mod kind;
pub mod recursive_backtracker;
pub mod sidewinder;
pub mod wilsons;

pub use aldous_broder::AldousBroder;
pub use binarytree::BinaryTree;
pub use hunt_and_kill::HuntAndKill;
pub use kind::{GeneratorType, NoneGenerator};
pub use recursive_backtracker::RecursiveBacktracker;
pub use sidewinder::Sidewinder;
pub use wilsons::Wilsons;
