pub mod djikstra;

pub use djikstra::Djikstra;
