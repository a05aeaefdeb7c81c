//! The entities of a problem instance.

pub mod edge;
pub mod order;
pub mod station;
pub mod train;

pub use edge::Edge;
pub use order::Order;
pub use station::Station;
pub use train::Train;
