//! Core of a Kanban-style board persisted over a store with no native
//! ordered-list primitive: cards keep a dense zero-based position inside
//! their column, and every insert, move and delete is an atomic sequence
//! of bulk shifts and single-row writes that provably preserves the dense
//! ordering, keeps every card in exactly one column, and conserves the
//! card count across columns on every move.

pub mod engine;
pub mod laws;
pub mod repo;
pub mod store;

pub use repo::Board;
pub use repo::Card;
pub use repo::CardPos;
pub use repo::Error;
pub use store::PosRow;
pub use store::PositionStore;
pub use store::ShiftDelta;
