//! An index of documents made of many vectors each.

pub mod answer;
pub mod assemble;
pub mod exact;
pub mod index;
pub mod late;
pub mod manifest;
pub mod nearest;
pub mod persist;
pub mod query;
pub mod rank;
pub mod recover;
pub mod stage;
pub mod state;
pub mod train;
pub mod update;
