//! A small project/task tracker: an in-memory repository of projects with
//! tasks, a verified textual codec for the persisted document, and the
//! arithmetic behind the rendered progress display.

pub mod codec;
pub mod model;
pub mod render;
pub mod repo;
