//! A roster engine: a registry of students with participation statistics,
//! a participation-weighted random call order, a fuzzy search over the
//! roster, a selection cursor and the modal state machine that drives them.

pub mod student;
pub mod registry;
pub mod order;
pub mod search;
pub mod text;
pub mod engine;

pub use student::Student;
pub use registry::{Row, LoadError, load};
pub use engine::{App, Action, DisplayMode, InputMode};
