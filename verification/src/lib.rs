//! An interpreter for a two-dimensional, grid-based esoteric programming
//! language. Source code is laid out on a rectangular character grid and one
//! or more instruction pointers walk it with toroidal wraparound, each step
//! reading the cell under the pointer and acting on it: movement, stack I/O,
//! pointer duplication and removal, and string-literal mode. All pointers
//! share one stack; an execution context drives them in lockstep ticks.
pub mod context;
pub mod definitions;
pub mod grid;
pub mod pointer;

pub use context::ExecutionContext;

pub use definitions::FlagType;
pub use grid::CodeGrid;
pub use grid::GridError;
pub use grid::Vec2;
pub use pointer::IPMode;
pub use pointer::IPUpdateResult;
pub use pointer::InstructionPointer;
