//! The character set of the language: one constant per instruction, the
//! flag bits that a pointer can carry from one step to the next, and the
//! characters that the grid parser ignores.
use vstd::prelude::*;

verus! {

/// A pointer's flag byte: a small bit set carried from one step to the next.
pub type FlagType = u8;

pub const MOVE_UP: char = '^';
pub const MOVE_LEFT: char = '<';
pub const MOVE_RIGHT: char = '>';
pub const MOVE_DOWN: char = 'v';
pub const REMOVE_IP: char = ';';
pub const SPLIT_IP_HORIZONTAL: char = '_';
pub const SPLIT_IP_VERTICAL: char = '|';
pub const TOGGLE_STRING_MODE: char = '"';
pub const PRINT_STACK_CHAR: char = '.';
pub const STRING_ESCAPE: char = '\\';
pub const FLAG_BRANCH: char = '?';

/// Flag bit: the previous step tried to pop an empty stack.
pub const EMPTY_STACK: FlagType = 0x1;

/// Sentinel character that the flag-branch instruction looks for in the
/// cell ahead.
pub const AC_EMPTY_STACK: char = '_';

/// Character removed from the source text before the grid is measured.
pub const IGNORED_CHAR: char = '\r';

/// Printed in place of a popped value that is no Unicode scalar value.
pub const REPLACEMENT_CHAR: char = '\u{FFFD}';

} // verus!
