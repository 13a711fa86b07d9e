//! The instruction pointer: position, movement direction, mode and flag
//! byte, together with the dispatch of one step over the grid. The meaning
//! of a step is given by the spec functions `spec_execute` and `spec_step`;
//! the executable methods are proved to realize them exactly.
use vstd::prelude::*;

use crate::definitions::AC_EMPTY_STACK;
use crate::definitions::EMPTY_STACK;
use crate::definitions::FLAG_BRANCH;
use crate::definitions::FlagType;
use crate::definitions::MOVE_DOWN;
use crate::definitions::MOVE_LEFT;
use crate::definitions::MOVE_RIGHT;
use crate::definitions::MOVE_UP;
use crate::definitions::PRINT_STACK_CHAR;
use crate::definitions::REMOVE_IP;
use crate::definitions::REPLACEMENT_CHAR;
use crate::definitions::SPLIT_IP_HORIZONTAL;
use crate::definitions::SPLIT_IP_VERTICAL;
use crate::definitions::STRING_ESCAPE;
use crate::definitions::TOGGLE_STRING_MODE;
use crate::grid::CodeGrid;
use crate::grid::Vec2;

verus! {

/// The dispatch mode of a pointer: ordinary instructions, string-literal
/// mode, or the transient mode right after an escape character.
#[derive(Clone, Copy, PartialEq, Eq, Structural, Debug)]
pub enum IPMode {
    Normal,
    String,
    StringEscape,
}

/// One instruction pointer: where it is, where it moves, how it dispatches,
/// and the flag byte left behind by its previous step.
#[derive(Clone, Copy, PartialEq, Eq, Structural, Debug)]
pub struct InstructionPointer {
    pub position: Vec2,
    pub movement: Vec2,
    pub mode: IPMode,
    pub flags: FlagType,
}

/// What one step asks of the execution context: carry on, delete this
/// pointer, or add a freshly spawned one.
#[derive(Clone, Copy, PartialEq, Eq, Structural, Debug)]
pub enum IPUpdateResult {
    Normal,
    DeleteSelf,
    AddIP(InstructionPointer),
}

/// The whole effect of one dispatch: the pointer afterwards, the shared
/// stack and output afterwards, and the structural result.
pub struct StepEffect {
    pub ip: InstructionPointer,
    pub stack: Seq<i32>,
    pub output: Seq<char>,
    pub result: IPUpdateResult,
}

/// A movement of exactly one cell along one axis.
pub open spec fn is_unit(v: Vec2) -> bool {
    ||| v == (Vec2 { x: 0isize, y: -1isize })
    ||| v == (Vec2 { x: 0isize, y: 1isize })
    ||| v == (Vec2 { x: -1isize, y: 0isize })
    ||| v == (Vec2 { x: 1isize, y: 0isize })
}

/// One toroidal move: add the movement and wrap each coordinate into the
/// grid with a true (always non-negative) modulo.
pub open spec fn spec_wrap(p: Vec2, m: Vec2, g: CodeGrid) -> Vec2 {
    Vec2 {
        x: (((p.x + m.x) % (g.width as int)) as isize),
        y: (((p.y + m.y) % (g.height as int)) as isize),
    }
}

/// The pointer after one ordinary end-of-step advance.
pub open spec fn spec_advance(ip: InstructionPointer, g: CodeGrid) -> InstructionPointer {
    InstructionPointer { position: spec_wrap(ip.position, ip.movement, g), ..ip }
}

/// The pointer after `n` advances.
pub open spec fn advance_n(ip: InstructionPointer, g: CodeGrid, n: nat) -> InstructionPointer
    decreases n,
{
    if n == 0 {
        ip
    } else {
        advance_n(spec_advance(ip, g), g, (n - 1) as nat)
    }
}

/// The provisional look-ahead of the flag-branch instruction: the advanced
/// pointer, and whether the cell there is the empty-stack sentinel while the
/// previous step's empty-stack flag is set.
pub open spec fn spec_load_flag(ip: InstructionPointer, g: CodeGrid) -> (InstructionPointer, bool) {
    let ahead = spec_advance(ip, g);
    (ahead, g.char_at(ahead.position) == AC_EMPTY_STACK && ip.flags & EMPTY_STACK != 0)
}

/// The code point of a character.
pub open spec fn code_of(c: char) -> int {
    c as int
}

/// The character with a given code point (meaningful only for codes that
/// some character carries).
pub open spec fn char_of(code: int) -> char {
    choose|c: char| code_of(c) == code
}

/// A Unicode scalar value: what a `char` may hold.
pub open spec fn is_scalar_value(v: int) -> bool {
    (0 <= v < 0xD800) || (0xE000 <= v <= 0x10FFFF)
}

/// A stack value reinterpreted as an unsigned 32-bit code point.
pub open spec fn wrap_u32(v: i32) -> int {
    (v as int) % 0x1_0000_0000
}

/// The character that printing a popped stack value emits: the character
/// with that code point, or the replacement character when the value is no
/// Unicode scalar value.
pub open spec fn print_char_of(v: i32) -> char {
    if is_scalar_value(wrap_u32(v)) {
        char_of(wrap_u32(v))
    } else {
        REPLACEMENT_CHAR
    }
}

pub proof fn lemma_wrap_u32(v: i32)
    ensures
        0 <= wrap_u32(v) < 0x1_0000_0000,
        v >= 0 ==> wrap_u32(v) == v,
        v < 0 ==> wrap_u32(v) == v + 0x1_0000_0000,
{
    if v >= 0 {
        vstd::arithmetic::div_mod::lemma_fundamental_div_mod_converse_mod(
            v as int,
            0x1_0000_0000,
            0,
            v as int,
        );
    } else {
        vstd::arithmetic::div_mod::lemma_fundamental_div_mod_converse_mod(
            v as int,
            0x1_0000_0000,
            -1,
            v + 0x1_0000_0000,
        );
    }
}

/// A character pushed as its code point prints back as itself: the push /
/// print pair loses nothing.
pub proof fn lemma_print_round_trip(c: char)
    ensures
        print_char_of(c as i32) == c,
{
    lemma_wrap_u32(c as i32);
    assert(wrap_u32(c as i32) == code_of(c));
    assert(char_of(code_of(c)) == c) by {
        assert(code_of(c) == code_of(c));
    }
}

/// Every character of a substring entered in string mode, once popped and
/// printed, reproduces itself.
pub proof fn lemma_string_mode_round_trip(s: Seq<char>)
    ensures
        forall|i: int| 0 <= i < s.len() ==> #[trigger] print_char_of(s[i] as i32) == s[i],
{
    assert forall|i: int| 0 <= i < s.len() implies #[trigger] print_char_of(s[i] as i32)
        == s[i] by {
        lemma_print_round_trip(s[i]);
    }
}

/// The string-mode LIFO round trip: the code points pushed for a substring,
/// popped from the top of the stack and printed one by one, come out as
/// exactly the substring reversed.
pub proof fn lemma_string_lifo_round_trip(s: Seq<char>)
    ensures
        Seq::new(s.len(), |i: int| print_char_of(s[s.len() - 1 - i] as i32)) == s.reverse(),
{
    let popped = Seq::new(s.len(), |i: int| print_char_of(s[s.len() - 1 - i] as i32));
    assert forall|i: int| 0 <= i < s.len() implies popped[i] == s.reverse()[i] by {
        lemma_print_round_trip(s[s.len() - 1 - i]);
    }
    assert(popped =~= s.reverse());
}

/// The effect of dispatching one instruction character in normal mode (also
/// reached from string-escape mode for characters that are no literal
/// escapes). The pointer's flag byte is refreshed here on every outcome that
/// keeps the pointer alive: it carries at most one step.
pub open spec fn spec_execute(
    ip: InstructionPointer,
    instruction: char,
    g: CodeGrid,
    stack: Seq<i32>,
    output: Seq<char>,
) -> StepEffect {
    if instruction == MOVE_UP {
        StepEffect {
            ip: InstructionPointer { movement: (Vec2 { x: 0isize, y: -1isize }), flags: 0, ..ip },
            stack,
            output,
            result: IPUpdateResult::Normal,
        }
    } else if instruction == MOVE_DOWN {
        StepEffect {
            ip: InstructionPointer { movement: (Vec2 { x: 0isize, y: 1isize }), flags: 0, ..ip },
            stack,
            output,
            result: IPUpdateResult::Normal,
        }
    } else if instruction == MOVE_LEFT {
        StepEffect {
            ip: InstructionPointer { movement: (Vec2 { x: -1isize, y: 0isize }), flags: 0, ..ip },
            stack,
            output,
            result: IPUpdateResult::Normal,
        }
    } else if instruction == MOVE_RIGHT {
        StepEffect {
            ip: InstructionPointer { movement: (Vec2 { x: 1isize, y: 0isize }), flags: 0, ..ip },
            stack,
            output,
            result: IPUpdateResult::Normal,
        }
    } else if instruction == REMOVE_IP {
        StepEffect { ip, stack, output, result: IPUpdateResult::DeleteSelf }
    } else if instruction == SPLIT_IP_HORIZONTAL {
        let me = InstructionPointer { movement: (Vec2 { x: 1isize, y: 0isize }), flags: 0, ..ip };
        let spawned = spec_advance(
            InstructionPointer {
                position: ip.position,
                movement: (Vec2 { x: -1isize, y: 0isize }),
                mode: IPMode::Normal,
                flags: 0,
            },
            g,
        );
        StepEffect {
            ip: spec_advance(me, g),
            stack,
            output,
            result: IPUpdateResult::AddIP(spawned),
        }
    } else if instruction == SPLIT_IP_VERTICAL {
        let me = InstructionPointer { movement: (Vec2 { x: 0isize, y: 1isize }), flags: 0, ..ip };
        let spawned = spec_advance(
            InstructionPointer {
                position: ip.position,
                movement: (Vec2 { x: 0isize, y: 1isize }),
                mode: IPMode::Normal,
                flags: 0,
            },
            g,
        );
        StepEffect {
            ip: spec_advance(me, g),
            stack,
            output,
            result: IPUpdateResult::AddIP(spawned),
        }
    } else if instruction == PRINT_STACK_CHAR {
        if stack.len() == 0 {
            StepEffect {
                ip: InstructionPointer { flags: EMPTY_STACK, ..ip },
                stack,
                output,
                result: IPUpdateResult::Normal,
            }
        } else {
            StepEffect {
                ip: InstructionPointer { flags: 0, ..ip },
                stack: stack.drop_last(),
                output: output.push(print_char_of(stack.last())),
                result: IPUpdateResult::Normal,
            }
        }
    } else if instruction == TOGGLE_STRING_MODE {
        StepEffect {
            ip: InstructionPointer { mode: IPMode::String, flags: 0, ..ip },
            stack,
            output,
            result: IPUpdateResult::Normal,
        }
    } else if instruction == FLAG_BRANCH {
        let ahead = spec_load_flag(ip, g).0;
        let taken = spec_load_flag(ip, g).1;
        let landed = if taken {
            ahead
        } else {
            spec_advance(ahead, g)
        };
        StepEffect {
            ip: InstructionPointer { flags: 0, ..landed },
            stack,
            output,
            result: IPUpdateResult::Normal,
        }
    } else {
        StepEffect {
            ip: InstructionPointer { flags: 0, ..ip },
            stack,
            output,
            result: IPUpdateResult::Normal,
        }
    }
}

/// The whole effect of one step of a pointer: dispatch on mode and the cell
/// under the pointer, then (for outcomes that carry on normally) the
/// ordinary end-of-step advance.
pub open spec fn spec_step(
    ip: InstructionPointer,
    g: CodeGrid,
    stack: Seq<i32>,
    output: Seq<char>,
) -> StepEffect {
    let c = g.char_at(ip.position);
    match ip.mode {
        IPMode::Normal => {
            let e = spec_execute(ip, c, g, stack, output);
            if e.result is Normal {
                StepEffect { ip: spec_advance(e.ip, g), ..e }
            } else {
                e
            }
        },
        IPMode::String => {
            if c == TOGGLE_STRING_MODE {
                StepEffect {
                    ip: spec_advance(
                        InstructionPointer { mode: IPMode::Normal, flags: 0, ..ip },
                        g,
                    ),
                    stack,
                    output,
                    result: IPUpdateResult::Normal,
                }
            } else if c == STRING_ESCAPE {
                StepEffect {
                    ip: spec_advance(
                        InstructionPointer { mode: IPMode::StringEscape, flags: 0, ..ip },
                        g,
                    ),
                    stack,
                    output,
                    result: IPUpdateResult::Normal,
                }
            } else {
                StepEffect {
                    ip: spec_advance(InstructionPointer { flags: 0, ..ip }, g),
                    stack: stack.push(c as i32),
                    output,
                    result: IPUpdateResult::Normal,
                }
            }
        },
        IPMode::StringEscape => {
            let lowered = InstructionPointer { mode: IPMode::String, ..ip };
            if c == TOGGLE_STRING_MODE || c == STRING_ESCAPE {
                StepEffect {
                    ip: spec_advance(InstructionPointer { flags: 0, ..lowered }, g),
                    stack: stack.push(c as i32),
                    output,
                    result: IPUpdateResult::Normal,
                }
            } else {
                let e = spec_execute(lowered, c, g, stack, output);
                if e.result is Normal {
                    StepEffect { ip: spec_advance(e.ip, g), ..e }
                } else {
                    e
                }
            }
        },
    }
}

/// The initial pointer of a program: grid origin, moving downward.
pub open spec fn initial_ip() -> InstructionPointer {
    InstructionPointer {
        position: (Vec2 { x: 0isize, y: 0isize }),
        movement: (Vec2 { x: 0isize, y: 1isize }),
        mode: IPMode::Normal,
        flags: 0,
    }
}

impl InstructionPointer {
    /// The pointer names a cell of the grid and moves one cell per step.
    pub open spec fn wf(&self, g: &CodeGrid) -> bool {
        &&& g.in_bounds(self.position)
        &&& is_unit(self.movement)
    }

    /// The pointer a fresh program starts with.
    pub fn default() -> (ip: InstructionPointer)
        ensures
            ip == initial_ip(),
    {
        InstructionPointer {
            position: Vec2 { x: 0, y: 0 },
            movement: Vec2 { x: 0, y: 1 },
            mode: IPMode::Normal,
            flags: 0,
        }
    }

    /// A freshly spawned pointer: normal mode, clear flags.
    pub fn new(movement: Vec2, position: Vec2) -> (ip: InstructionPointer)
        ensures
            ip == (InstructionPointer { movement, position, mode: IPMode::Normal, flags: 0 }),
    {
        InstructionPointer { movement, position, mode: IPMode::Normal, flags: 0 }
    }

    /// Advances the position by the movement, wrapping toroidally so the
    /// result is always in bounds.
    pub fn update_pos(&mut self, code_grid: &CodeGrid)
        requires
            code_grid.wf(),
            old(self).wf(code_grid),
        ensures
            *final(self) == spec_advance(*old(self), *code_grid),
            final(self).wf(code_grid),
    {
        proof {
            lemma_advance_wf(*self, *code_grid);
        }
        let w = code_grid.width as isize;
        let h = code_grid.height as isize;
        self.position.add(self.movement);
        if self.position.x < 0 {
            self.position.x = self.position.x + w;
        } else if self.position.x >= w {
            self.position.x = self.position.x - w;
        }
        if self.position.y < 0 {
            self.position.y = self.position.y + h;
        } else if self.position.y >= h {
            self.position.y = self.position.y - h;
        }
        proof {
            lemma_wrap_coord(old(self).position.x as int, old(self).movement.x as int, w as int);
            lemma_wrap_coord(old(self).position.y as int, old(self).movement.y as int, h as int);
        }
    }

    /// The provisional look-ahead of the flag-branch instruction: advance,
    /// then report whether the sentinel sits there while the empty-stack
    /// flag of the previous step is set.
    pub fn load_flag(&mut self, code_grid: &CodeGrid) -> (taken: bool)
        requires
            code_grid.wf(),
            old(self).wf(code_grid),
        ensures
            *final(self) == spec_load_flag(*old(self), *code_grid).0,
            taken == spec_load_flag(*old(self), *code_grid).1,
            final(self).wf(code_grid),
    {
        self.update_pos(code_grid);
        let c = code_grid.get(self.position);
        if c == AC_EMPTY_STACK {
            self.flags & EMPTY_STACK != 0
        } else {
            false
        }
    }

    /// Dispatches one instruction character: movement, removal, splitting,
    /// print-and-pop, string-mode toggle, the flag branch, or a no-op for
    /// any other character. Characters emitted by print-and-pop are appended
    /// to `output` in emission order.
    pub fn execute_instruction(
        &mut self,
        instruction: char,
        code_grid: &CodeGrid,
        stack: &mut Vec<i32>,
        output: &mut Vec<char>,
    ) -> (result: IPUpdateResult)
        requires
            code_grid.wf(),
            old(self).wf(code_grid),
        ensures
            *final(self) == spec_execute(
                *old(self),
                instruction,
                *code_grid,
                old(stack)@,
                old(output)@,
            ).ip,
            final(stack)@ == spec_execute(
                *old(self),
                instruction,
                *code_grid,
                old(stack)@,
                old(output)@,
            ).stack,
            final(output)@ == spec_execute(
                *old(self),
                instruction,
                *code_grid,
                old(stack)@,
                old(output)@,
            ).output,
            result == spec_execute(
                *old(self),
                instruction,
                *code_grid,
                old(stack)@,
                old(output)@,
            ).result,
            final(self).wf(code_grid),
            result matches IPUpdateResult::AddIP(ip) ==> ip.wf(code_grid),
    {
        let mut new_flags: FlagType = 0;
        if instruction == MOVE_UP {
            self.movement = Vec2 { x: 0, y: -1 };
        } else if instruction == MOVE_DOWN {
            self.movement = Vec2 { x: 0, y: 1 };
        } else if instruction == MOVE_LEFT {
            self.movement = Vec2 { x: -1, y: 0 };
        } else if instruction == MOVE_RIGHT {
            self.movement = Vec2 { x: 1, y: 0 };
        } else if instruction == REMOVE_IP {
            return IPUpdateResult::DeleteSelf;
        } else if instruction == SPLIT_IP_HORIZONTAL {
            self.movement = Vec2 { x: 1, y: 0 };
            self.flags = 0;

            let mut new_ip = InstructionPointer::new(Vec2 { x: -1, y: 0 }, self.position);

            new_ip.update_pos(code_grid);

            self.update_pos(code_grid);
            return IPUpdateResult::AddIP(new_ip);
        } else if instruction == SPLIT_IP_VERTICAL {
            self.movement = Vec2 { x: 0, y: 1 };
            self.flags = 0;

            let mut new_ip = InstructionPointer::new(Vec2 { x: 0, y: 1 }, self.position);

            new_ip.update_pos(code_grid);

            self.update_pos(code_grid);
            return IPUpdateResult::AddIP(new_ip);
        } else if instruction == PRINT_STACK_CHAR {
            match stack.pop() {
                None => {
                    new_flags = EMPTY_STACK;
                },
                Some(num) => {
                    output.push(print_stack_value(num));
                },
            }
        } else if instruction == TOGGLE_STRING_MODE {
            self.mode = IPMode::String;
        } else if instruction == FLAG_BRANCH {
            if !self.load_flag(code_grid) {
                self.update_pos(code_grid);
            }
        }
        self.flags = new_flags;
        IPUpdateResult::Normal
    }

    /// One full step: dispatch on the pointer's mode and the cell under it,
    /// then advance with wraparound (outcomes that remove the pointer or
    /// spawn a sibling have already settled their positions).
    pub fn update(
        &mut self,
        code_grid: &CodeGrid,
        stack: &mut Vec<i32>,
        output: &mut Vec<char>,
    ) -> (result: IPUpdateResult)
        requires
            code_grid.wf(),
            old(self).wf(code_grid),
        ensures
            *final(self) == spec_step(*old(self), *code_grid, old(stack)@, old(output)@).ip,
            final(stack)@ == spec_step(*old(self), *code_grid, old(stack)@, old(output)@).stack,
            final(output)@ == spec_step(*old(self), *code_grid, old(stack)@, old(output)@).output,
            result == spec_step(*old(self), *code_grid, old(stack)@, old(output)@).result,
            final(self).wf(code_grid),
            result matches IPUpdateResult::AddIP(ip) ==> ip.wf(code_grid),
    {
        let current_char = code_grid.get(self.position);

        if self.mode == IPMode::Normal {
            let result = self.execute_instruction(current_char, code_grid, stack, output);
            if !matches!(result, IPUpdateResult::Normal) {
                return result;
            }
        } else if self.mode == IPMode::String {
            if current_char == TOGGLE_STRING_MODE {
                self.mode = IPMode::Normal;
            } else if current_char == STRING_ESCAPE {
                self.mode = IPMode::StringEscape;
            } else {
                stack.push(current_char as i32);
            }
            self.flags = 0;
        } else {
            self.mode = IPMode::String;
            if current_char == TOGGLE_STRING_MODE {
                stack.push(TOGGLE_STRING_MODE as i32);
                self.flags = 0;
            } else if current_char == STRING_ESCAPE {
                stack.push(STRING_ESCAPE as i32);
                self.flags = 0;
            } else {
                let result = self.execute_instruction(current_char, code_grid, stack, output);
                if !matches!(result, IPUpdateResult::Normal) {
                    return result;
                }
            }
        }

        self.update_pos(code_grid);

        IPUpdateResult::Normal
    }
}

/// Turns a popped stack value into the character to print. Relies on
/// `char::from_u32` only through the trusted wrapper below.
fn print_stack_value(num: i32) -> (c: char)
    ensures
        c == print_char_of(num),
{
    proof {
        lemma_wrap_u32(num);
    }
    let code: u32 = if num >= 0 {
        num as u32
    } else {
        ((num as i64) + 0x1_0000_0000i64) as u32
    };
    match char_from_u32(code) {
        Some(c) => {
            proof {
                assert(char_of(wrap_u32(num)) == c) by {
                    assert(code_of(c) == wrap_u32(num));
                }
            }
            c
        },
        None => REPLACEMENT_CHAR,
    }
}

/// A step leaves the pointer well formed, and any pointer it spawns is well
/// formed too.
pub proof fn lemma_step_wf(ip: InstructionPointer, g: CodeGrid, stack: Seq<i32>, output: Seq<char>)
    requires
        g.wf(),
        ip.wf(&g),
    ensures
        spec_step(ip, g, stack, output).ip.wf(&g),
        spec_step(ip, g, stack, output).result matches IPUpdateResult::AddIP(s) ==> s.wf(&g),
{
    let c = g.char_at(ip.position);
    match ip.mode {
        IPMode::Normal => {
            lemma_execute_wf(ip, c, g, stack, output);
            let e = spec_execute(ip, c, g, stack, output);
            if e.result is Normal {
                lemma_advance_wf(e.ip, g);
            }
        },
        IPMode::String => {
            if c == TOGGLE_STRING_MODE {
                lemma_advance_wf(InstructionPointer { mode: IPMode::Normal, flags: 0, ..ip }, g);
            } else if c == STRING_ESCAPE {
                lemma_advance_wf(
                    InstructionPointer { mode: IPMode::StringEscape, flags: 0, ..ip },
                    g,
                );
            } else {
                lemma_advance_wf(InstructionPointer { flags: 0, ..ip }, g);
            }
        },
        IPMode::StringEscape => {
            let lowered = InstructionPointer { mode: IPMode::String, ..ip };
            if c == TOGGLE_STRING_MODE || c == STRING_ESCAPE {
                lemma_advance_wf(InstructionPointer { flags: 0, ..lowered }, g);
            } else {
                lemma_execute_wf(lowered, c, g, stack, output);
                let e = spec_execute(lowered, c, g, stack, output);
                if e.result is Normal {
                    lemma_advance_wf(e.ip, g);
                }
            }
        },
    }
}

/// Dispatching one instruction keeps the pointer well formed, and so is any
/// pointer it spawns.
proof fn lemma_execute_wf(
    ip: InstructionPointer,
    instruction: char,
    g: CodeGrid,
    stack: Seq<i32>,
    output: Seq<char>,
)
    requires
        g.wf(),
        ip.wf(&g),
    ensures
        spec_execute(ip, instruction, g, stack, output).ip.wf(&g),
        spec_execute(ip, instruction, g, stack, output).result matches IPUpdateResult::AddIP(s)
            ==> s.wf(&g),
{
    if instruction == SPLIT_IP_HORIZONTAL {
        lemma_advance_wf(
            InstructionPointer { movement: (Vec2 { x: 1isize, y: 0isize }), flags: 0, ..ip },
            g,
        );
        lemma_advance_wf(
            InstructionPointer {
                position: ip.position,
                movement: (Vec2 { x: -1isize, y: 0isize }),
                mode: IPMode::Normal,
                flags: 0,
            },
            g,
        );
    } else if instruction == SPLIT_IP_VERTICAL {
        lemma_advance_wf(
            InstructionPointer { movement: (Vec2 { x: 0isize, y: 1isize }), flags: 0, ..ip },
            g,
        );
        lemma_advance_wf(
            InstructionPointer {
                position: ip.position,
                movement: (Vec2 { x: 0isize, y: 1isize }),
                mode: IPMode::Normal,
                flags: 0,
            },
            g,
        );
    } else if instruction == FLAG_BRANCH {
        let ahead = spec_load_flag(ip, g).0;
        lemma_advance_wf(ip, g);
        lemma_advance_wf(ahead, g);
    }
}

/// The empty-stack message of print-and-pop: popping an empty stack prints
/// nothing and raises the empty-stack flag for the next step alone; popping
/// a non-empty stack emits the top value's character and leaves the flag
/// clear.
pub proof fn lemma_print_flag(ip: InstructionPointer, g: CodeGrid, stack: Seq<i32>, output: Seq<
    char,
>)
    requires
        g.wf(),
        ip.wf(&g),
        ip.mode == IPMode::Normal,
        g.char_at(ip.position) == PRINT_STACK_CHAR,
    ensures
        spec_step(ip, g, stack, output).result == IPUpdateResult::Normal,
        spec_step(ip, g, stack, output).ip.position == spec_advance(ip, g).position,
        stack.len() == 0 ==> spec_step(ip, g, stack, output).ip.flags == EMPTY_STACK,
        stack.len() == 0 ==> spec_step(ip, g, stack, output).stack == stack,
        stack.len() == 0 ==> spec_step(ip, g, stack, output).output == output,
        stack.len() > 0 ==> spec_step(ip, g, stack, output).ip.flags == 0,
        stack.len() > 0 ==> spec_step(ip, g, stack, output).stack == stack.drop_last(),
        stack.len() > 0 ==> spec_step(ip, g, stack, output).output == output.push(
            print_char_of(stack.last()),
        ),
{
}

/// The flag branch reads the cell one advance ahead. When that cell is the
/// empty-stack sentinel and the previous step raised the empty-stack flag,
/// the pointer performs no extra skip and lands two advances on; in every
/// other case it performs the extra skip and lands three advances on. The
/// stack and the output are untouched, and the flag byte comes out clear
/// either way: the flag answers for exactly one step.
pub proof fn lemma_flag_branch(ip: InstructionPointer, g: CodeGrid, stack: Seq<i32>, output: Seq<
    char,
>)
    requires
        g.wf(),
        ip.wf(&g),
        ip.mode == IPMode::Normal,
        g.char_at(ip.position) == FLAG_BRANCH,
    ensures
        spec_step(ip, g, stack, output).result == IPUpdateResult::Normal,
        spec_step(ip, g, stack, output).stack == stack,
        spec_step(ip, g, stack, output).output == output,
        spec_step(ip, g, stack, output).ip.flags == 0,
        spec_load_flag(ip, g).1 ==> spec_step(ip, g, stack, output).ip.position == advance_n(
            ip,
            g,
            2,
        ).position,
        !spec_load_flag(ip, g).1 ==> spec_step(ip, g, stack, output).ip.position == advance_n(
            ip,
            g,
            3,
        ).position,
{
    let ahead = spec_load_flag(ip, g).0;
    let taken = spec_load_flag(ip, g).1;
    lemma_advance_wf(ip, g);
    lemma_advance_wf(ahead, g);
    reveal_with_fuel(advance_n, 4);
    if !taken {
        lemma_advance_wf(spec_advance(ahead, g), g);
    }
}

/// The flag-branch round trip over two consecutive steps: a print-and-pop
/// followed one step later by a flag branch whose ahead cell is the
/// empty-stack sentinel. When the print popped an empty stack, the branch
/// performs no extra skip and the pointer lands three advances past the
/// print cell; when the stack was not empty, the branch performs the extra
/// skip and the pointer lands four advances past it.
pub proof fn lemma_flag_branch_round_trip(
    ip: InstructionPointer,
    g: CodeGrid,
    stack: Seq<i32>,
    output: Seq<char>,
)
    requires
        g.wf(),
        ip.wf(&g),
        ip.mode == IPMode::Normal,
        g.char_at(ip.position) == PRINT_STACK_CHAR,
        g.char_at(spec_advance(ip, g).position) == FLAG_BRANCH,
        g.char_at(spec_advance(spec_advance(ip, g), g).position) == AC_EMPTY_STACK,
    ensures
        stack.len() == 0 ==> spec_step(
            spec_step(ip, g, stack, output).ip,
            g,
            spec_step(ip, g, stack, output).stack,
            spec_step(ip, g, stack, output).output,
        ).ip.position == advance_n(ip, g, 3).position,
        stack.len() > 0 ==> spec_step(
            spec_step(ip, g, stack, output).ip,
            g,
            spec_step(ip, g, stack, output).stack,
            spec_step(ip, g, stack, output).output,
        ).ip.position == advance_n(ip, g, 4).position,
{
    let first = spec_step(ip, g, stack, output);
    lemma_print_flag(ip, g, stack, output);
    lemma_step_wf(ip, g, stack, output);
    let a1 = spec_advance(ip, g);
    let a2 = spec_advance(a1, g);
    let a3 = spec_advance(a2, g);
    let a4 = spec_advance(a3, g);
    reveal_with_fuel(advance_n, 6);
    assert(advance_n(ip, g, 3) == a3);
    assert(advance_n(ip, g, 4) == a4);
    assert(first.ip.position == a1.position);
    assert(first.ip.movement == ip.movement);
    lemma_flag_branch(first.ip, g, first.stack, first.output);
    let b1 = spec_advance(first.ip, g);
    let b2 = spec_advance(b1, g);
    let b3 = spec_advance(b2, g);
    assert(b1.position == a2.position);
    assert(b2.position == a3.position);
    assert(b3.position == a4.position);
    assert(advance_n(first.ip, g, 2) == b2);
    assert(advance_n(first.ip, g, 3) == b3);
    assert(1u8 & 1u8 == 1u8) by (bit_vector);
    assert(0u8 & 1u8 == 0u8) by (bit_vector);
    if stack.len() == 0 {
        assert(first.ip.flags == EMPTY_STACK);
        assert(spec_load_flag(first.ip, g).1);
    } else {
        assert(first.ip.flags == 0);
        assert(!spec_load_flag(first.ip, g).1);
    }
}

/// Relies on `char::from_u32` of std: it returns `Some` exactly when the
/// value is a Unicode scalar value (not a surrogate, at most U+10FFFF), and
/// then the returned character carries that code point.
#[verifier::external_body]
fn char_from_u32(v: u32) -> (r: Option<char>)
    ensures
        r is Some <==> is_scalar_value(v as int),
        r matches Some(c) ==> c as int == v as int,
{
    char::from_u32(v)
}

/// Euclidean wraparound of one coordinate, as the executable branch code
/// computes it.
proof fn lemma_wrap_coord(x: int, dx: int, extent: int)
    requires
        1 <= extent,
        0 <= x < extent,
        -1 <= dx <= 1,
    ensures
        x + dx < 0 ==> x + dx + extent == (x + dx) % extent,
        x + dx >= extent ==> x + dx - extent == (x + dx) % extent,
        0 <= x + dx < extent ==> x + dx == (x + dx) % extent,
{
    let a = x + dx;
    if a < 0 {
        vstd::arithmetic::div_mod::lemma_fundamental_div_mod_converse_mod(a, extent, -1, a + extent);
    } else if a >= extent {
        vstd::arithmetic::div_mod::lemma_fundamental_div_mod_converse_mod(a, extent, 1, a - extent);
    } else {
        vstd::arithmetic::div_mod::lemma_fundamental_div_mod_converse_mod(a, extent, 0, a);
    }
}

/// After `k` advances with a horizontal unit movement, the column is the
/// start column shifted by `k` modulo the width, and the row is untouched.
proof fn lemma_advance_n_horizontal(ip: InstructionPointer, g: CodeGrid, k: nat)
    requires
        g.wf(),
        ip.wf(&g),
        ip.movement.y == 0,
    ensures
        advance_n(ip, g, k).movement == ip.movement,
        advance_n(ip, g, k).mode == ip.mode,
        advance_n(ip, g, k).flags == ip.flags,
        advance_n(ip, g, k).position.y == ip.position.y,
        advance_n(ip, g, k).position.x as int == (ip.position.x + ip.movement.x * k) % (
        g.width as int),
    decreases k,
{
    let w = g.width as int;
    let dx = ip.movement.x as int;
    if k == 0 {
        vstd::arithmetic::mul::lemma_mul_basics(dx);
        vstd::arithmetic::div_mod::lemma_small_mod(ip.position.x as nat, g.width as nat);
    } else {
        let ip1 = spec_advance(ip, g);
        lemma_advance_wf(ip, g);
        assert(ip1.position.y == ip.position.y) by {
            vstd::arithmetic::div_mod::lemma_small_mod(ip.position.y as nat, g.height as nat);
        }
        lemma_advance_n_horizontal(ip1, g, (k - 1) as nat);
        assert(ip1.position.x as int == (ip.position.x + dx) % w);
        assert((((ip.position.x + dx) % w) + dx * (k - 1)) % w == ((ip.position.x + dx) + dx * (k
            - 1)) % w) by {
            vstd::arithmetic::div_mod::lemma_add_mod_noop_right(
                dx * (k - 1),
                ip.position.x + dx,
                w,
            );
        }
        assert(dx + dx * (k - 1) == dx * k) by {
            vstd::arithmetic::mul::lemma_mul_is_distributive_add(dx, 1, k - 1);
            vstd::arithmetic::mul::lemma_mul_basics(dx);
        }
    }
}

/// After `k` advances with a vertical unit movement, the row is the start
/// row shifted by `k` modulo the height, and the column is untouched.
proof fn lemma_advance_n_vertical(ip: InstructionPointer, g: CodeGrid, k: nat)
    requires
        g.wf(),
        ip.wf(&g),
        ip.movement.x == 0,
    ensures
        advance_n(ip, g, k).movement == ip.movement,
        advance_n(ip, g, k).mode == ip.mode,
        advance_n(ip, g, k).flags == ip.flags,
        advance_n(ip, g, k).position.x == ip.position.x,
        advance_n(ip, g, k).position.y as int == (ip.position.y + ip.movement.y * k) % (
        g.height as int),
    decreases k,
{
    let h = g.height as int;
    let dy = ip.movement.y as int;
    if k == 0 {
        vstd::arithmetic::mul::lemma_mul_basics(dy);
        vstd::arithmetic::div_mod::lemma_small_mod(ip.position.y as nat, g.height as nat);
    } else {
        let ip1 = spec_advance(ip, g);
        lemma_advance_wf(ip, g);
        assert(ip1.position.x == ip.position.x) by {
            vstd::arithmetic::div_mod::lemma_small_mod(ip.position.x as nat, g.width as nat);
        }
        lemma_advance_n_vertical(ip1, g, (k - 1) as nat);
        assert(ip1.position.y as int == (ip.position.y + dy) % h);
        assert((((ip.position.y + dy) % h) + dy * (k - 1)) % h == ((ip.position.y + dy) + dy * (k
            - 1)) % h) by {
            vstd::arithmetic::div_mod::lemma_add_mod_noop_right(
                dy * (k - 1),
                ip.position.y + dy,
                h,
            );
        }
        assert(dy + dy * (k - 1) == dy * k) by {
            vstd::arithmetic::mul::lemma_mul_is_distributive_add(dy, 1, k - 1);
            vstd::arithmetic::mul::lemma_mul_basics(dy);
        }
    }
}

/// Toroidal wraparound: advancing a pointer as many times as the extent of
/// the axis it moves along returns it to exactly the coordinate (and state)
/// it started from.
pub proof fn lemma_wraparound(ip: InstructionPointer, g: CodeGrid)
    requires
        g.wf(),
        ip.wf(&g),
    ensures
        ip.movement.y == 0 ==> advance_n(ip, g, g.width as nat) == ip,
        ip.movement.x == 0 ==> advance_n(ip, g, g.height as nat) == ip,
{
    let w = g.width as int;
    let h = g.height as int;
    if ip.movement.y == 0 {
        lemma_advance_n_horizontal(ip, g, g.width as nat);
        let dx = ip.movement.x as int;
        vstd::arithmetic::mul::lemma_mul_basics(w);
        assert((ip.position.x + dx * w) % w == ip.position.x as int) by {
            if dx == 1 {
                vstd::arithmetic::div_mod::lemma_mod_add_multiples_vanish(ip.position.x as int, w);
            } else {
                assert(dx * w == -w) by {
                    vstd::arithmetic::mul::lemma_mul_unary_negation(1, w);
                    vstd::arithmetic::mul::lemma_mul_basics(w);
                }
                vstd::arithmetic::div_mod::lemma_mod_sub_multiples_vanish(ip.position.x as int, w);
            }
            vstd::arithmetic::div_mod::lemma_small_mod(ip.position.x as nat, g.width as nat);
        }
    }
    if ip.movement.x == 0 {
        lemma_advance_n_vertical(ip, g, g.height as nat);
        let dy = ip.movement.y as int;
        vstd::arithmetic::mul::lemma_mul_basics(h);
        assert((ip.position.y + dy * h) % h == ip.position.y as int) by {
            if dy == 1 {
                vstd::arithmetic::div_mod::lemma_mod_add_multiples_vanish(ip.position.y as int, h);
            } else {
                assert(dy * h == -h) by {
                    vstd::arithmetic::mul::lemma_mul_unary_negation(1, h);
                    vstd::arithmetic::mul::lemma_mul_basics(h);
                }
                vstd::arithmetic::div_mod::lemma_mod_sub_multiples_vanish(ip.position.y as int, h);
            }
            vstd::arithmetic::div_mod::lemma_small_mod(ip.position.y as nat, g.height as nat);
        }
    }
}

/// One advance keeps the pointer in bounds and changes nothing but the
/// position.
pub proof fn lemma_advance_wf(ip: InstructionPointer, g: CodeGrid)
    requires
        g.wf(),
        ip.wf(&g),
    ensures
        spec_advance(ip, g).wf(&g),
        spec_advance(ip, g).movement == ip.movement,
        spec_advance(ip, g).mode == ip.mode,
        spec_advance(ip, g).flags == ip.flags,
{
    vstd::arithmetic::div_mod::lemma_mod_division_less_than_divisor(
        ip.position.x + ip.movement.x,
        g.width as int,
    );
    vstd::arithmetic::div_mod::lemma_mod_division_less_than_divisor(
        ip.position.y + ip.movement.y,
        g.height as int,
    );
}

} // verus!
