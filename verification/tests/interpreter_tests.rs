use gridlang::CodeGrid;
use gridlang::ExecutionContext;
use gridlang::IPMode;
use gridlang::InstructionPointer;
use gridlang::Vec2;

const EMPTY_STACK_FLAG: u8 = 0x1;

fn down() -> Vec2 {
    Vec2 { x: 0, y: 1 }
}

fn context_of(code: &str) -> ExecutionContext {
    ExecutionContext::new(code).unwrap()
}

fn context_with(code: &str, ips: Vec<InstructionPointer>, stack: Vec<i32>) -> ExecutionContext {
    ExecutionContext {
        code_grid: CodeGrid::from_str(code).unwrap(),
        instruction_pointers: ips,
        stack,
        output: Vec::new(),
    }
}

/// Drives the context until the pointer collection empties, up to `cap`
/// ticks; reports whether the program terminated.
fn run_capped(ec: &mut ExecutionContext, cap: usize) -> bool {
    for _ in 0..cap {
        if ec.instruction_pointers.is_empty() {
            return true;
        }
        ec.tick();
    }
    ec.instruction_pointers.is_empty()
}

fn printed(ec: &ExecutionContext) -> String {
    ec.output.iter().collect()
}

#[test]
fn new_context_starts_at_origin_moving_down() {
    let ec = context_of("ab\ncd");
    assert_eq!(ec.instruction_pointers.len(), 1);
    let ip = ec.instruction_pointers[0];
    assert_eq!(ip.position, Vec2 { x: 0, y: 0 });
    assert_eq!(ip.movement, down());
    assert_eq!(ip.mode, IPMode::Normal);
    assert_eq!(ip.flags, 0);
    assert!(ec.stack.is_empty());
    assert!(ec.output.is_empty());
}

#[test]
fn new_context_rejects_empty_text() {
    assert!(ExecutionContext::new("").is_err());
}

#[test]
fn update_pos_wraps_around_every_edge() {
    let g = CodeGrid::from_str("abc\ndef").unwrap();
    let mut ip = InstructionPointer::new(Vec2 { x: 1, y: 0 }, Vec2 { x: 2, y: 0 });
    ip.update_pos(&g);
    assert_eq!(ip.position, Vec2 { x: 0, y: 0 });

    let mut ip = InstructionPointer::new(Vec2 { x: -1, y: 0 }, Vec2 { x: 0, y: 1 });
    ip.update_pos(&g);
    assert_eq!(ip.position, Vec2 { x: 2, y: 1 });

    let mut ip = InstructionPointer::new(Vec2 { x: 0, y: 1 }, Vec2 { x: 1, y: 1 });
    ip.update_pos(&g);
    assert_eq!(ip.position, Vec2 { x: 1, y: 0 });

    let mut ip = InstructionPointer::new(Vec2 { x: 0, y: -1 }, Vec2 { x: 1, y: 0 });
    ip.update_pos(&g);
    assert_eq!(ip.position, Vec2 { x: 1, y: 1 });
}

#[test]
fn advancing_width_times_returns_to_start() {
    let g = CodeGrid::from_str("abcd").unwrap();
    let start = Vec2 { x: 1, y: 0 };
    let mut ip = InstructionPointer::new(Vec2 { x: 1, y: 0 }, start);
    for _ in 0..4 {
        ip.update_pos(&g);
    }
    assert_eq!(ip.position, start);

    let g = CodeGrid::from_str("a\nb\nc").unwrap();
    let start = Vec2 { x: 0, y: 2 };
    let mut ip = InstructionPointer::new(Vec2 { x: 0, y: -1 }, start);
    for _ in 0..3 {
        ip.update_pos(&g);
    }
    assert_eq!(ip.position, start);
}

#[test]
fn straight_line_program_prints_preloaded_value() {
    let ip = InstructionPointer::new(down(), Vec2 { x: 0, y: 0 });
    let mut ec = context_with("v\n.\n;", vec![ip], vec![65]);
    assert!(run_capped(&mut ec, 10));
    assert_eq!(printed(&ec), "A");
    assert!(ec.stack.is_empty());
    assert!(ec.instruction_pointers.is_empty());
}

#[test]
fn straight_line_program_prints_string_mode_push() {
    let mut ec = context_of("\"\nA\n\"\n.\n;");
    assert!(run_capped(&mut ec, 10));
    assert_eq!(printed(&ec), "A");
    assert!(ec.stack.is_empty());
    assert!(ec.instruction_pointers.is_empty());
}

#[test]
fn horizontal_split_creates_exactly_one_new_pointer() {
    let mut ec = context_of(">_..");
    ec.tick();
    assert_eq!(ec.instruction_pointers.len(), 1);
    ec.tick();
    assert_eq!(ec.instruction_pointers.len(), 2);
    let splitter = ec.instruction_pointers[0];
    let spawned = ec.instruction_pointers[1];
    assert_eq!(splitter.movement, Vec2 { x: 1, y: 0 });
    assert_eq!(splitter.position, Vec2 { x: 2, y: 0 });
    assert_eq!(spawned.movement, Vec2 { x: -1, y: 0 });
    assert_eq!(spawned.position, Vec2 { x: 0, y: 0 });
    assert_eq!(spawned.mode, IPMode::Normal);
}

#[test]
fn vertical_split_spawns_a_second_downward_pointer() {
    let mut ec = context_of("|\n.");
    ec.tick();
    assert_eq!(ec.instruction_pointers.len(), 2);
    let splitter = ec.instruction_pointers[0];
    let spawned = ec.instruction_pointers[1];
    assert_eq!(splitter.movement, down());
    assert_eq!(spawned.movement, down());
    assert_eq!(splitter.position, Vec2 { x: 0, y: 1 });
    assert_eq!(spawned.position, Vec2 { x: 0, y: 1 });
}

#[test]
fn two_removals_in_one_tick_keep_the_surviving_neighbor() {
    let ips = vec![
        InstructionPointer::new(down(), Vec2 { x: 0, y: 0 }),
        InstructionPointer::new(down(), Vec2 { x: 1, y: 0 }),
        InstructionPointer::new(down(), Vec2 { x: 2, y: 0 }),
    ];
    let mut ec = context_with(";;.", ips, Vec::new());
    ec.tick();
    assert_eq!(ec.instruction_pointers.len(), 1);
    let survivor = ec.instruction_pointers[0];
    assert_eq!(survivor.position, Vec2 { x: 2, y: 0 });
    assert_eq!(survivor.flags, EMPTY_STACK_FLAG);
}

#[test]
fn flag_branch_skips_nothing_after_pop_on_empty() {
    let mut ec = context_of(".\n?\n_\n;\n;");
    ec.tick();
    assert_eq!(ec.instruction_pointers[0].flags, EMPTY_STACK_FLAG);
    ec.tick();
    assert_eq!(ec.instruction_pointers[0].position, Vec2 { x: 0, y: 3 });
    assert_eq!(ec.instruction_pointers[0].flags, 0);
    assert!(run_capped(&mut ec, 10));
}

#[test]
fn flag_branch_extra_skip_when_stack_was_not_empty() {
    let ip = InstructionPointer::new(down(), Vec2 { x: 0, y: 0 });
    let mut ec = context_with(".\n?\n_\n;\n;", vec![ip], vec![65]);
    ec.tick();
    assert_eq!(ec.instruction_pointers[0].flags, 0);
    ec.tick();
    assert_eq!(ec.instruction_pointers[0].position, Vec2 { x: 0, y: 4 });
    assert_eq!(printed(&ec), "A");
    assert!(run_capped(&mut ec, 10));
}

#[test]
fn string_mode_round_trip_prints_reverse() {
    let mut ec = context_of("\"\nH\ni\n\"\n.\n.\n;");
    assert!(run_capped(&mut ec, 10));
    assert_eq!(printed(&ec), "iH");
    assert!(ec.stack.is_empty());
}

#[test]
fn string_mode_pushes_code_points() {
    let mut ec = context_of("\"\nH\ni\n\"\n;");
    assert!(run_capped(&mut ec, 10));
    assert_eq!(ec.stack, vec![72, 105]);
}

#[test]
fn string_escape_embeds_quote_and_backslash() {
    let mut ec = context_of("\"\n\\\n\"\n\\\n\\\n\"\n.\n.\n;");
    assert!(run_capped(&mut ec, 12));
    assert_eq!(printed(&ec), "\\\"");
}

#[test]
fn string_escape_runs_an_instruction_without_leaving_string_mode() {
    let mut ec = context_of("\"\n\\\n;");
    ec.tick();
    ec.tick();
    assert_eq!(ec.instruction_pointers[0].mode, IPMode::StringEscape);
    ec.tick();
    assert!(ec.instruction_pointers.is_empty());
}

#[test]
fn print_on_empty_stack_emits_nothing_and_raises_flag() {
    let mut ec = context_of(".");
    ec.tick();
    assert!(ec.output.is_empty());
    assert_eq!(ec.instruction_pointers[0].flags, EMPTY_STACK_FLAG);
    ec.tick();
    assert_eq!(ec.instruction_pointers[0].flags, EMPTY_STACK_FLAG);
}

#[test]
fn print_replaces_values_outside_unicode_scalars() {
    let ip = InstructionPointer::new(down(), Vec2 { x: 0, y: 0 });
    let mut ec = context_with(".\n.\n.\n;", vec![ip], vec![65, 0xD800, -1]);
    assert!(run_capped(&mut ec, 10));
    assert_eq!(printed(&ec), "\u{FFFD}\u{FFFD}A");
}

#[test]
fn later_pointer_sees_stack_writes_of_the_same_tick() {
    let ips = vec![
        InstructionPointer::new(down(), Vec2 { x: 0, y: 0 }),
        InstructionPointer::new(down(), Vec2 { x: 1, y: 0 }),
    ];
    let mut ec = context_with("..", ips, vec![65]);
    ec.tick();
    assert_eq!(printed(&ec), "A");
    assert_eq!(ec.instruction_pointers[0].flags, 0);
    assert_eq!(ec.instruction_pointers[1].flags, EMPTY_STACK_FLAG);
}

#[test]
fn program_without_remove_never_terminates() {
    let mut ec = context_of(".");
    assert!(!run_capped(&mut ec, 100));
    assert_eq!(ec.instruction_pointers.len(), 1);

    let mut ec = context_of(">v\n^<");
    assert!(!run_capped(&mut ec, 100));
    assert_eq!(ec.instruction_pointers.len(), 1);
}

#[test]
fn unknown_characters_are_inert() {
    let ip = InstructionPointer::new(down(), Vec2 { x: 0, y: 0 });
    let mut ec = context_with("z\n;", vec![ip], vec![7]);
    ec.tick();
    assert_eq!(ec.stack, vec![7]);
    assert!(ec.output.is_empty());
    assert_eq!(ec.instruction_pointers[0].position, Vec2 { x: 0, y: 1 });
    assert!(run_capped(&mut ec, 10));
}

#[test]
fn movement_instructions_set_direction() {
    let mut ec = context_of(">v\n^<");
    ec.tick();
    assert_eq!(ec.instruction_pointers[0].movement, Vec2 { x: 1, y: 0 });
    assert_eq!(ec.instruction_pointers[0].position, Vec2 { x: 1, y: 0 });
    ec.tick();
    assert_eq!(ec.instruction_pointers[0].movement, Vec2 { x: 0, y: 1 });
    assert_eq!(ec.instruction_pointers[0].position, Vec2 { x: 1, y: 1 });
    ec.tick();
    assert_eq!(ec.instruction_pointers[0].movement, Vec2 { x: -1, y: 0 });
    assert_eq!(ec.instruction_pointers[0].position, Vec2 { x: 0, y: 1 });
    ec.tick();
    assert_eq!(ec.instruction_pointers[0].movement, Vec2 { x: 0, y: -1 });
    assert_eq!(ec.instruction_pointers[0].position, Vec2 { x: 0, y: 0 });
}

#[test]
fn print_boundary_scalar_values() {
    let ip = InstructionPointer::new(down(), Vec2 { x: 0, y: 0 });
    let mut ec = context_with(".\n.\n;", vec![ip], vec![0x110000, 0x10FFFF]);
    assert!(run_capped(&mut ec, 10));
    assert_eq!(printed(&ec), "\u{10FFFF}\u{FFFD}");
}

#[test]
fn default_pointer_matches_program_start() {
    let ip = InstructionPointer::default();
    assert_eq!(ip.position, Vec2 { x: 0, y: 0 });
    assert_eq!(ip.movement, down());
    assert_eq!(ip.mode, IPMode::Normal);
    assert_eq!(ip.flags, 0);
}
