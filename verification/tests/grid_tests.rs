use gridlang::CodeGrid;
use gridlang::GridError;
use gridlang::Vec2;

fn cell(g: &CodeGrid, x: isize, y: isize) -> char {
    g.get(Vec2 { x, y })
}

#[test]
fn parse_simple_rectangle() {
    let g = CodeGrid::from_str("ab\ncd").unwrap();
    assert_eq!(g.width, 2);
    assert_eq!(g.height, 2);
    assert_eq!(cell(&g, 0, 0), 'a');
    assert_eq!(cell(&g, 1, 0), 'b');
    assert_eq!(cell(&g, 0, 1), 'c');
    assert_eq!(cell(&g, 1, 1), 'd');
}

#[test]
fn parse_pads_short_lines_with_spaces() {
    let g = CodeGrid::from_str("a\nbcd").unwrap();
    assert_eq!(g.width, 3);
    assert_eq!(g.height, 2);
    assert_eq!(cell(&g, 0, 0), 'a');
    assert_eq!(cell(&g, 1, 0), ' ');
    assert_eq!(cell(&g, 2, 0), ' ');
    assert_eq!(cell(&g, 0, 1), 'b');
    assert_eq!(cell(&g, 2, 1), 'd');
}

#[test]
fn parse_strips_carriage_returns() {
    let g = CodeGrid::from_str("ab\r\ncd\r").unwrap();
    assert_eq!(g.width, 2);
    assert_eq!(g.height, 2);
    assert_eq!(cell(&g, 1, 0), 'b');
    assert_eq!(cell(&g, 1, 1), 'd');
}

#[test]
fn parse_empty_text_is_rejected() {
    assert!(matches!(CodeGrid::from_str(""), Err(GridError::Empty)));
}

#[test]
fn parse_blank_lines_only_is_rejected() {
    assert!(matches!(CodeGrid::from_str("\n\n"), Err(GridError::Empty)));
    assert!(matches!(CodeGrid::from_str("\r\n\r"), Err(GridError::Empty)));
}

#[test]
fn parse_trailing_newline_opens_empty_row() {
    let g = CodeGrid::from_str("a\n").unwrap();
    assert_eq!(g.width, 1);
    assert_eq!(g.height, 2);
    assert_eq!(cell(&g, 0, 0), 'a');
    assert_eq!(cell(&g, 0, 1), ' ');
}

#[test]
fn vec2_add_is_componentwise() {
    let mut a = Vec2 { x: 3, y: -2 };
    a.add(Vec2 { x: -1, y: 5 });
    assert_eq!(a, Vec2 { x: 2, y: 3 });
}
