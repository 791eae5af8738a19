use auto_claw::loader::{board_line_panics, level_panics};
use auto_claw::board::Board;
use auto_claw::level::{extract_file_string, Token};
use auto_claw::loader::{
    read_board, read_level_from_string, read_level_line, save_board_line, save_level_text,
    set_first_board,
    split_lines, LevelError,
};
use auto_claw::view::View;

#[test]
fn board_line_names_a_view() {
    let b: Board<u32> = read_board("\"G\"").unwrap();
    assert_eq!(*b.view(), View::Guild);
}

#[test]
fn board_line_that_is_no_name() {
    let r: Result<Board<u32>, LevelError> = read_board("\"G\" x");
    assert_eq!(r.err(), Some(LevelError::BoardLine(String::from("\"G\" x"))));
    let r: Result<Board<u32>, LevelError> = read_board("(1,2)");
    assert_eq!(r.err(), Some(LevelError::BoardLine(String::from("(1,2)"))));
}

#[test]
fn lines_like_str_lines() {
    for text in ["", "a", "a\n", "a\nb", "a\r\nb\r\n", "\n\n", "a\r", "x\ny\n\nz"] {
        let expected: Vec<String> = text.lines().map(String::from).collect();
        assert_eq!(split_lines(text), expected);
    }
}

#[test]
fn level_line_counts() {
    let mut boards: Vec<Board<u32>> = Vec::new();
    assert_eq!(read_level_line("# note", 0, &mut boards).ok(), Some(0));
    assert_eq!(boards.len(), 0);
    assert_eq!(read_level_line(">\"T\"", 0, &mut boards).ok(), Some(0));
    assert_eq!(read_level_line(">\"B\"", 2, &mut boards).ok(), Some(3));
    assert_eq!(boards.len(), 2);
    assert_eq!(*boards[1].view(), View::Battle);
}

#[test]
fn level_reads_boards_in_order() {
    let mut boards: Vec<Board<u32>> = vec![Board::empty()];
    let mut board: Board<u32> = Board::new(View::Guild);
    let mut index = 7usize;
    let text = ">\"A\"\nignored line\r\n>\"R\"\n";
    assert!(read_level_from_string(text, &mut boards, &mut board, &mut index).is_ok());
    assert_eq!(boards.len(), 2);
    assert_eq!(*boards[0].view(), View::Tavern);
    assert_eq!(*boards[1].view(), View::Research);
    assert_eq!(*board.view(), View::Tavern);
    assert_eq!(board.zone_count(), 0);
    assert_eq!(index, 0);
}

#[test]
fn level_without_boards_keeps_board_on_show() {
    let mut boards: Vec<Board<u32>> = vec![Board::empty()];
    let mut board: Board<u32> = Board::new(View::Guild);
    board.add_zone(View::Town, 5);
    let mut index = 7usize;
    assert!(read_level_from_string("no boards\n", &mut boards, &mut board, &mut index).is_ok());
    assert!(boards.is_empty());
    assert_eq!(*board.view(), View::Guild);
    assert_eq!(board.zone_count(), 1);
    assert_eq!(index, 7);
}

#[test]
fn level_stops_at_unreadable_board() {
    let mut boards: Vec<Board<u32>> = Vec::new();
    let mut board: Board<u32> = Board::new(View::Guild);
    let mut index = 3usize;
    let text = ">\"A\"\n>x\n>\"R\"";
    let r = read_level_from_string(text, &mut boards, &mut board, &mut index);
    assert_eq!(r.err(), Some(LevelError::BoardLine(String::from("x"))));
    assert_eq!(boards.len(), 1);
    assert_eq!(*boards[0].view(), View::Tavern);
    assert_eq!(*board.view(), View::Guild);
    assert_eq!(index, 3);
}

#[test]
fn first_board_is_copied_with_its_zones() {
    let mut first: Board<u32> = Board::new(View::Battle);
    first.add_zone(View::Town, 4);
    let boards = vec![first, Board::new(View::Guild)];
    let mut board: Board<u32> = Board::empty();
    let mut index = 1usize;
    set_first_board(&boards, &mut board, &mut index);
    assert_eq!(index, 0);
    assert_eq!(*board.view(), View::Battle);
    assert_eq!(*board.zone_mut(0), 4);
    assert_eq!(boards[0].zone_count(), 1);
}

#[test]
fn saved_board_line() {
    let b: Board<u32> = Board::new(View::Town);
    let mut tokens: Vec<Vec<Token>> = Vec::new();
    save_board_line(&b, &mut tokens);
    let title = format!("Town overview{}", "=".repeat(51));
    assert_eq!(tokens, vec![vec![Token::Varying('>'), Token::String(title.clone())]]);
    assert_eq!(save_level_text(&b), format!(">\"{}\"\n", title));
    assert_eq!(extract_file_string(&tokens), save_level_text(&b));
}

#[test]
fn panicking_board_lines_are_told() {
    assert!(board_line_panics("\"Q\""));
    assert!(board_line_panics("(1)"));
    assert!(!board_line_panics("\"T\""));
    assert!(!board_line_panics("x"));
    assert!(level_panics(">\"T\"\n>\"Z\"\n"));
    assert!(!level_panics(">\"T\"\n>x\n>\"Z\"\n"));
    assert!(!level_panics("no boards here"));
}
