use zugzwang::board::Board;
use zugzwang::square::Square;
use zugzwang::types::{Color, PieceKind};
use zugzwang::uci::{read_command, UciCommand};

fn position(command: &str) -> Option<Board> {
    match read_command(&Board::starting_position(), command) {
        UciCommand::SetPosition(board) => Some(board),
        _ => None,
    }
}

fn budget(board: &Board, command: &str) -> Option<u64> {
    match read_command(board, command) {
        UciCommand::Go(ms) => Some(ms),
        _ => None,
    }
}

#[test]
fn handshake_commands_are_recognized() {
    let board = Board::starting_position();
    assert!(matches!(read_command(&board, "uci"), UciCommand::Identify));
    assert!(matches!(read_command(&board, "  isready  "), UciCommand::Ready));
    assert!(matches!(read_command(&board, "ucinewgame"), UciCommand::NewGame));
    assert!(matches!(read_command(&board, "stop"), UciCommand::Stop));
    assert!(matches!(read_command(&board, "quit"), UciCommand::Quit));
    assert!(matches!(read_command(&board, "debug on"), UciCommand::Ignore));
    assert!(matches!(read_command(&board, ""), UciCommand::Ignore));
}

#[test]
fn position_startpos_plays_the_listed_moves() {
    let board = position("position startpos moves e2e4 e7e5 g1f3").unwrap();
    assert_eq!(board.to_fen(), "rnbqkbnr/pppp1ppp/8/4p3/4P3/5N2/PPPP1PPP/RNBQKB1R b KQkq - 1 2");
    let start = position("position startpos").unwrap();
    assert_eq!(start.to_fen(), Board::starting_position().to_fen());
}

#[test]
fn position_fen_reads_the_fields_up_to_moves() {
    let board = position("position fen 4k3/8/8/8/8/8/4P3/4K3 w - - 0 1 moves e2e4").unwrap();
    assert_eq!(board.to_fen(), "4k3/8/8/8/4P3/8/8/4K3 b - e3 0 1");
    assert_eq!(board.side_to_move, Color::Black);
    assert_eq!(board.get(Square::new(4, 3)).unwrap().kind, PieceKind::Pawn);
}

#[test]
fn a_position_that_cannot_be_played_is_ignored() {
    assert!(position("position startpos moves e2e5").is_none());
    assert!(position("position fen 4k3/8/8/8/8/8/8/4K3 x - - 0 1").is_none());
    assert!(position("position somewhere").is_none());
    assert!(position("position").is_none());
}

#[test]
fn go_budgets_follow_movetime_then_the_clock() {
    let white = Board::starting_position();
    let black = position("position startpos moves e2e4").unwrap();
    assert_eq!(budget(&white, "go movetime 250"), Some(250));
    assert_eq!(budget(&white, "go wtime 60000 btime 30000"), Some(2000));
    assert_eq!(budget(&black, "go wtime 60000 btime 30000"), Some(1000));
    assert_eq!(budget(&white, "go wtime 60000 movestogo 10"), Some(6000));
    assert_eq!(budget(&white, "go wtime 60000 movestogo 0"), Some(2000));
    assert_eq!(budget(&white, "go infinite"), Some(500));
    assert_eq!(budget(&white, "go movetime 100 wtime 60000"), Some(100));
}
