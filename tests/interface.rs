use std::str::FromStr;
use tak_perft::perft::perft_split;
use tak_perft::{Bitboard, Interface, Position, ProtocolError, Reply, Square, TpsError};

#[test]
fn unset_keeps_only_board_bits() {
    let mut b = Bitboard((1u64 << 40) | 1);
    b.unset(Square::A1);
    assert_eq!(b.0, 0);
}

#[test]
fn move_number_range() {
    let p = Position::from_str("x6/x6/x6/x6/x6/x6 2 32768").unwrap();
    assert_eq!(p.ply, 65535);
    let p = Position::from_str("x6/x6/x6/x6/x6/x6 1 +3").unwrap();
    assert_eq!(p.ply, 4);
    assert_eq!(
        Position::from_str("x6/x6/x6/x6/x6/x6 1 32769").unwrap_err(),
        TpsError::InvalidFullMoveCounter
    );
    assert_eq!(
        Position::from_str("x6/x6/x6/x6/x6/x6 1 +").unwrap_err(),
        TpsError::InvalidFullMoveCounter
    );
}

#[test]
fn illegal_moves_leave_the_position() {
    let mut i = Interface::default();
    assert!(matches!(i.parse_line("position startpos moves a1 f6"), Reply::Done));
    let before = i.position.to_string();
    match i.parse_line("moves b2 f6<") {
        Reply::Failed { error: ProtocolError::IllegalMove(m), .. } => assert_eq!(m, "f6<"),
        _ => panic!("expected an illegal move"),
    }
    assert_eq!(i.position.to_string(), before);
    match i.parse_line("position tps x6/x6/x6/x6/x6/1,2C,x4 1 5 moves a1>") {
        Reply::Failed { error: ProtocolError::IllegalMove(_), .. } => {}
        _ => panic!("a spread onto a cap must fail"),
    }
    assert_eq!(i.position.to_string(), before);
    assert!(i.position.verify());
}

#[test]
fn position_commands() {
    let mut i = Interface::default();
    assert!(matches!(
        i.parse_line("position tps x6/x6/x6/x6/x6/x6 1 5 moves a1 b1"),
        Reply::Done
    ));
    assert_eq!(i.position.to_string(), "x6/x6/x6/x6/x6/1,2,x4 1 6");
    assert!(matches!(
        i.parse_line("position"),
        Reply::Failed { error: ProtocolError::EmptyPositionArgument, .. }
    ));
    assert!(matches!(
        i.parse_line("position tps x6/x6/x6/x6/x6/x6 1 5 a1"),
        Reply::Failed { error: ProtocolError::UnrecognisedToken(_), .. }
    ));
    assert!(matches!(
        i.parse_line("position startpos a1"),
        Reply::Failed { error: ProtocolError::UnrecognisedToken(_), .. }
    ));
    assert!(matches!(
        i.parse_line("position tps x6/x6/x6/x6/x6 1 5"),
        Reply::Failed { error: ProtocolError::Tps(TpsError::WrongRankCount), .. }
    ));
    assert_eq!(i.position.to_string(), "x6/x6/x6/x6/x6/1,2,x4 1 6");
    assert!(matches!(i.parse_line("perft -2"), Reply::Perft(-2)));
    assert!(matches!(i.parse_line("perft +4"), Reply::Perft(4)));
    assert!(matches!(
        i.parse_line("perft 5x"),
        Reply::Failed { error: ProtocolError::InvalidDepth(_), .. }
    ));
}

#[test]
fn split_counts_add_up() {
    let (moves, total) = perft_split(&Position::default(), 2);
    assert_eq!(moves.len(), 36);
    assert!(moves.iter().all(|&(_, c)| c == 35));
    assert_eq!(total, 1260);
    let (moves, total) = perft_split(&Position::default(), 0);
    assert!(moves.is_empty());
    assert_eq!(total, 1);
}
