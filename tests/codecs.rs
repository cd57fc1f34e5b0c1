use std::str::FromStr;
use tak_perft::{Move, MoveParseError, PieceType, Position, Square, SquareParseError, TpsError};

#[test]
fn square_strings() {
    assert_eq!(Square::from_str("a1").unwrap(), Square::A1);
    assert_eq!(Square::from_str("f6").unwrap().to_index(), 35);
    assert_eq!(Square::from_str("c4").unwrap().to_index(), 2 + 6 * 3);
    assert_eq!(Square::D5.to_string(), "d5");
    assert_eq!(Square::from_str("a").unwrap_err(), SquareParseError::InvalidLength);
    assert_eq!(Square::from_str("a12").unwrap_err(), SquareParseError::InvalidLength);
    assert_eq!(Square::from_str("g1").unwrap_err(), SquareParseError::InvalidFile);
    assert_eq!(Square::from_str("a7").unwrap_err(), SquareParseError::InvalidRank);
}

#[test]
fn move_words() {
    let m = Move::place(PieceType::Cap, Square::B4);
    assert_eq!(m.raw(), 3 * 4096 + 19);
    assert!(m.is_place());
    assert_eq!(m.piece_type(), PieceType::Cap);
    let m = Move::from_str("3b2+111").unwrap();
    assert_eq!(m.raw(), 0b000111 * 64 + 7);
    assert_eq!(m.splat(), 0b000111);
    assert!(m.is_spread());
    let m = Move::from_str("5e4<23").unwrap();
    assert_eq!(m.splat(), 0b10010);
    let m = Move::from_str("5b4>212").unwrap();
    assert_eq!(m.splat(), 0b10110);
    assert_eq!(m.flags(), 1);
}

#[test]
fn move_string_forms() {
    assert_eq!(Move::from_str("Fa1").unwrap().to_string(), "a1");
    assert_eq!(Move::from_str("3c3+3").unwrap().to_string(), "3c3+");
    assert_eq!(Move::from_str("1c3-").unwrap().to_string(), "c3-");
    assert_eq!(Move::from_str("6a1>111111").unwrap().to_string(), "6a1>111111");
}

#[test]
fn move_string_errors() {
    assert_eq!(Move::from_str("").unwrap_err(), MoveParseError::TooShort);
    assert_eq!(Move::from_str("a").unwrap_err(), MoveParseError::TooShort);
    assert_eq!(Move::from_str("3a").unwrap_err(), MoveParseError::TooShort);
    assert_eq!(Move::from_str("7a1+").unwrap_err(), MoveParseError::InvalidLiftCount);
    assert_eq!(Move::from_str("0a1+").unwrap_err(), MoveParseError::InvalidLiftCount);
    assert_eq!(Move::from_str("3a1").unwrap_err(), MoveParseError::InvalidDirection);
    assert_eq!(Move::from_str("a1x").unwrap_err(), MoveParseError::InvalidDirection);
    assert_eq!(Move::from_str("3a1+4").unwrap_err(), MoveParseError::InvalidSplat);
    assert_eq!(Move::from_str("3a1+11").unwrap_err(), MoveParseError::InvalidSplat);
    assert_eq!(Move::from_str("3a1+17").unwrap_err(), MoveParseError::InvalidTrailingCharacter);
    assert_eq!(Move::from_str("Sa1+").unwrap_err(), MoveParseError::InvalidTrailingCharacter);
    assert_eq!(
        Move::from_str("z1").unwrap_err(),
        MoveParseError::InvalidSquare(SquareParseError::InvalidFile)
    );
    assert_eq!(
        Move::from_str("Ca9").unwrap_err(),
        MoveParseError::InvalidSquare(SquareParseError::InvalidRank)
    );
}

#[test]
fn tps_errors() {
    let err = |s: &str| Position::from_str(s).unwrap_err();
    assert_eq!(err("x6/x6/x6/x6/x6/x6 1"), TpsError::WrongPartCount);
    assert_eq!(err("x6/x6/x6/x6/x6 1 1"), TpsError::WrongRankCount);
    assert_eq!(err("x6/x6/x6/x6/x6/x5 1 1"), TpsError::WrongFileCount);
    assert_eq!(err("x6/x6/x6/x6/x6/x5,1,1 1 1"), TpsError::WrongFileCount);
    assert_eq!(err("x6/x6/x6/x6/x6/xa,x5 1 1"), TpsError::InvalidEmptySquare);
    assert_eq!(err("x6/x6/x6/x6/x6/,x5 1 1"), TpsError::InvalidEmptySquare);
    assert_eq!(err("x6/x6/x6/x6/x6/1S2,x5 1 1"), TpsError::NonTrailingPieceType);
    assert_eq!(err("x6/x6/x6/x6/x6/3,x5 1 1"), TpsError::InvalidCharacter);
    assert_eq!(
        err("x6/x6/x6/x6/x6/1111111111111111111111111111111,x5 1 1"),
        TpsError::TooManyStones
    );
    assert_eq!(err("x6/x6/x6/x6/x6/1C,1C,x4 1 1"), TpsError::TooManyCaps);
    assert_eq!(err("x6/x6/x6/x6/x6/x6 3 1"), TpsError::InvalidSideToMove);
    assert_eq!(err("x6/x6/x6/x6/x6/x6 1 0"), TpsError::InvalidFullMoveCounter);
    assert_eq!(err("x6/x6/x6/x6/x6/x6 1 -2"), TpsError::InvalidFullMoveCounter);
}

#[test]
fn tps_side_and_ply() {
    let p = Position::from_str("x6/x6/x6/x6/x6/x6 2 7").unwrap();
    assert_eq!(p.ply, 13);
    assert_eq!(p.to_string(), "x6/x6/x6/x6/x6/x6 2 7");
    let p = Position::from_str("x6/x6/x6/x6/x6/x6 1 1").unwrap();
    assert_eq!(p.ply, 0);
    assert!(p.verify());
    assert_eq!(Position::default().to_string(), "x6/x6/x6/x6/x6/x6 1 1");
}

#[test]
fn tall_stack_errors_come_after_board_errors() {
    let tall = "1".repeat(63);
    let err = |s: String| Position::from_str(&s).unwrap_err();
    assert_eq!(err(format!("x6/x6/x6/x6/x6/{tall},x4 1 1")), TpsError::WrongFileCount);
    assert_eq!(err(format!("x6/x6/x6/x6/x6/{tall},3,x4 1 1")), TpsError::InvalidCharacter);
    assert_eq!(err(format!("x6/x6/x6/x6/x6/{tall},,x4 1 1")), TpsError::InvalidEmptySquare);
    assert_eq!(err(format!("x6/x6/x6/x6/x6/{tall},1S2,x4 1 1")), TpsError::NonTrailingPieceType);
    assert_eq!(err(format!("x6/x6/x6/x6/x6/{tall},x5 1 1")), TpsError::TooManyStones);
    assert_eq!(err(format!("x6/x6/x6/x6/x6/{tall}C,x5 1 1")), TpsError::TooManyStones);
}
