use std::str::FromStr;
use tak_perft::{Move, Position};

#[test]
fn make_move() {
    let position = Position::from_str(
        "x6/2C,1,1,1,1,1/2,x,111121S,x3/2,x,11,x,1,x/2,1C,12,2,2,2/x,112,x4 2 22",
    )
    .unwrap();

    let mv = Move::from_str("3b1>12").unwrap();
    let expected = "x6/2C,1,1,1,1,1/2,x,111121S,x3/2,x,11,x,1,x/2,1C,12,2,2,2/x2,1,12,x2 1 23";
    let position = position.make_move(mv);
    assert_eq!(expected, position.to_string());
    assert!(position.verify());

    let mv = Move::from_str("6c4-213").unwrap();
    let expected = "x6/2C,1,1,1,1,1/2,x5/2,x,1111,x,1,x/2,1C,121,2,2,2/x2,1121S,12,x2 2 23";
    let position = position.make_move(mv);
    assert_eq!(expected, position.to_string());
    assert!(position.verify());

    let mv = Move::from_str("e4").unwrap();
    let expected = "x6/2C,1,1,1,1,1/2,x3,2,x/2,x,1111,x,1,x/2,1C,121,2,2,2/x2,1121S,12,x2 1 24";
    let position = position.make_move(mv);
    assert_eq!(expected, position.to_string());
    assert!(position.verify());
}
