use std::str::FromStr;
use tak_perft::perft::perft;
use tak_perft::{Bitboard, Color, Interface, Move, MoveList, Position, Reply, Square, Terminal};

#[test]
fn bitboards_stay_on_board() {
    assert_eq!(Bitboard::rank_mask(0).0, 0x3F);
    assert_eq!(Bitboard::rank_mask(5).0, 0x3F << 30);
    assert_eq!(Bitboard::file_mask(0).0, 0x0_0041_0410_41);
    assert_eq!(Bitboard(0).complement().0, 0xF_FFFF_FFFF);
    assert_eq!(Bitboard(u64::MAX).complement().0, 0);
    assert_eq!(Bitboard(0b1010_0000).lsb(), Square::F1);
    assert_eq!(Bitboard(0b1010_0000).msb(), Square::B2);
    assert_eq!(Bitboard(0).lsb(), Square::Absent);
    assert_eq!(Bitboard(0).msb(), Square::Absent);
    assert_eq!(Bitboard::above(Square::E6).0, 0x8_0000_0000);
    assert_eq!(Bitboard::below(Square::A1).0, 0);
    let mut b = Bitboard(0);
    b.set(Square::F6);
    assert!(b.get(Square::F6));
    b.unset(Square::F6);
    assert!(b.is_empty());
}

#[test]
fn make_move_is_pure() {
    let p = Position::from_str("x6/2C,1,1,1,1,1/2,x,111121S,x3/2,x,11,x,1,x/2,1C,12,2,2,2/x,112,x4 2 22").unwrap();
    let before = p.to_string();
    let mv = Move::from_str("3b1>12").unwrap();
    let a = p.make_move(mv);
    let b = p.make_move(mv);
    assert_eq!(p.to_string(), before);
    assert_eq!(a.to_string(), b.to_string());
}

#[test]
fn opening_places_the_other_colour() {
    let p = Position::default().make_move(Move::from_str("a1").unwrap());
    assert_eq!(p.to_string(), "x6/x6/x6/x6/x6/2,x5 2 1");
    let p = p.make_move(Move::from_str("f6").unwrap());
    assert_eq!(p.to_string(), "x5,1/x6/x6/x6/x6/2,x5 1 2");
    assert_eq!(p.remaining_stones, [29, 29]);
}

#[test]
fn crush_flattens_the_wall() {
    let p = Position::from_str("x6/x6/x6/x6/x6/1C,2S,x4 1 5").unwrap();
    let mv = Move::from_str("a1>").unwrap();
    assert!(p.accepts(mv));
    let q = p.make_move(mv);
    assert_eq!(q.to_string(), "x6/x6/x6/x6/x6/x,21C,x4 2 5");
    assert!(q.verify());
}

#[test]
fn counts_match_the_list() {
    for tps in [
        "x6/x6/x6/x6/x6/x6 1 1",
        "x6/x4,1S,x/x2,21111S,1C,22122C,x/x6/x6/x6 2 11",
        "x6/x6/x6/x3,111222111222111222111222111222111222111222111222111222111222C,x2/x6/x6 2 31",
    ] {
        let p = Position::from_str(tps).unwrap();
        let mut ml = MoveList::new();
        p.generate_moves(&mut ml);
        assert_eq!(ml.len() as u64, p.count_moves());
        for i in 0..ml.len() {
            assert!(p.accepts(ml.get(i)));
            assert!(p.make_move(ml.get(i)).verify());
        }
    }
    assert_eq!(perft(&Position::default(), 1), 36);
}

#[test]
fn flat_count_decides() {
    let p = Position::from_str("1,1,1,x3/x6/x6/x6/x6/x6 2 20").unwrap();
    let mut q = p;
    q.remaining_stones = [0, 30];
    q.remaining_caps = [0, 1];
    assert_eq!(q.terminal().map(Terminal::winner), Some(Some(Color::P1)));
    let p = Position::from_str("1,1,x4/x6/x6/x6/x6/x6 2 20").unwrap();
    let mut q = p;
    q.remaining_stones = [0, 30];
    q.remaining_caps = [0, 1];
    assert_eq!(q.terminal().map(Terminal::winner), Some(None));
    assert!(Position::default().terminal().is_none());
}

#[test]
fn protocol_lines() {
    let mut i = Interface::default();
    assert!(matches!(i.parse_line("   \n"), Reply::Done));
    assert!(matches!(i.parse_line("position startpos moves a1 f6"), Reply::Done));
    match i.parse_line("d") {
        Reply::Show(s) => assert_eq!(s, "x5,1/x6/x6/x6/x6/2,x5 1 2"),
        _ => panic!("expected the position"),
    }
    assert!(matches!(i.parse_line("moves a1"), Reply::Failed { .. }));
    assert!(matches!(i.parse_line("moves b1 zz"), Reply::Failed { .. }));
    assert_eq!(i.position.to_string(), "x5,1/x6/x6/x6/x6/2,x5 1 2");
    assert!(matches!(i.parse_line("perft"), Reply::Perft(1)));
    assert!(matches!(i.parse_line("perft 3"), Reply::Perft(3)));
    assert!(matches!(i.parse_line("perft x"), Reply::Failed { .. }));
    assert!(matches!(i.parse_line("position"), Reply::Failed { .. }));
    assert!(matches!(i.parse_line("position tps x6/x6 1"), Reply::Failed { .. }));
    assert!(matches!(i.parse_line("position foo"), Reply::Failed { .. }));
    match i.parse_line("frobnicate") {
        Reply::Failed { cmd, .. } => assert_eq!(cmd, "frobnicate"),
        _ => panic!("expected a failure"),
    }
    assert!(matches!(
        i.parse_line("position tps x6/x6/x6/x6/x6/x6 2 3 moves b2"),
        Reply::Done
    ));
    assert_eq!(i.position.to_string(), "x6/x6/x6/x6/x,2,x4/x6 1 4");
}
