use std::str::FromStr;
use tak_perft::Move;

#[test]
fn roundtrip_moves() {
    let cases = ["a1", "Cb4", "Sd3", "a1>", "d1-", "4c3>", "3b2+111", "5e4<23", "5b4>212"];

    for case in cases {
        let mv = Move::from_str(case).unwrap();
        let mstr = mv.to_string();
        assert_eq!(case, mstr);
    }
}
