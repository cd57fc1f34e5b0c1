use std::str::FromStr;
use tak_perft::Position;

#[test]
fn roundtrip_tps() {
    let cases = [
        "x6/x6/x6/x6/x6/x6 1 1",
        "2,2,2,2,2,x/x6/x6/x6/x6/x6 1 1",
        "x3,12,2S,x/x,22S,22C,11,21,x/121,212,12,1121C,1212S,x/21S,1,21,211S,12S,x/x,21S,2,x3/x6 1 26",
        "1,x,1,1,1,x/1,11112C,111121C,2S,x,1/2,x,1122,2S,1,1/2,x,2S,x2,2/2,2,1S,2,2221S,2/2,x,112,x2,2 1 33",
        "1,x,1,x3/x,2,1121C,x3/1112,x,2,x3/2,2,x,2,x2/x2,1212,x3/2C,1,1,x3 1 18",
        "2,x2,1,2,1/x3,1,2C,1/x3,121C,12,1/x2,2,2,2,2/x4,1,x/x4,1,x 1 12",
        "1,x,1,x3/x2,1111212,2,x2/x,1,21,212,x,1/x2,21,2,2,2C/x2,21C,x2,2/2,x5 2 22",
        "x2,2,x2,1/x,122,121C,212,x2/x2,2,2,2,2C/1,x2,2,x,1/x2,1,x2,1/1,x2,2111112,x,1 2 24",
        "2,x,222212,x,2,12C/x,221S,x2,2,x/21,x3,1,x/22,221,1121S,x,1,x/2112,221S,x4/x,1C,1,1,x2 2 48",
        "2,x2,2,1,x/2,x,12,x,1,112S/2,21S,221C,211111,2,1/x,1S,x,22212C,x2/1S,2,2,x2,21/x,21121,2,12,2,2 2 36",
    ];

    for case in cases {
        let position = Position::from_str(case).unwrap();
        let tps = position.to_string();
        assert_eq!(case, tps);
    }
}
