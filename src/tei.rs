use crate::moves::Move;
use crate::notation::move_spec;
use crate::notation::MoveParseError;
use crate::make_move::after;
use crate::position::{start_position, Position};
use crate::text::{chars_of, push_chars, split_whitespace, words};
use crate::tps::{decimal_value, is_digit, parse_number, tps_position, tps_spec, TpsError};
use vstd::prelude::*;

verus! {

broadcast use vstd::string::group_string_axioms;

/// Why a command line failed.
#[derive(Debug)]
pub enum ProtocolError {
    UnknownCommand,
    EmptyPositionArgument,
    UnrecognisedToken(String),
    WrongTpsPartCount,
    Tps(TpsError),
    Move(MoveParseError),
    IllegalMove(String),
    InvalidDepth(String),
}

/// What a command line asks of the caller.
#[derive(Debug)]
pub enum Reply {
    /// Nothing to report.
    Done,
    /// The command named `cmd` failed; the position is as it was.
    Failed { cmd: String, error: ProtocolError },
    /// Count the moves from the current position to this depth, move by move.
    Perft(i32),
    /// Show the current position, given as its position string.
    Show(String),
}

/// The engine's side of the text protocol: the current position, and what each command
/// line does to it.
pub struct Interface {
    pub position: Position,
}

/// Whether the token `tok` is the word `w`.
fn is_word(tok: &Vec<char>, w: &str) -> (r: bool)
    ensures
        r == (tok@ == w@),
{
    let cs = chars_of(w);
    if tok.len() != cs.len() {
        return false;
    }
    let mut i: usize = 0;
    while i < tok.len()
        invariant
            i <= tok.len(),
            tok.len() == cs.len(),
            cs@ == w@,
            forall|k: int| 0 <= k < i ==> tok@[k] == cs@[k],
        decreases tok.len() - i,
    {
        if tok[i] != cs[i] {
            return false;
        }
        i += 1;
    }
    assert(tok@ =~= cs@);
    true
}

/// The string of the characters `cs`.
fn string_of(cs: &Vec<char>) -> (r: String)
    ensures
        r@ == cs@,
{
    let mut s = String::new();
    push_chars(&mut s, cs);
    s
}

fn failed(cmd: &str, error: ProtocolError) -> (r: Reply)
    ensures
        r is Failed,
        r->cmd@ == cmd@,
        r->error == error,
{
    Reply::Failed { cmd: cmd.to_owned(), error }
}

/// The position after playing the moves `ws[i..]` from `p` one after another, or `None`
/// where one of them cannot be read or is not a legal move.
pub open spec fn play(p: Position, ws: Seq<Seq<char>>, i: int) -> Option<Position>
    decreases ws.len() - i,
{
    if i >= ws.len() {
        Some(p)
    } else {
        match move_spec(ws[i]) {
            Err(_) => None,
            Ok(w) => if w < 0x10000 && p.legal_word(w as u16) {
                play(after(p, w), ws, i + 1)
            } else {
                None
            },
        }
    }
}

/// Applies the moves `toks[start..]` one after another to `pos`.
fn apply_moves(pos: Position, toks: &Vec<Vec<char>>, start: usize) -> (r: Result<
    Position,
    ProtocolError,
>)
    requires
        pos.wf(),
        pos.stock_wf(),
    ensures
        r is Ok ==> r->Ok_0.wf() && r->Ok_0.stock_wf(),
        r is Ok <==> play(pos, Seq::new(toks.len() as nat, |k: int| toks[k]@), start as int)
            is Some,
        r is Ok ==> play(pos, Seq::new(toks.len() as nat, |k: int| toks[k]@), start as int)
            == Some(r->Ok_0),
{
    let ghost ws = Seq::new(toks.len() as nat, |k: int| toks[k]@);
    let mut p = pos;
    let mut i = start;
    while i < toks.len()
        invariant
            p.wf(),
            p.stock_wf(),
            ws == Seq::new(toks.len() as nat, |k: int| toks[k]@),
            play(pos, ws, start as int) == play(p, ws, i as int),
        decreases toks.len() - i,
    {
        assert(ws[i as int] == toks[i as int]@);
        match Move::parse_chars(&toks[i]) {
            Ok(m) => {
                proof {
                    m.lemma_word();
                }
                if !p.is_legal(m) {
                    return Err(ProtocolError::IllegalMove(string_of(&toks[i])));
                }
                let next = p.make_move(m);
                proof {
                    crate::make_move::lemma_after(p, m, next);
                }
                p = next;
            },
            Err(e) => return Err(ProtocolError::Move(e)),
        }
        i += 1;
    }
    Ok(p)
}

/// The length of a leading `-` or `+`.
pub open spec fn sign_width(tok: Seq<char>) -> int {
    if tok.len() > 0 && (tok[0] == '-' || tok[0] == '+') {
        1
    } else {
        0
    }
}

/// The search depth that a token names: decimal digits after an optional sign, at most
/// 99999 in size.
pub open spec fn depth_spec(tok: Seq<char>) -> Option<int> {
    let signed = sign_width(tok) == 1;
    let d = tok.skip(sign_width(tok));
    if 0 < d.len() && (forall|i: int| 0 <= i < d.len() ==> is_digit(#[trigger] d[i]))
        && decimal_value(d, d.len() as int) <= 99_999 {
        let v = decimal_value(d, d.len() as int) as int;
        Some(
            if signed && tok[0] == '-' {
                -v
            } else {
                v
            },
        )
    } else {
        None
    }
}

/// Reads a search depth: decimal digits, after an optional sign.
fn parse_depth(tok: &Vec<char>) -> (r: Option<i32>)
    ensures
        r is Some <==> depth_spec(tok@) is Some,
        r is Some ==> r->0 == depth_spec(tok@)->0,
{
    let start: usize = if tok.len() > 0 && (tok[0] == '-' || tok[0] == '+') {
        1
    } else {
        0
    };
    proof {
        crate::tps::lemma_skip_digits(tok@, start as int);
        assert(start as int == sign_width(tok@));
        assert(tok@.skip(start as int).len() == tok.len() - start);
    }
    match parse_number(tok, start, 99_999) {
        Some(v) => Some(
            if start == 1 && tok[0] == '-' {
                -(v as i32)
            } else {
                v as i32
            },
        ),
        None => None,
    }
}

impl Default for Interface {
    fn default() -> (r: Interface)
        ensures
            r.position.is_start(),
            r.position == start_position(),
            r.wf(),
    {
        Interface { position: Position::default() }
    }
}

impl Interface {
    /// The position keeps the invariant and the per-player stock rule.
    pub open spec fn wf(self) -> bool {
        self.position.wf() && self.position.stock_wf()
    }

    /// The reply to playing the moves `ws[i..]` from `p`, and the position after it: the
    /// position they lead to, or a failure where one cannot be read or played.
    pub open spec fn moves_reply(p: Position, ws: Seq<Seq<char>>, i: int, r: Reply, after: Position) -> bool {
        &&& play(p, ws, i) is Some ==> r is Done && after == play(p, ws, i)->0
        &&& play(p, ws, i) is None ==> r is Failed
    }

    /// The reply to `position tps <board> <stm> <fullmove> [moves ...]` (the words `ws`),
    /// and the position after it: the position that the string gives, with the moves played
    /// from it, or the error reading it gives.
    pub open spec fn tps_reply(ws: Seq<Seq<char>>, r: Reply, after: Position) -> bool {
        let t = tps_spec(ws[2], ws[3], ws[4]);
        &&& t is Err ==> r is Failed && r->error == ProtocolError::Tps(t->Err_0)
        &&& t is Ok && ws.len() == 5 ==> r is Done && after.read_from(t)
        &&& t is Ok && ws.len() > 5 && ws[5] != "moves"@ ==> r is Failed
            && r->error is UnrecognisedToken
        &&& t is Ok && ws.len() > 5 && ws[5] == "moves"@ ==> Interface::moves_reply(
            tps_position(t),
            ws,
            6,
            r,
            after,
        )
    }

    /// The reply to a `position` command (the words `ws`) and the position after it.
    pub open spec fn position_reply(ws: Seq<Seq<char>>, r: Reply, after: Position) -> bool {
        if ws.len() < 2 {
            r is Failed && r->error is EmptyPositionArgument
        } else if ws[1] == "startpos"@ {
            if ws.len() == 2 {
                r is Done && after == start_position()
            } else if ws[2] != "moves"@ {
                r is Failed && r->error is UnrecognisedToken
            } else {
                Interface::moves_reply(start_position(), ws, 3, r, after)
            }
        } else if ws[1] == "tps"@ {
            if ws.len() < 5 {
                r is Failed && r->error is WrongTpsPartCount
            } else {
                Interface::tps_reply(ws, r, after)
            }
        } else {
            r is Failed && r->error is UnrecognisedToken
        }
    }

    /// Carries out one command line. A command that fails leaves the position unchanged.
    pub fn parse_line(&mut self, line: &str) -> (r: Reply)
        requires
            old(self).wf(),
        ensures
            final(self).wf(),
            r is Failed ==> final(self).position == old(self).position,
            r is Perft ==> final(self).position == old(self).position,
            r is Show ==> final(self).position == old(self).position && r->Show_0@ == old(
                self,
            ).position.tps(),
            words(line@).len() == 0 ==> r is Done && final(self).position == old(self).position,
            words(line@).len() > 0 && words(line@)[0] == "d"@ ==> r is Show,
            words(line@) == seq!["perft"@] ==> r == Reply::Perft(1),
            words(line@).len() >= 2 && words(line@)[0] == "perft"@ ==> (if depth_spec(
                words(line@)[1],
            ) is Some {
                r is Perft && r->Perft_0 == depth_spec(words(line@)[1])->0
            } else {
                r is Failed && r->error is InvalidDepth
            }),
            words(line@).len() > 0 && words(line@)[0] != "position"@ && words(line@)[0]
                != "moves"@ && words(line@)[0] != "perft"@ && words(line@)[0] != "d"@ ==> r is Failed
                && r->cmd@ == words(line@)[0] && r->error is UnknownCommand,
            words(line@).len() > 0 && words(line@)[0] == "position"@
                ==> Interface::position_reply(words(line@), r, final(self).position),
            words(line@).len() > 0 && words(line@)[0] == "moves"@ ==> Interface::moves_reply(
                old(self).position,
                words(line@),
                1,
                r,
                final(self).position,
            ),
    {
        let cs = chars_of(line);
        let toks = split_whitespace(&cs);
        if toks.len() == 0 {
            return Reply::Done;
        }
        proof {
            assert(Seq::new(toks.len() as nat, |k: int| toks[k]@) =~= words(line@));
            reveal_strlit("position");
            reveal_strlit("moves");
            reveal_strlit("perft");
            reveal_strlit("d");
            assert("d"@.len() == 1 && "perft"@.len() == 5 && "moves"@.len() == 5
                && "position"@.len() == 8);
            assert("perft"@[0] == 'p' && "moves"@[0] == 'm');
            if toks.len() == 1 {
                assert(words(line@) =~= seq![toks[0]@]);
            }
        }
        if is_word(&toks[0], "position") {
            self.parse_position(&toks)
        } else if is_word(&toks[0], "moves") {
            match apply_moves(self.position, &toks, 1) {
                Ok(p) => {
                    self.position = p;
                    Reply::Done
                },
                Err(e) => failed("moves", e),
            }
        } else if is_word(&toks[0], "perft") {
            if toks.len() < 2 {
                return Reply::Perft(1);
            }
            match parse_depth(&toks[1]) {
                Some(d) => Reply::Perft(d),
                None => failed("perft", ProtocolError::InvalidDepth(string_of(&toks[1]))),
            }
        } else if is_word(&toks[0], "d") {
            Reply::Show(self.position.to_string())
        } else {
            Reply::Failed { cmd: string_of(&toks[0]), error: ProtocolError::UnknownCommand }
        }
    }

    /// `position startpos [moves ...]` or `position tps <board> <stm> <fullmove> [moves ...]`.
    fn parse_position(&mut self, toks: &Vec<Vec<char>>) -> (r: Reply)
        requires
            old(self).wf(),
            toks.len() >= 1,
        ensures
            final(self).wf(),
            r is Failed ==> final(self).position == old(self).position,
            r is Done || r is Failed,
            Interface::position_reply(
                Seq::new(toks.len() as nat, |k: int| toks[k]@),
                r,
                final(self).position,
            ),
    {
        let ghost ws = Seq::new(toks.len() as nat, |k: int| toks[k]@);
        proof {
            reveal_strlit("startpos");
            reveal_strlit("tps");
            reveal_strlit("moves");
            assert("startpos"@.len() == 8 && "tps"@.len() == 3 && "moves"@.len() == 5);
        }
        if toks.len() < 2 {
            return failed("position", ProtocolError::EmptyPositionArgument);
        }
        let (pos, next) = if is_word(&toks[1], "startpos") {
            (Position::default(), 2usize)
        } else if is_word(&toks[1], "tps") {
            if toks.len() < 5 {
                return failed("position", ProtocolError::WrongTpsPartCount);
            }
            match Position::parse_chars(&toks[2], &toks[3], &toks[4]) {
                Ok(p) => {
                    proof {
                        let t = tps_spec(ws[2], ws[3], ws[4]);
                        assert(ws[2] == toks[2]@ && ws[3] == toks[3]@ && ws[4] == toks[4]@);
                        crate::tps::lemma_read_unique(p, tps_position(t), t);
                    }
                    (p, 5usize)
                },
                Err(e) => {
                    assert(ws[2] == toks[2]@ && ws[3] == toks[3]@ && ws[4] == toks[4]@);
                    return failed("position", ProtocolError::Tps(e));
                },
            }
        } else {
            return failed("position", ProtocolError::UnrecognisedToken(string_of(&toks[1])));
        };
        if next == toks.len() {
            self.position = pos;
            return Reply::Done;
        }
        if !is_word(&toks[next], "moves") {
            return failed("position", ProtocolError::UnrecognisedToken(string_of(&toks[next])));
        }
        match apply_moves(pos, toks, next + 1) {
            Ok(p) => {
                self.position = p;
                Reply::Done
            },
            Err(e) => failed("moves", e),
        }
    }
}

} // verus!
