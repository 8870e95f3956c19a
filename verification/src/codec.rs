//! The JSON wire codec.
//!
//! Every message that crosses a socket is JSON in a fixed shape: votes
//! from clients to the funnel and onward to the engine, and state changes
//! or vote calls from the engine to the funnel and onward to the clients.
//! The encoders below produce exactly the canonical compact form given by
//! the spec functions; the parsers accept exactly a canonical encoding,
//! optionally followed by trailing whitespace (a line feed, say), and
//! their contracts say so in both directions.

use vstd::prelude::*;
use vstd::string::*;

use crate::model::{
    idx, Board, DownstreamMessage, Piece, PieceColour, PieceKind, Action, StateChange, Vote,
    VoteCall,
};

verus! {

/// The canonical decimal digit character for `d` (meaningful for `d < 10`).
pub open spec fn digit_char(d: nat) -> char {
    if d == 0 {
        '0'
    } else if d == 1 {
        '1'
    } else if d == 2 {
        '2'
    } else if d == 3 {
        '3'
    } else if d == 4 {
        '4'
    } else if d == 5 {
        '5'
    } else if d == 6 {
        '6'
    } else if d == 7 {
        '7'
    } else if d == 8 {
        '8'
    } else {
        '9'
    }
}

/// The character is a decimal digit.
pub open spec fn is_digit(c: char) -> bool {
    ||| c == '0'
    ||| c == '1'
    ||| c == '2'
    ||| c == '3'
    ||| c == '4'
    ||| c == '5'
    ||| c == '6'
    ||| c == '7'
    ||| c == '8'
    ||| c == '9'
}

/// The numeric value of a digit character (meaningful for digits).
pub open spec fn digit_val(c: char) -> nat {
    if c == '0' {
        0
    } else if c == '1' {
        1
    } else if c == '2' {
        2
    } else if c == '3' {
        3
    } else if c == '4' {
        4
    } else if c == '5' {
        5
    } else if c == '6' {
        6
    } else if c == '7' {
        7
    } else if c == '8' {
        8
    } else {
        9
    }
}

/// The canonical decimal rendering of `n`: no leading zeros, and `"0"` for
/// zero.
pub open spec fn dec_digits(n: nat) -> Seq<char>
    decreases n,
{
    if n < 10 {
        seq![digit_char(n)]
    } else {
        dec_digits(n / 10).push(digit_char(n % 10))
    }
}

/// The value of a digit string read in base ten.
pub open spec fn digits_val(ds: Seq<char>) -> nat
    decreases ds.len(),
{
    if ds.len() == 0 {
        0
    } else {
        10 * digits_val(ds.drop_last()) + digit_val(ds.last())
    }
}

/// Basic shape of a canonical decimal rendering: nonempty, all digits, and
/// a leading zero only for the single digit `"0"`.
proof fn lemma_dec_digits_props(n: nat)
    ensures
        dec_digits(n).len() >= 1,
        forall|k: int| 0 <= k < dec_digits(n).len() ==> is_digit(#[trigger] dec_digits(n)[k]),
        dec_digits(n)[0] == '0' ==> n == 0,
        n < 10 <==> dec_digits(n).len() == 1,
        digits_val(dec_digits(n)) == n,
    decreases n,
{
    if n < 10 {
        assert(digits_val(dec_digits(n)) == 10 * digits_val(dec_digits(n).drop_last()) + digit_val(
            digit_char(n),
        ));
        assert(dec_digits(n).drop_last() =~= Seq::<char>::empty());
    } else {
        lemma_dec_digits_props(n / 10);
        let pre = dec_digits(n / 10);
        let whole = pre.push(digit_char(n % 10));
        assert(whole.drop_last() =~= pre);
        assert(whole[0] == pre[0]);
        assert(whole.last() == digit_char(n % 10));
        assert(digits_val(whole) == 10 * (n / 10) + n % 10);
    }
}

/// A nonempty all-digit string without a leading zero is the canonical
/// rendering of its value.
proof fn lemma_digits_canonical(ds: Seq<char>)
    requires
        ds.len() >= 1,
        forall|k: int| 0 <= k < ds.len() ==> is_digit(#[trigger] ds[k]),
        ds[0] == '0' ==> ds.len() == 1,
    ensures
        dec_digits(digits_val(ds)) == ds,
        ds.len() > 1 ==> digits_val(ds) >= 10,
    decreases ds.len(),
{
    if ds.len() == 1 {
        assert(digits_val(ds) == 10 * digits_val(ds.drop_last()) + digit_val(ds.last()));
        assert(ds.drop_last() =~= Seq::<char>::empty());
        assert(digits_val(ds) == digit_val(ds[0]));
        assert(dec_digits(digit_val(ds[0])) =~= ds);
    } else {
        let pre = ds.drop_last();
        assert(pre[0] == ds[0]);
        assert(forall|k: int| 0 <= k < pre.len() ==> is_digit(#[trigger] pre[k]));
        lemma_digits_canonical(pre);
        let v = digits_val(ds);
        let pv = digits_val(pre);
        assert(v == 10 * pv + digit_val(ds.last()));
        if pre.len() == 1 {
            assert(pre[0] != '0');
            assert(pv == 10 * digits_val(pre.drop_last()) + digit_val(pre.last()));
            assert(pre.drop_last() =~= Seq::<char>::empty());
            assert(digits_val(Seq::<char>::empty()) == 0);
            assert(pre.last() == pre[0]);
            assert(pv == digit_val(pre[0]));
            assert(pv >= 1);
        } else {
            assert(pv >= 10);
        }
        assert(v >= 10);
        assert(v / 10 == pv && v % 10 == digit_val(ds.last())) by {
            assert(digit_val(ds.last()) < 10);
        }
        assert(dec_digits(v) == dec_digits(pv).push(digit_char(digit_val(ds.last()))));
        assert(digit_char(digit_val(ds.last())) == ds.last());
        assert(dec_digits(v) =~= ds);
    }
}

// ---------------------------------------------------------------------
// Spec encoders
// ---------------------------------------------------------------------

/// JSON for a colour.
pub open spec fn json_colour(c: PieceColour) -> Seq<char> {
    match c {
        PieceColour::White => "\"White\""@,
        PieceColour::Black => "\"Black\""@,
    }
}

/// JSON for a piece kind.
pub open spec fn json_kind(k: PieceKind) -> Seq<char> {
    match k {
        PieceKind::King => "\"King\""@,
        PieceKind::Queen => "\"Queen\""@,
        PieceKind::Bishop => "\"Bishop\""@,
        PieceKind::Knight => "\"Knight\""@,
        PieceKind::Rook => "\"Rook\""@,
        PieceKind::Pawn => "\"Pawn\""@,
    }
}

/// JSON for one board cell: `null` or a piece object.
pub open spec fn json_cell(c: Option<Piece>) -> Seq<char> {
    match c {
        None => "null"@,
        Some(p) => "{\"kind\":"@ + json_kind(p.kind) + ",\"colour\":"@ + json_colour(p.colour)
            + "}"@,
    }
}

/// JSON for a sequence of cells, comma-separated.
pub open spec fn json_cells(cells: Seq<Option<Piece>>) -> Seq<char>
    decreases cells.len(),
{
    if cells.len() == 0 {
        Seq::empty()
    } else if cells.len() == 1 {
        json_cell(cells[0])
    } else {
        json_cell(cells[0]) + ","@ + json_cells(cells.drop_first())
    }
}

/// JSON for one board row: the bracketed cell list.
pub open spec fn json_row(row: Seq<Option<Piece>>) -> Seq<char> {
    "["@ + json_cells(row) + "]"@
}

/// Row `y` of a 64-cell board, row-major.
pub open spec fn row_of(b: Seq<Option<Piece>>, y: int) -> Seq<Option<Piece>> {
    b.subrange(8 * y, 8 * y + 8)
}

/// JSON for a row-major cell sequence, eight cells to a row: bracketed
/// rows, comma-separated.
pub open spec fn json_rows_flat(b: Seq<Option<Piece>>) -> Seq<char>
    decreases b.len(),
{
    if b.len() <= 8 {
        json_row(b)
    } else {
        json_row(b.subrange(0, 8)) + ","@ + json_rows_flat(b.skip(8))
    }
}

/// JSON for a whole board: eight bracketed rows inside brackets.
pub open spec fn json_board(b: Seq<Option<Piece>>) -> Seq<char> {
    "["@ + json_rows_flat(b) + "]"@
}

/// JSON for a state change message.
pub open spec fn json_state_change(b: Seq<Option<Piece>>, turn: PieceColour) -> Seq<char> {
    "{\"board\":"@ + json_board(b) + ",\"turn\":"@ + json_colour(turn) + "}"@
}

/// JSON for an action.
pub open spec fn json_action(a: Action) -> Seq<char> {
    "{\"from\":["@ + dec_digits(a.from.0 as nat) + ","@ + dec_digits(a.from.1 as nat) + "],\"to\":["@
        + dec_digits(a.to.0 as nat) + ","@ + dec_digits(a.to.1 as nat) + "]}"@
}

/// JSON for a vote.
pub open spec fn json_vote(v: Vote) -> Seq<char> {
    "{\"action\":"@ + json_action(v.action) + ",\"weight\":"@ + dec_digits(v.weight as nat) + "}"@
}

/// JSON for a vote call.
pub open spec fn json_vote_call(vc: VoteCall) -> Seq<char> {
    "{\"timeout\":"@ + dec_digits(vc.timeout as nat) + "}"@
}

// ---------------------------------------------------------------------
// Exec encoders
// ---------------------------------------------------------------------

fn push_lit(out: &mut String, lit: &str)
    ensures
        final(out)@ == old(out)@ + lit@,
{
    out.append(lit)
}

fn push_digit(out: &mut String, d: u32)
    requires
        d < 10,
    ensures
        final(out)@ == old(out)@ + seq![digit_char(d as nat)],
{
    match d {
        0 => {
            out.append("0");
            proof {
                reveal_strlit("0");
                assert(old(out)@ + "0"@ =~= old(out)@ + seq![digit_char(d as nat)]);
            }
        },
        1 => {
            out.append("1");
            proof {
                reveal_strlit("1");
                assert(old(out)@ + "1"@ =~= old(out)@ + seq![digit_char(d as nat)]);
            }
        },
        2 => {
            out.append("2");
            proof {
                reveal_strlit("2");
                assert(old(out)@ + "2"@ =~= old(out)@ + seq![digit_char(d as nat)]);
            }
        },
        3 => {
            out.append("3");
            proof {
                reveal_strlit("3");
                assert(old(out)@ + "3"@ =~= old(out)@ + seq![digit_char(d as nat)]);
            }
        },
        4 => {
            out.append("4");
            proof {
                reveal_strlit("4");
                assert(old(out)@ + "4"@ =~= old(out)@ + seq![digit_char(d as nat)]);
            }
        },
        5 => {
            out.append("5");
            proof {
                reveal_strlit("5");
                assert(old(out)@ + "5"@ =~= old(out)@ + seq![digit_char(d as nat)]);
            }
        },
        6 => {
            out.append("6");
            proof {
                reveal_strlit("6");
                assert(old(out)@ + "6"@ =~= old(out)@ + seq![digit_char(d as nat)]);
            }
        },
        7 => {
            out.append("7");
            proof {
                reveal_strlit("7");
                assert(old(out)@ + "7"@ =~= old(out)@ + seq![digit_char(d as nat)]);
            }
        },
        8 => {
            out.append("8");
            proof {
                reveal_strlit("8");
                assert(old(out)@ + "8"@ =~= old(out)@ + seq![digit_char(d as nat)]);
            }
        },
        _ => {
            out.append("9");
            proof {
                reveal_strlit("9");
                assert(old(out)@ + "9"@ =~= old(out)@ + seq![digit_char(d as nat)]);
            }
        },
    }
}

/// Append the canonical decimal rendering of `n`.
fn push_u32(out: &mut String, n: u32)
    ensures
        final(out)@ == old(out)@ + dec_digits(n as nat),
    decreases n,
{
    if n < 10 {
        push_digit(out, n);
    } else {
        push_u32(out, n / 10);
        push_digit(out, n % 10);
        proof {
            assert(old(out)@ + dec_digits((n / 10) as nat) + seq![digit_char((n % 10) as nat)]
                =~= old(out)@ + dec_digits(n as nat));
        }
    }
}

fn push_colour(out: &mut String, c: PieceColour)
    ensures
        final(out)@ == old(out)@ + json_colour(c),
{
    match c {
        PieceColour::White => push_lit(out, "\"White\""),
        PieceColour::Black => push_lit(out, "\"Black\""),
    }
}

fn push_kind(out: &mut String, k: PieceKind)
    ensures
        final(out)@ == old(out)@ + json_kind(k),
{
    match k {
        PieceKind::King => push_lit(out, "\"King\""),
        PieceKind::Queen => push_lit(out, "\"Queen\""),
        PieceKind::Bishop => push_lit(out, "\"Bishop\""),
        PieceKind::Knight => push_lit(out, "\"Knight\""),
        PieceKind::Rook => push_lit(out, "\"Rook\""),
        PieceKind::Pawn => push_lit(out, "\"Pawn\""),
    }
}

fn push_cell(out: &mut String, c: Option<Piece>)
    ensures
        final(out)@ == old(out)@ + json_cell(c),
{
    match c {
        None => push_lit(out, "null"),
        Some(p) => {
            push_lit(out, "{\"kind\":");
            push_kind(out, p.kind);
            push_lit(out, ",\"colour\":");
            push_colour(out, p.colour);
            push_lit(out, "}");
            proof {
                assert(final(out)@ =~= old(out)@ + json_cell(c));
            }
        },
    }
}

fn push_row_cells(out: &mut String, b: &Board, y: u8, x: u8)
    requires
        b.wf(),
        y < 8,
        x < 8,
    ensures
        final(out)@ == old(out)@ + json_cells(row_of(b@, y as int).subrange(x as int, 8)),
    decreases 8 - x,
{
    let ghost tail = row_of(b@, y as int).subrange(x as int, 8);
    proof {
        assert(tail[0] == b@[idx(x as int, y as int)]);
    }
    push_cell(out, b.get(x, y));
    if x < 7 {
        push_lit(out, ",");
        push_row_cells(out, b, y, x + 1);
        proof {
            assert(tail.drop_first() =~= row_of(b@, y as int).subrange(x + 1, 8));
            assert(final(out)@ =~= old(out)@ + json_cells(tail));
        }
    } else {
        proof {
            assert(tail.len() == 1);
        }
    }
}

fn push_rows(out: &mut String, b: &Board, y: u8)
    requires
        b.wf(),
        y < 8,
    ensures
        final(out)@ == old(out)@ + json_rows_flat(b@.skip(8 * y as int)),
    decreases 8 - y,
{
    let ghost rest = b@.skip(8 * y as int);
    push_lit(out, "[");
    push_row_cells(out, b, y, 0);
    push_lit(out, "]");
    proof {
        assert(row_of(b@, y as int).subrange(0, 8) =~= row_of(b@, y as int));
    }
    if y < 7 {
        push_lit(out, ",");
        push_rows(out, b, y + 1);
        proof {
            assert(rest.subrange(0, 8) =~= row_of(b@, y as int));
            assert(rest.skip(8) =~= b@.skip(8 * (y + 1)));
            assert(final(out)@ =~= old(out)@ + json_rows_flat(rest));
        }
    } else {
        proof {
            assert(rest.len() == 8);
            assert(rest =~= row_of(b@, 7));
            assert(final(out)@ =~= old(out)@ + json_rows_flat(rest));
        }
    }
}

/// Encode a game state as its canonical JSON text.
pub fn encode_state_change(s: &StateChange) -> (r: String)
    requires
        s.board.wf(),
    ensures
        r@ == json_state_change(s.board@, s.turn),
{
    let mut out = String::new();
    push_lit(&mut out, "{\"board\":");
    push_lit(&mut out, "[");
    push_rows(&mut out, &s.board, 0);
    push_lit(&mut out, "]");
    push_lit(&mut out, ",\"turn\":");
    push_colour(&mut out, s.turn);
    push_lit(&mut out, "}");
    proof {
        assert(s.board@.skip(0) =~= s.board@);
        assert(out@ =~= json_state_change(s.board@, s.turn));
    }
    out
}

/// JSON for a downstream message, by its variant.
pub open spec fn json_downstream(m: DownstreamMessage) -> Seq<char> {
    match m {
        DownstreamMessage::StateChange(s) => json_state_change(s.board@, s.turn),
        DownstreamMessage::VoteCall(vc) => json_vote_call(vc),
    }
}

/// Encode a vote as its canonical JSON text.
pub fn encode_vote(v: &Vote) -> (r: String)
    ensures
        r@ == json_vote(*v),
{
    let mut out = String::new();
    push_lit(&mut out, "{\"action\":{\"from\":[");
    push_u32(&mut out, v.action.from.0 as u32);
    push_lit(&mut out, ",");
    push_u32(&mut out, v.action.from.1 as u32);
    push_lit(&mut out, "],\"to\":[");
    push_u32(&mut out, v.action.to.0 as u32);
    push_lit(&mut out, ",");
    push_u32(&mut out, v.action.to.1 as u32);
    push_lit(&mut out, "]}");
    push_lit(&mut out, ",\"weight\":");
    push_u32(&mut out, v.weight);
    push_lit(&mut out, "}");
    proof {
        reveal_strlit("{\"action\":{\"from\":[");
        reveal_strlit("{\"action\":");
        reveal_strlit("{\"from\":[");
        assert("{\"action\":{\"from\":["@ =~= "{\"action\":"@ + "{\"from\":["@);
        assert(out@ =~= json_vote(*v));
    }
    out
}

/// Encode a vote call as its canonical JSON text.
pub fn encode_vote_call(vc: &VoteCall) -> (r: String)
    ensures
        r@ == json_vote_call(*vc),
{
    let mut out = String::new();
    push_lit(&mut out, "{\"timeout\":");
    push_u32(&mut out, vc.timeout);
    push_lit(&mut out, "}");
    proof {
        assert(out@ =~= json_vote_call(*vc));
    }
    out
}

// ---------------------------------------------------------------------
// Parsers
// ---------------------------------------------------------------------

/// `t` occurs in `s` starting at position `i`.
pub open spec fn starts_with_at(s: Seq<char>, i: int, t: Seq<char>) -> bool {
    0 <= i && i + t.len() <= s.len() && s.subrange(i, i + t.len()) == t
}

/// Everything from position `j` to the end of `s` is whitespace.
pub open spec fn ws_only(s: Seq<char>, j: int) -> bool {
    forall|m: int| j <= m < s.len() ==> is_ws(#[trigger] s[m])
}

/// The character is JSON whitespace.
pub open spec fn is_ws(c: char) -> bool {
    c == ' ' || c == '\t' || c == '\r' || c == '\n'
}

/// A concatenation occurs at `i` exactly when its parts occur back to
/// back.
proof fn lemma_starts_with_concat(s: Seq<char>, i: int, t1: Seq<char>, t2: Seq<char>)
    ensures
        starts_with_at(s, i, t1 + t2) <==> (starts_with_at(s, i, t1) && starts_with_at(
            s,
            i + t1.len(),
            t2,
        )),
{
    if starts_with_at(s, i, t1 + t2) {
        assert(s.subrange(i, i + t1.len()) =~= t1) by {
            assert forall|m: int| 0 <= m < t1.len() implies s.subrange(i, i + t1.len())[m] == t1[m]
            by {
                assert(s.subrange(i, i + (t1 + t2).len())[m] == (t1 + t2)[m]);
            }
        }
        assert(s.subrange(i + t1.len(), i + t1.len() + t2.len()) =~= t2) by {
            assert forall|m: int|
                0 <= m < t2.len() implies s.subrange(i + t1.len(), i + t1.len() + t2.len())[m]
                == t2[m] by {
                assert(s.subrange(i, i + (t1 + t2).len())[t1.len() + m] == (t1 + t2)[t1.len() + m]);
            }
        }
    }
    if starts_with_at(s, i, t1) && starts_with_at(s, i + t1.len(), t2) {
        assert(s.subrange(i, i + (t1 + t2).len()) =~= t1 + t2) by {
            assert forall|m: int|
                0 <= m < (t1 + t2).len() implies s.subrange(i, i + (t1 + t2).len())[m] == (t1
                + t2)[m] by {
                if m < t1.len() {
                    assert(s.subrange(i, i + t1.len())[m] == t1[m]);
                } else {
                    assert(s.subrange(i + t1.len(), i + t1.len() + t2.len())[m - t1.len()]
                        == t2[m - t1.len()]);
                }
            }
        }
    }
}

fn is_digit_exec(c: char) -> (r: bool)
    ensures
        r == is_digit(c),
{
    c == '0' || c == '1' || c == '2' || c == '3' || c == '4' || c == '5' || c == '6' || c == '7'
        || c == '8' || c == '9'
}

fn digit_val_exec(c: char) -> (r: u32)
    requires
        is_digit(c),
    ensures
        r == digit_val(c),
{
    match c {
        '0' => 0,
        '1' => 1,
        '2' => 2,
        '3' => 3,
        '4' => 4,
        '5' => 5,
        '6' => 6,
        '7' => 7,
        '8' => 8,
        _ => 9,
    }
}

/// Match a fixed literal at position `i`, returning the position after it.
fn expect(s: &str, i: usize, lit: &str) -> (r: Option<usize>)
    requires
        i <= s@.len(),
    ensures
        r matches Some(j) ==> j == i + lit@.len() && starts_with_at(s@, i as int, lit@),
        r is None ==> !starts_with_at(s@, i as int, lit@),
{
    let sl = s.unicode_len();
    let ll = lit.unicode_len();
    if sl - i < ll {
        return None;
    }
    let mut k: usize = 0;
    while k < ll
        invariant
            k <= ll,
            ll == lit@.len(),
            sl == s@.len(),
            i + ll <= sl,
            forall|m: int| 0 <= m < k ==> s@[i + m] == lit@[m],
        decreases ll - k,
    {
        if s.get_char(i + k) != lit.get_char(k) {
            proof {
                if starts_with_at(s@, i as int, lit@) {
                    assert(s@.subrange(i as int, i + lit@.len())[k as int] == lit@[k as int]);
                }
            }
            return None;
        }
        k = k + 1;
    }
    proof {
        assert(s@.subrange(i as int, i + lit@.len()) =~= lit@);
    }
    Some(i + ll)
}

fn scan_digits(s: &str, i: usize) -> (j: usize)
    requires
        i <= s@.len(),
    ensures
        i <= j <= s@.len(),
        forall|m: int| i <= m < j ==> is_digit(#[trigger] s@[m]),
        j == s@.len() || !is_digit(s@[j as int]),
    decreases s@.len() - i,
{
    let sl = s.unicode_len();
    if i < sl {
        if is_digit_exec(s.get_char(i)) {
            return scan_digits(s, i + 1);
        }
    }
    i
}

/// A digit string's value only grows as more digits are appended.
proof fn lemma_digits_val_prefix_le(ds: Seq<char>, k: int)
    requires
        0 <= k <= ds.len(),
    ensures
        digits_val(ds.subrange(0, k)) <= digits_val(ds),
    decreases ds.len() - k,
{
    if k == ds.len() {
        assert(ds.subrange(0, k) =~= ds);
    } else {
        lemma_digits_val_prefix_le(ds, k + 1);
        let a = ds.subrange(0, k);
        let b = ds.subrange(0, k + 1);
        assert(b.drop_last() =~= a);
        assert(digits_val(b) == 10 * digits_val(a) + digit_val(b.last()));
    }
}

/// Parse a canonical decimal `u32` at position `i`: a maximal digit run
/// with no leading zero, whose value fits.
fn parse_u32(s: &str, i: usize) -> (r: Option<(u32, usize)>)
    requires
        i <= s@.len(),
    ensures
        r matches Some(p) ==> i < p.1 <= s@.len() && p.1 == i + dec_digits(p.0 as nat).len()
            && s@.subrange(i as int, p.1 as int) == dec_digits(p.0 as nat) && (p.1 == s@.len()
            || !is_digit(s@[p.1 as int])),
        forall|n: u32|
            (starts_with_at(s@, i as int, dec_digits(n as nat)) && (i + dec_digits(
                n as nat,
            ).len() == s@.len() || !is_digit(s@[i + dec_digits(n as nat).len()]))) ==> (r matches Some(p)
            && p.0 == n && p.1 == i + dec_digits(n as nat).len()),
{
    let sl = s.unicode_len();
    let jend = scan_digits(s, i);
    proof {
        assert forall|n: u32|
            starts_with_at(s@, i as int, dec_digits(n as nat)) && (i + dec_digits(n as nat).len()
                == s@.len() || !is_digit(s@[i + dec_digits(n as nat).len()]))
            implies jend == i + dec_digits(n as nat).len() by {
            lemma_dec_digits_props(n as nat);
            let ll = dec_digits(n as nat).len() as int;
            assert forall|m: int| i <= m < i + ll implies is_digit(#[trigger] s@[m]) by {
                assert(s@.subrange(i as int, i + ll)[m - i] == dec_digits(n as nat)[m - i]);
            }
            if jend < i + ll {
                assert(is_digit(s@[jend as int]));
            }
            if jend > i + ll {
                assert(is_digit(s@[i + ll]));
            }
        }
    }
    if jend == i {
        proof {
            assert forall|n: u32|
                !(starts_with_at(s@, i as int, dec_digits(n as nat)) && (i + dec_digits(
                    n as nat,
                ).len() == s@.len() || !is_digit(s@[i + dec_digits(n as nat).len()]))) by {
                lemma_dec_digits_props(n as nat);
            }
        }
        return None;
    }
    if s.get_char(i) == '0' {
        if jend > i + 1 {
            // a leading zero: canonical only as the single digit "0"
            proof {
                assert forall|n: u32|
                    !(starts_with_at(s@, i as int, dec_digits(n as nat)) && (i + dec_digits(
                        n as nat,
                    ).len() == s@.len() || !is_digit(s@[i + dec_digits(n as nat).len()]))) by {
                    lemma_dec_digits_props(n as nat);
                    if starts_with_at(s@, i as int, dec_digits(n as nat)) {
                        assert(s@.subrange(i as int, i + dec_digits(n as nat).len())[0]
                            == dec_digits(n as nat)[0]);
                        assert(dec_digits(n as nat)[0] == '0');
                        assert(n == 0);
                        assert(is_digit(s@[i + 1]));
                    }
                }
            }
            return None;
        }
        proof {
            assert(s@.subrange(i as int, i + 1) =~= dec_digits(0nat));
            assert forall|n: u32|
                (starts_with_at(s@, i as int, dec_digits(n as nat)) && (i + dec_digits(
                    n as nat,
                ).len() == s@.len() || !is_digit(s@[i + dec_digits(n as nat).len()])))
                implies n == 0 by {
                lemma_dec_digits_props(n as nat);
                assert(s@.subrange(i as int, i + dec_digits(n as nat).len())[0] == dec_digits(
                    n as nat,
                )[0]);
            }
        }
        return Some((0, i + 1));
    }
    let mut j: usize = i;
    let mut acc: u64 = 0;
    while j < jend
        invariant
            i <= j <= jend <= s@.len(),
            sl == s@.len(),
            forall|m: int| i <= m < jend ==> is_digit(#[trigger] s@[m]),
            jend == s@.len() || !is_digit(s@[jend as int]),
            s@[i as int] != '0',
            i < jend,
            acc == digits_val(s@.subrange(i as int, j as int)),
            acc <= u32::MAX,
            forall|n: u32|
                (starts_with_at(s@, i as int, dec_digits(n as nat)) && (i + dec_digits(
                    n as nat,
                ).len() == s@.len() || !is_digit(s@[i + dec_digits(n as nat).len()])))
                    ==> jend == i + dec_digits(n as nat).len(),
        decreases jend - j,
    {
        let c = s.get_char(j);
        let d = digit_val_exec(c);
        let next: u64 = acc * 10 + (d as u64);
        proof {
            let a = s@.subrange(i as int, j as int);
            let b = s@.subrange(i as int, j + 1);
            assert(b.drop_last() =~= a);
            assert(digits_val(b) == 10 * digits_val(a) + digit_val(c));
        }
        if next > 0xffff_ffff {
            // the digit run's value exceeds u32
            proof {
                let run = s@.subrange(i as int, jend as int);
                assert forall|n: u32|
                    !(starts_with_at(s@, i as int, dec_digits(n as nat)) && (i + dec_digits(
                        n as nat,
                    ).len() == s@.len() || !is_digit(s@[i + dec_digits(n as nat).len()]))) by {
                    if starts_with_at(s@, i as int, dec_digits(n as nat)) && (i + dec_digits(
                        n as nat,
                    ).len() == s@.len() || !is_digit(s@[i + dec_digits(n as nat).len()])) {
                        lemma_dec_digits_props(n as nat);
                        assert(jend == i + dec_digits(n as nat).len());
                        assert(run =~= dec_digits(n as nat)) by {
                            assert forall|m: int| 0 <= m < run.len() implies run[m] == dec_digits(
                                n as nat,
                            )[m] by {
                                assert(s@.subrange(i as int, i + dec_digits(n as nat).len())[m]
                                    == dec_digits(n as nat)[m]);
                            }
                        }
                        assert(digits_val(run) == n);
                        lemma_digits_val_prefix_le(run, j + 1 - i);
                        assert(run.subrange(0, j + 1 - i) =~= s@.subrange(i as int, j + 1));
                        assert(digits_val(s@.subrange(i as int, j + 1)) <= n);
                    }
                }
            }
            return None;
        }
        acc = next;
        j = j + 1;
    }
    proof {
        let run = s@.subrange(i as int, jend as int);
        assert(run.len() >= 1);
        assert(run[0] == s@[i as int]);
        assert(forall|k: int| 0 <= k < run.len() ==> is_digit(#[trigger] run[k]));
        lemma_digits_canonical(run);
        assert(dec_digits(acc as nat) == run);
        assert forall|n: u32|
            (starts_with_at(s@, i as int, dec_digits(n as nat)) && (i + dec_digits(n as nat).len()
                == s@.len() || !is_digit(s@[i + dec_digits(n as nat).len()])))
            implies acc == n && jend == i + dec_digits(n as nat).len() by {
            lemma_dec_digits_props(n as nat);
            assert(jend == i + dec_digits(n as nat).len());
            assert(run =~= dec_digits(n as nat)) by {
                assert forall|m: int| 0 <= m < run.len() implies run[m] == dec_digits(n as nat)[m]
                by {
                    assert(s@.subrange(i as int, i + dec_digits(n as nat).len())[m] == dec_digits(
                        n as nat,
                    )[m]);
                }
            }
            assert(digits_val(run) == n);
        }
    }
    Some((acc as u32, jend))
}

/// Two texts that occur at the same position agree on every index they
/// share: used to tell apart alternatives that differ at a known index.
proof fn lemma_lits_common_index(s: Seq<char>, i: int, t1: Seq<char>, t2: Seq<char>, m: int)
    requires
        starts_with_at(s, i, t1),
        starts_with_at(s, i, t2),
        0 <= m < t1.len(),
        m < t2.len(),
    ensures
        t1[m] == t2[m],
{
    assert(s.subrange(i, i + t1.len())[m] == t1[m]);
    assert(s.subrange(i, i + t2.len())[m] == t2[m]);
}

/// At most one kind keyword occurs at a given position.
proof fn lemma_kind_lit_unique(s: Seq<char>, i: int, k1: PieceKind, k2: PieceKind)
    requires
        starts_with_at(s, i, json_kind(k1)),
        starts_with_at(s, i, json_kind(k2)),
    ensures
        k1 == k2,
{
    reveal_strlit("\"King\"");
    reveal_strlit("\"Queen\"");
    reveal_strlit("\"Bishop\"");
    reveal_strlit("\"Knight\"");
    reveal_strlit("\"Rook\"");
    reveal_strlit("\"Pawn\"");
    if k1 != k2 {
        let t1 = json_kind(k1);
        let t2 = json_kind(k2);
        assert(s.subrange(i, i + t1.len())[1] == t1[1]);
        assert(s.subrange(i, i + t2.len())[1] == t2[1]);
        assert(s.subrange(i, i + t1.len())[2] == t1[2]);
        assert(s.subrange(i, i + t2.len())[2] == t2[2]);
        assert(t1[1] == s[i + 1] && t2[1] == s[i + 1]);
        assert(t1[2] == s[i + 2] && t2[2] == s[i + 2]);
        assert(false);
    }
}

/// At most one colour keyword occurs at a given position.
proof fn lemma_colour_lit_unique(s: Seq<char>, i: int, c1: PieceColour, c2: PieceColour)
    requires
        starts_with_at(s, i, json_colour(c1)),
        starts_with_at(s, i, json_colour(c2)),
    ensures
        c1 == c2,
{
    reveal_strlit("\"White\"");
    reveal_strlit("\"Black\"");
    if c1 != c2 {
        let t1 = json_colour(c1);
        let t2 = json_colour(c2);
        assert(s.subrange(i, i + t1.len())[1] == t1[1]);
        assert(s.subrange(i, i + t2.len())[1] == t2[1]);
        assert(t1[1] == s[i + 1] && t2[1] == s[i + 1]);
        assert(false);
    }
}

fn parse_colour(s: &str, i: usize) -> (r: Option<(PieceColour, usize)>)
    requires
        i <= s@.len(),
    ensures
        r matches Some(p) ==> p.1 == i + json_colour(p.0).len() && starts_with_at(
            s@,
            i as int,
            json_colour(p.0),
        ),
        forall|c: PieceColour|
            starts_with_at(s@, i as int, json_colour(c)) ==> (r matches Some(p) && p.0 == c && p.1
                == i + json_colour(c).len()),
{
    if let Some(j) = expect(s, i, "\"White\"") {
        proof {
            assert forall|c: PieceColour|
                starts_with_at(s@, i as int, json_colour(c)) implies c == PieceColour::White by {
                lemma_colour_lit_unique(s@, i as int, c, PieceColour::White);
            }
        }
        return Some((PieceColour::White, j));
    }
    if let Some(j) = expect(s, i, "\"Black\"") {
        proof {
            assert forall|c: PieceColour|
                starts_with_at(s@, i as int, json_colour(c)) implies c == PieceColour::Black by {
                lemma_colour_lit_unique(s@, i as int, c, PieceColour::Black);
            }
        }
        return Some((PieceColour::Black, j));
    }
    proof {
        assert forall|c: PieceColour| !starts_with_at(s@, i as int, json_colour(c)) by {}
    }
    None
}

fn parse_kind(s: &str, i: usize) -> (r: Option<(PieceKind, usize)>)
    requires
        i <= s@.len(),
    ensures
        r matches Some(p) ==> p.1 == i + json_kind(p.0).len() && starts_with_at(
            s@,
            i as int,
            json_kind(p.0),
        ),
        forall|k: PieceKind|
            starts_with_at(s@, i as int, json_kind(k)) ==> (r matches Some(p) && p.0 == k && p.1
                == i + json_kind(k).len()),
{
    if let Some(j) = expect(s, i, "\"King\"") {
        proof {
            assert forall|k: PieceKind|
                starts_with_at(s@, i as int, json_kind(k)) implies k == PieceKind::King by {
                lemma_kind_lit_unique(s@, i as int, k, PieceKind::King);
            }
        }
        return Some((PieceKind::King, j));
    }
    if let Some(j) = expect(s, i, "\"Queen\"") {
        proof {
            assert forall|k: PieceKind|
                starts_with_at(s@, i as int, json_kind(k)) implies k == PieceKind::Queen by {
                lemma_kind_lit_unique(s@, i as int, k, PieceKind::Queen);
            }
        }
        return Some((PieceKind::Queen, j));
    }
    if let Some(j) = expect(s, i, "\"Bishop\"") {
        proof {
            assert forall|k: PieceKind|
                starts_with_at(s@, i as int, json_kind(k)) implies k == PieceKind::Bishop by {
                lemma_kind_lit_unique(s@, i as int, k, PieceKind::Bishop);
            }
        }
        return Some((PieceKind::Bishop, j));
    }
    if let Some(j) = expect(s, i, "\"Knight\"") {
        proof {
            assert forall|k: PieceKind|
                starts_with_at(s@, i as int, json_kind(k)) implies k == PieceKind::Knight by {
                lemma_kind_lit_unique(s@, i as int, k, PieceKind::Knight);
            }
        }
        return Some((PieceKind::Knight, j));
    }
    if let Some(j) = expect(s, i, "\"Rook\"") {
        proof {
            assert forall|k: PieceKind|
                starts_with_at(s@, i as int, json_kind(k)) implies k == PieceKind::Rook by {
                lemma_kind_lit_unique(s@, i as int, k, PieceKind::Rook);
            }
        }
        return Some((PieceKind::Rook, j));
    }
    if let Some(j) = expect(s, i, "\"Pawn\"") {
        proof {
            assert forall|k: PieceKind|
                starts_with_at(s@, i as int, json_kind(k)) implies k == PieceKind::Pawn by {
                lemma_kind_lit_unique(s@, i as int, k, PieceKind::Pawn);
            }
        }
        return Some((PieceKind::Pawn, j));
    }
    None
}

/// A `null` cell and a piece object cannot both occur at one position:
/// one opens with `n`, the other with `{`.
proof fn lemma_cell_shapes_differ(s: Seq<char>, i: int)
    requires
        starts_with_at(s, i, json_cell(None)),
    ensures
        !starts_with_at(s, i, "{\"kind\":"@),
{
    reveal_strlit("null");
    reveal_strlit("{\"kind\":");
    if starts_with_at(s, i, "{\"kind\":"@) {
        lemma_lits_common_index(s, i, "null"@, "{\"kind\":"@, 0);
    }
}

/// Decompose or compose a piece-cell encoding at position `i` into its
/// five parts.
proof fn lemma_cell_piece_parts(s: Seq<char>, i: int, p: Piece)
    ensures
        starts_with_at(s, i, json_cell(Some(p))) <==> (starts_with_at(s, i, "{\"kind\":"@)
            && starts_with_at(s, i + 8, json_kind(p.kind)) && starts_with_at(
            s,
            i + 8 + json_kind(p.kind).len(),
            ",\"colour\":"@,
        ) && starts_with_at(
            s,
            i + 18 + json_kind(p.kind).len(),
            json_colour(p.colour),
        ) && starts_with_at(
            s,
            i + 18 + json_kind(p.kind).len() + json_colour(p.colour).len(),
            "}"@,
        )),
        json_cell(Some(p)).len() == 19 + json_kind(p.kind).len() + json_colour(p.colour).len(),
        "{\"kind\":"@.len() == 8,
        ",\"colour\":"@.len() == 10,
        "}"@.len() == 1,
        "null"@.len() == 4,
{
    reveal_strlit("null");
    reveal_strlit("{\"kind\":");
    reveal_strlit(",\"colour\":");
    reveal_strlit("}");
    let a = "{\"kind\":"@;
    let b = json_kind(p.kind);
    let c = ",\"colour\":"@;
    let d = json_colour(p.colour);
    let e = "}"@;
    lemma_starts_with_concat(s, i, a + b + c + d, e);
    lemma_starts_with_concat(s, i, a + b + c, d);
    lemma_starts_with_concat(s, i, a + b, c);
    lemma_starts_with_concat(s, i, a, b);
}

fn parse_cell(s: &str, i: usize) -> (r: Option<(Option<Piece>, usize)>)
    requires
        i <= s@.len(),
    ensures
        r matches Some(p) ==> p.1 == i + json_cell(p.0).len() && starts_with_at(
            s@,
            i as int,
            json_cell(p.0),
        ),
        forall|c: Option<Piece>|
            starts_with_at(s@, i as int, json_cell(c)) ==> (r matches Some(p) && p.0 == c && p.1
                == i + json_cell(c).len()),
{
    if let Some(j) = expect(s, i, "null") {
        proof {
            reveal_strlit("null");
            assert forall|c: Option<Piece>|
                starts_with_at(s@, i as int, json_cell(c)) implies c is None by {
                if let Some(p) = c {
                    lemma_cell_piece_parts(s@, i as int, p);
                    lemma_cell_shapes_differ(s@, i as int);
                }
            }
        }
        return Some((None, j));
    }
    let j1 = match expect(s, i, "{\"kind\":") {
        Some(j1) => j1,
        None => {
            proof {
                assert forall|c: Option<Piece>|
                    !starts_with_at(s@, i as int, json_cell(c)) by {
                    if starts_with_at(s@, i as int, json_cell(c)) {
                        if let Some(p) = c {
                            lemma_cell_piece_parts(s@, i as int, p);
                        }
                        assert(false);
                    }
                }
            }
            return None;
        },
    };
    let (kind, j2) = match parse_kind(s, j1) {
        Some(p) => p,
        None => {
            proof {
                assert forall|c: Option<Piece>|
                    !starts_with_at(s@, i as int, json_cell(c)) by {
                    if starts_with_at(s@, i as int, json_cell(c)) {
                        if let Some(p) = c {
                            lemma_cell_piece_parts(s@, i as int, p);
                        }
                        assert(false);
                    }
                }
            }
            return None;
        },
    };
    let j3 = match expect(s, j2, ",\"colour\":") {
        Some(j3) => j3,
        None => {
            proof {
                assert forall|c: Option<Piece>|
                    !starts_with_at(s@, i as int, json_cell(c)) by {
                    if starts_with_at(s@, i as int, json_cell(c)) {
                        if let Some(p) = c {
                            lemma_cell_piece_parts(s@, i as int, p);
                            lemma_kind_lit_unique(s@, j1 as int, p.kind, kind);
                        }
                        assert(false);
                    }
                }
            }
            return None;
        },
    };
    let (colour, j4) = match parse_colour(s, j3) {
        Some(p) => p,
        None => {
            proof {
                assert forall|c: Option<Piece>|
                    !starts_with_at(s@, i as int, json_cell(c)) by {
                    if starts_with_at(s@, i as int, json_cell(c)) {
                        if let Some(p) = c {
                            lemma_cell_piece_parts(s@, i as int, p);
                            lemma_kind_lit_unique(s@, j1 as int, p.kind, kind);
                        }
                        assert(false);
                    }
                }
            }
            return None;
        },
    };
    let j5 = match expect(s, j4, "}") {
        Some(j5) => j5,
        None => {
            proof {
                assert forall|c: Option<Piece>|
                    !starts_with_at(s@, i as int, json_cell(c)) by {
                    if starts_with_at(s@, i as int, json_cell(c)) {
                        if let Some(p) = c {
                            lemma_cell_piece_parts(s@, i as int, p);
                            lemma_kind_lit_unique(s@, j1 as int, p.kind, kind);
                            lemma_colour_lit_unique(s@, j3 as int, p.colour, colour);
                        }
                        assert(false);
                    }
                }
            }
            return None;
        },
    };
    let piece = Piece { kind, colour };
    proof {
        lemma_cell_piece_parts(s@, i as int, piece);
        assert(starts_with_at(s@, i as int, json_cell(Some(piece))));
        assert forall|c: Option<Piece>|
            starts_with_at(s@, i as int, json_cell(c)) implies c == Some(piece) by {
            if let Some(p) = c {
                lemma_cell_piece_parts(s@, i as int, p);
                lemma_kind_lit_unique(s@, j1 as int, p.kind, kind);
                lemma_colour_lit_unique(s@, j3 as int, p.colour, colour);
            } else {
                lemma_cell_shapes_differ(s@, i as int);
            }
        }
    }
    Some((Some(piece), j5))
}

/// Decompose or compose a multi-cell encoding into its head cell, the
/// separating comma, and the remaining cells.
proof fn lemma_cells_parts(s: Seq<char>, i: int, cs: Seq<Option<Piece>>)
    requires
        cs.len() >= 2,
    ensures
        starts_with_at(s, i, json_cells(cs)) <==> (starts_with_at(s, i, json_cell(cs[0]))
            && starts_with_at(s, i + json_cell(cs[0]).len(), ","@) && starts_with_at(
            s,
            i + json_cell(cs[0]).len() + 1,
            json_cells(cs.drop_first()),
        )),
        json_cells(cs).len() == json_cell(cs[0]).len() + 1 + json_cells(cs.drop_first()).len(),
        ","@.len() == 1,
{
    reveal_strlit(",");
    let a = json_cell(cs[0]);
    let b = ","@;
    let c = json_cells(cs.drop_first());
    lemma_starts_with_concat(s, i, a + b, c);
    lemma_starts_with_concat(s, i, a, b);
}

fn parse_cells(s: &str, i: usize, k: usize) -> (r: Option<(Vec<Option<Piece>>, usize)>)
    requires
        i <= s@.len(),
        1 <= k,
    ensures
        r matches Some(p) ==> p.0@.len() == k && p.1 == i + json_cells(p.0@).len()
            && starts_with_at(s@, i as int, json_cells(p.0@)),
        forall|cs: Seq<Option<Piece>>|
            cs.len() == k && starts_with_at(s@, i as int, json_cells(cs)) ==> (r matches Some(p)
                && p.0@ == cs && p.1 == i + json_cells(cs).len()),
    decreases k,
{
    let (c0, j0) = match parse_cell(s, i) {
        Some(p) => p,
        None => {
            proof {
                assert forall|cs: Seq<Option<Piece>>|
                    !(cs.len() == k && starts_with_at(s@, i as int, json_cells(cs))) by {
                    if cs.len() == k && starts_with_at(s@, i as int, json_cells(cs)) {
                        if cs.len() >= 2 {
                            lemma_cells_parts(s@, i as int, cs);
                        }
                        assert(starts_with_at(s@, i as int, json_cell(cs[0])));
                        assert(false);
                    }
                }
            }
            return None;
        },
    };
    if k == 1 {
        let mut v: Vec<Option<Piece>> = Vec::new();
        v.push(c0);
        proof {
            assert(v@ =~= seq![c0]);
            assert(json_cells(v@) == json_cell(c0));
            assert forall|cs: Seq<Option<Piece>>|
                cs.len() == k && starts_with_at(s@, i as int, json_cells(cs)) implies cs == v@
                && i + json_cells(cs).len() == j0 by {
                assert(json_cells(cs) == json_cell(cs[0]));
                assert(cs =~= v@);
            }
        }
        return Some((v, j0));
    }
    let j1 = match expect(s, j0, ",") {
        Some(j) => j,
        None => {
            proof {
                assert forall|cs: Seq<Option<Piece>>|
                    !(cs.len() == k && starts_with_at(s@, i as int, json_cells(cs))) by {
                    if cs.len() == k && starts_with_at(s@, i as int, json_cells(cs)) {
                        lemma_cells_parts(s@, i as int, cs);
                        assert(false);
                    }
                }
            }
            return None;
        },
    };
    let (rest, j2) = match parse_cells(s, j1, k - 1) {
        Some(p) => p,
        None => {
            proof {
                assert forall|cs: Seq<Option<Piece>>|
                    !(cs.len() == k && starts_with_at(s@, i as int, json_cells(cs))) by {
                    if cs.len() == k && starts_with_at(s@, i as int, json_cells(cs)) {
                        lemma_cells_parts(s@, i as int, cs);
                        assert(false);
                    }
                }
            }
            return None;
        },
    };
    let mut v: Vec<Option<Piece>> = Vec::new();
    v.push(c0);
    let mut rest = rest;
    let ghost rest_view = rest@;
    v.append(&mut rest);
    proof {
        assert(v@[0] == c0);
        assert(v@.drop_first() =~= rest_view);
        lemma_cells_parts(s@, i as int, v@);
        assert(starts_with_at(s@, i as int, json_cells(v@)));
        assert forall|cs: Seq<Option<Piece>>|
            cs.len() == k && starts_with_at(s@, i as int, json_cells(cs)) implies cs == v@ && i
            + json_cells(cs).len() == j2 by {
            lemma_cells_parts(s@, i as int, cs);
            assert(cs[0] == c0);
            assert(cs.drop_first() == rest_view);
            assert(cs =~= v@);
        }
    }
    Some((v, j2))
}

/// Decompose or compose a row encoding into bracket, cells, bracket.
proof fn lemma_row_parts(s: Seq<char>, i: int, row: Seq<Option<Piece>>)
    ensures
        starts_with_at(s, i, json_row(row)) <==> (starts_with_at(s, i, "["@) && starts_with_at(
            s,
            i + 1,
            json_cells(row),
        ) && starts_with_at(s, i + 1 + json_cells(row).len(), "]"@)),
        json_row(row).len() == json_cells(row).len() + 2,
        "["@.len() == 1,
        "]"@.len() == 1,
{
    reveal_strlit("[");
    reveal_strlit("]");
    let a = "["@;
    let b = json_cells(row);
    let c = "]"@;
    lemma_starts_with_concat(s, i, a + b, c);
    lemma_starts_with_concat(s, i, a, b);
}

fn parse_row(s: &str, i: usize) -> (r: Option<(Vec<Option<Piece>>, usize)>)
    requires
        i <= s@.len(),
    ensures
        r matches Some(p) ==> p.0@.len() == 8 && p.1 == i + json_row(p.0@).len()
            && starts_with_at(s@, i as int, json_row(p.0@)),
        forall|row: Seq<Option<Piece>>|
            row.len() == 8 && starts_with_at(s@, i as int, json_row(row)) ==> (r matches Some(p)
                && p.0@ == row && p.1 == i + json_row(row).len()),
{
    let j1 = match expect(s, i, "[") {
        Some(j) => j,
        None => {
            proof {
                assert forall|row: Seq<Option<Piece>>|
                    !(row.len() == 8 && starts_with_at(s@, i as int, json_row(row))) by {
                    if row.len() == 8 && starts_with_at(s@, i as int, json_row(row)) {
                        lemma_row_parts(s@, i as int, row);
                        assert(false);
                    }
                }
            }
            return None;
        },
    };
    let (cells, j2) = match parse_cells(s, j1, 8) {
        Some(p) => p,
        None => {
            proof {
                assert forall|row: Seq<Option<Piece>>|
                    !(row.len() == 8 && starts_with_at(s@, i as int, json_row(row))) by {
                    if row.len() == 8 && starts_with_at(s@, i as int, json_row(row)) {
                        lemma_row_parts(s@, i as int, row);
                        assert(false);
                    }
                }
            }
            return None;
        },
    };
    let j3 = match expect(s, j2, "]") {
        Some(j) => j,
        None => {
            proof {
                assert forall|row: Seq<Option<Piece>>|
                    !(row.len() == 8 && starts_with_at(s@, i as int, json_row(row))) by {
                    if row.len() == 8 && starts_with_at(s@, i as int, json_row(row)) {
                        lemma_row_parts(s@, i as int, row);
                        assert(false);
                    }
                }
            }
            return None;
        },
    };
    proof {
        lemma_row_parts(s@, i as int, cells@);
        assert(starts_with_at(s@, i as int, json_row(cells@)));
        assert forall|row: Seq<Option<Piece>>|
            row.len() == 8 && starts_with_at(s@, i as int, json_row(row)) implies row == cells@
            && i + json_row(row).len() == j3 by {
            lemma_row_parts(s@, i as int, row);
        }
    }
    Some((cells, j3))
}

/// Decompose or compose a flat multi-row encoding into its first row, the
/// separating comma, and the remaining rows.
proof fn lemma_rows_parts(s: Seq<char>, i: int, b: Seq<Option<Piece>>)
    requires
        b.len() > 8,
    ensures
        starts_with_at(s, i, json_rows_flat(b)) <==> (starts_with_at(
            s,
            i,
            json_row(b.subrange(0, 8)),
        ) && starts_with_at(s, i + json_row(b.subrange(0, 8)).len(), ","@) && starts_with_at(
            s,
            i + json_row(b.subrange(0, 8)).len() + 1,
            json_rows_flat(b.skip(8)),
        )),
        json_rows_flat(b).len() == json_row(b.subrange(0, 8)).len() + 1 + json_rows_flat(
            b.skip(8),
        ).len(),
        ","@.len() == 1,
{
    reveal_strlit(",");
    let a = json_row(b.subrange(0, 8));
    let m = ","@;
    let c = json_rows_flat(b.skip(8));
    lemma_starts_with_concat(s, i, a + m, c);
    lemma_starts_with_concat(s, i, a, m);
}

fn parse_rows(s: &str, i: usize, k: usize) -> (r: Option<(Vec<Option<Piece>>, usize)>)
    requires
        i <= s@.len(),
        1 <= k,
    ensures
        r matches Some(p) ==> p.0@.len() == 8 * k && p.1 == i + json_rows_flat(p.0@).len()
            && starts_with_at(s@, i as int, json_rows_flat(p.0@)),
        forall|b: Seq<Option<Piece>>|
            b.len() == 8 * k && starts_with_at(s@, i as int, json_rows_flat(b)) ==> (r matches Some(
                p,
            ) && p.0@ == b && p.1 == i + json_rows_flat(b).len()),
    decreases k,
{
    let (r0, j0) = match parse_row(s, i) {
        Some(p) => p,
        None => {
            proof {
                assert forall|b: Seq<Option<Piece>>|
                    !(b.len() == 8 * k && starts_with_at(s@, i as int, json_rows_flat(b))) by {
                    if b.len() == 8 * k && starts_with_at(s@, i as int, json_rows_flat(b)) {
                        if b.len() > 8 {
                            lemma_rows_parts(s@, i as int, b);
                            assert(starts_with_at(s@, i as int, json_row(b.subrange(0, 8))));
                            assert(b.subrange(0, 8).len() == 8);
                        } else {
                            assert(b.subrange(0, 8) =~= b);
                        }
                        assert(false);
                    }
                }
            }
            return None;
        },
    };
    if k == 1 {
        proof {
            assert forall|b: Seq<Option<Piece>>|
                b.len() == 8 * k && starts_with_at(s@, i as int, json_rows_flat(b)) implies b
                == r0@ && i + json_rows_flat(b).len() == j0 by {
                assert(json_rows_flat(b) == json_row(b));
            }
        }
        return Some((r0, j0));
    }
    let j1 = match expect(s, j0, ",") {
        Some(j) => j,
        None => {
            proof {
                assert forall|b: Seq<Option<Piece>>|
                    !(b.len() == 8 * k && starts_with_at(s@, i as int, json_rows_flat(b))) by {
                    if b.len() == 8 * k && starts_with_at(s@, i as int, json_rows_flat(b)) {
                        lemma_rows_parts(s@, i as int, b);
                        assert(b.subrange(0, 8).len() == 8);
                        assert(false);
                    }
                }
            }
            return None;
        },
    };
    let (rest, j2) = match parse_rows(s, j1, k - 1) {
        Some(p) => p,
        None => {
            proof {
                assert forall|b: Seq<Option<Piece>>|
                    !(b.len() == 8 * k && starts_with_at(s@, i as int, json_rows_flat(b))) by {
                    if b.len() == 8 * k && starts_with_at(s@, i as int, json_rows_flat(b)) {
                        lemma_rows_parts(s@, i as int, b);
                        assert(b.subrange(0, 8).len() == 8);
                        assert(b.skip(8).len() == 8 * (k - 1));
                        assert(false);
                    }
                }
            }
            return None;
        },
    };
    let mut v = r0;
    let ghost r0_view = v@;
    let mut rest = rest;
    let ghost rest_view = rest@;
    v.append(&mut rest);
    proof {
        assert(v@.subrange(0, 8) =~= r0_view);
        assert(v@.skip(8) =~= rest_view);
        lemma_rows_parts(s@, i as int, v@);
        assert(starts_with_at(s@, i as int, json_rows_flat(v@)));
        assert forall|b: Seq<Option<Piece>>|
            b.len() == 8 * k && starts_with_at(s@, i as int, json_rows_flat(b)) implies b == v@
            && i + json_rows_flat(b).len() == j2 by {
            lemma_rows_parts(s@, i as int, b);
            assert(b.subrange(0, 8).len() == 8);
            assert(b.subrange(0, 8) == r0_view);
            assert(b.skip(8).len() == 8 * (k - 1));
            assert(b.skip(8) == rest_view);
            assert(b =~= v@);
        }
    }
    Some((v, j2))
}

/// Decompose or compose a board encoding into bracket, rows, bracket.
proof fn lemma_board_parts(s: Seq<char>, i: int, b: Seq<Option<Piece>>)
    ensures
        starts_with_at(s, i, json_board(b)) <==> (starts_with_at(s, i, "["@) && starts_with_at(
            s,
            i + 1,
            json_rows_flat(b),
        ) && starts_with_at(s, i + 1 + json_rows_flat(b).len(), "]"@)),
        json_board(b).len() == json_rows_flat(b).len() + 2,
        "["@.len() == 1,
        "]"@.len() == 1,
{
    reveal_strlit("[");
    reveal_strlit("]");
    let a = "["@;
    let m = json_rows_flat(b);
    let c = "]"@;
    lemma_starts_with_concat(s, i, a + m, c);
    lemma_starts_with_concat(s, i, a, m);
}

fn parse_board(s: &str, i: usize) -> (r: Option<(Vec<Option<Piece>>, usize)>)
    requires
        i <= s@.len(),
    ensures
        r matches Some(p) ==> p.0@.len() == 64 && p.1 == i + json_board(p.0@).len()
            && starts_with_at(s@, i as int, json_board(p.0@)),
        forall|b: Seq<Option<Piece>>|
            b.len() == 64 && starts_with_at(s@, i as int, json_board(b)) ==> (r matches Some(p)
                && p.0@ == b && p.1 == i + json_board(b).len()),
{
    let j1 = match expect(s, i, "[") {
        Some(j) => j,
        None => {
            proof {
                assert forall|b: Seq<Option<Piece>>|
                    !(b.len() == 64 && starts_with_at(s@, i as int, json_board(b))) by {
                    if b.len() == 64 && starts_with_at(s@, i as int, json_board(b)) {
                        lemma_board_parts(s@, i as int, b);
                        assert(false);
                    }
                }
            }
            return None;
        },
    };
    let (cells, j2) = match parse_rows(s, j1, 8) {
        Some(p) => p,
        None => {
            proof {
                assert forall|b: Seq<Option<Piece>>|
                    !(b.len() == 64 && starts_with_at(s@, i as int, json_board(b))) by {
                    if b.len() == 64 && starts_with_at(s@, i as int, json_board(b)) {
                        lemma_board_parts(s@, i as int, b);
                        assert(false);
                    }
                }
            }
            return None;
        },
    };
    let j3 = match expect(s, j2, "]") {
        Some(j) => j,
        None => {
            proof {
                assert forall|b: Seq<Option<Piece>>|
                    !(b.len() == 64 && starts_with_at(s@, i as int, json_board(b))) by {
                    if b.len() == 64 && starts_with_at(s@, i as int, json_board(b)) {
                        lemma_board_parts(s@, i as int, b);
                        assert(false);
                    }
                }
            }
            return None;
        },
    };
    proof {
        lemma_board_parts(s@, i as int, cells@);
        assert(starts_with_at(s@, i as int, json_board(cells@)));
        assert forall|b: Seq<Option<Piece>>|
            b.len() == 64 && starts_with_at(s@, i as int, json_board(b)) implies b == cells@ && i
            + json_board(b).len() == j3 by {
            lemma_board_parts(s@, i as int, b);
        }
    }
    Some((cells, j3))
}

proof fn lemma_first_char(s: Seq<char>, i: int, t: Seq<char>)
    requires
        starts_with_at(s, i, t),
        t.len() >= 1,
    ensures
        s[i] == t[0],
{
    assert(s.subrange(i, i + t.len())[0] == t[0]);
}

/// Decompose or compose an action encoding into its literal and number
/// parts, with the position of each.
proof fn lemma_action_parts(s: Seq<char>, i: int, a: Action)
    ensures
        starts_with_at(s, i, json_action(a)) <==> ({
            let lf0 = dec_digits(a.from.0 as nat).len() as int;
            let lf1 = dec_digits(a.from.1 as nat).len() as int;
            let lt0 = dec_digits(a.to.0 as nat).len() as int;
            &&& starts_with_at(s, i, "{\"from\":["@)
            &&& starts_with_at(s, i + 9, dec_digits(a.from.0 as nat))
            &&& starts_with_at(s, i + 9 + lf0, ","@)
            &&& starts_with_at(s, i + 10 + lf0, dec_digits(a.from.1 as nat))
            &&& starts_with_at(s, i + 10 + lf0 + lf1, "],\"to\":["@)
            &&& starts_with_at(s, i + 18 + lf0 + lf1, dec_digits(a.to.0 as nat))
            &&& starts_with_at(s, i + 18 + lf0 + lf1 + lt0, ","@)
            &&& starts_with_at(s, i + 19 + lf0 + lf1 + lt0, dec_digits(a.to.1 as nat))
            &&& starts_with_at(
                s,
                i + 19 + lf0 + lf1 + lt0 + dec_digits(a.to.1 as nat).len(),
                "]}"@,
            )
        }),
        json_action(a).len() == 21 + dec_digits(a.from.0 as nat).len() + dec_digits(
            a.from.1 as nat,
        ).len() + dec_digits(a.to.0 as nat).len() + dec_digits(a.to.1 as nat).len(),
        "{\"from\":["@.len() == 9,
        "],\"to\":["@.len() == 8,
        ","@.len() == 1,
        "]}"@.len() == 2,
{
    reveal_strlit("{\"from\":[");
    reveal_strlit("],\"to\":[");
    reveal_strlit(",");
    reveal_strlit("]}");
    let p1 = "{\"from\":["@;
    let d1 = dec_digits(a.from.0 as nat);
    let p2 = ","@;
    let d2 = dec_digits(a.from.1 as nat);
    let p3 = "],\"to\":["@;
    let d3 = dec_digits(a.to.0 as nat);
    let d4 = dec_digits(a.to.1 as nat);
    let p5 = "]}"@;
    lemma_starts_with_concat(s, i, p1 + d1 + p2 + d2 + p3 + d3 + p2 + d4, p5);
    lemma_starts_with_concat(s, i, p1 + d1 + p2 + d2 + p3 + d3 + p2, d4);
    lemma_starts_with_concat(s, i, p1 + d1 + p2 + d2 + p3 + d3, p2);
    lemma_starts_with_concat(s, i, p1 + d1 + p2 + d2 + p3, d3);
    lemma_starts_with_concat(s, i, p1 + d1 + p2 + d2, p3);
    lemma_starts_with_concat(s, i, p1 + d1 + p2, d2);
    lemma_starts_with_concat(s, i, p1 + d1, p2);
    lemma_starts_with_concat(s, i, p1, d1);
}

/// The comma, closing bracket and closing brace are not digits, so a
/// canonical number standing before one of them is maximal.
proof fn lemma_delim_not_digit(s: Seq<char>, i: int, t: Seq<char>)
    requires
        starts_with_at(s, i, t),
        t.len() >= 1,
        t[0] == ',' || t[0] == ']' || t[0] == '}',
    ensures
        !is_digit(s[i]),
{
    lemma_first_char(s, i, t);
}

#[verifier::rlimit(60)]
fn parse_action_at(s: &str, i: usize) -> (r: Option<(Action, usize)>)
    requires
        i <= s@.len(),
    ensures
        r matches Some(p) ==> p.1 == i + json_action(p.0).len() && starts_with_at(
            s@,
            i as int,
            json_action(p.0),
        ),
        forall|a: Action|
            starts_with_at(s@, i as int, json_action(a)) ==> (r matches Some(p) && p.0 == a && p.1
                == i + json_action(a).len()),
{
    let j1 = match expect(s, i, "{\"from\":[") {
        Some(j) => j,
        None => {
            proof {
                assert forall|a: Action| !starts_with_at(s@, i as int, json_action(a)) by {
                    if starts_with_at(s@, i as int, json_action(a)) {
                        lemma_action_parts(s@, i as int, a);
                        assert(false);
                    }
                }
            }
            return None;
        },
    };
    let (n0, j2) = match parse_u32(s, j1) {
        Some(p) => p,
        None => {
            proof {
                assert forall|a: Action| !starts_with_at(s@, i as int, json_action(a)) by {
                    if starts_with_at(s@, i as int, json_action(a)) {
                        lemma_action_parts(s@, i as int, a);
                        reveal_strlit(",");
                        lemma_delim_not_digit(
                            s@,
                            i + 9 + dec_digits(a.from.0 as nat).len(),
                            ","@,
                        );
                        assert(false);
                    }
                }
            }
            return None;
        },
    };
    if n0 > 255 {
        proof {
            assert forall|a: Action| !starts_with_at(s@, i as int, json_action(a)) by {
                if starts_with_at(s@, i as int, json_action(a)) {
                    lemma_action_parts(s@, i as int, a);
                    reveal_strlit(",");
                    lemma_delim_not_digit(s@, i + 9 + dec_digits(a.from.0 as nat).len(), ","@);
                    assert(false);
                }
            }
        }
        return None;
    }
    let j3 = match expect(s, j2, ",") {
        Some(j) => j,
        None => {
            proof {
                assert forall|a: Action| !starts_with_at(s@, i as int, json_action(a)) by {
                    if starts_with_at(s@, i as int, json_action(a)) {
                        lemma_action_parts(s@, i as int, a);
                        reveal_strlit(",");
                        lemma_delim_not_digit(s@, i + 9 + dec_digits(a.from.0 as nat).len(), ","@);
                        assert(false);
                    }
                }
            }
            return None;
        },
    };
    let (n1, j4) = match parse_u32(s, j3) {
        Some(p) => p,
        None => {
            proof {
                assert forall|a: Action| !starts_with_at(s@, i as int, json_action(a)) by {
                    if starts_with_at(s@, i as int, json_action(a)) {
                        lemma_action_parts(s@, i as int, a);
                        reveal_strlit(",");
                        reveal_strlit("],\"to\":[");
                        lemma_delim_not_digit(s@, i + 9 + dec_digits(a.from.0 as nat).len(), ","@);
                        lemma_delim_not_digit(
                            s@,
                            i + 10 + dec_digits(a.from.0 as nat).len() + dec_digits(
                                a.from.1 as nat,
                            ).len(),
                            "],\"to\":["@,
                        );
                        assert(false);
                    }
                }
            }
            return None;
        },
    };
    if n1 > 255 {
        proof {
            assert forall|a: Action| !starts_with_at(s@, i as int, json_action(a)) by {
                if starts_with_at(s@, i as int, json_action(a)) {
                    lemma_action_parts(s@, i as int, a);
                    reveal_strlit(",");
                    reveal_strlit("],\"to\":[");
                    lemma_delim_not_digit(s@, i + 9 + dec_digits(a.from.0 as nat).len(), ","@);
                    lemma_delim_not_digit(
                        s@,
                        i + 10 + dec_digits(a.from.0 as nat).len() + dec_digits(
                            a.from.1 as nat,
                        ).len(),
                        "],\"to\":["@,
                    );
                    assert(false);
                }
            }
        }
        return None;
    }
    let j5 = match expect(s, j4, "],\"to\":[") {
        Some(j) => j,
        None => {
            proof {
                assert forall|a: Action| !starts_with_at(s@, i as int, json_action(a)) by {
                    if starts_with_at(s@, i as int, json_action(a)) {
                        lemma_action_parts(s@, i as int, a);
                        reveal_strlit(",");
                        reveal_strlit("],\"to\":[");
                        lemma_delim_not_digit(s@, i + 9 + dec_digits(a.from.0 as nat).len(), ","@);
                        lemma_delim_not_digit(
                            s@,
                            i + 10 + dec_digits(a.from.0 as nat).len() + dec_digits(
                                a.from.1 as nat,
                            ).len(),
                            "],\"to\":["@,
                        );
                        assert(false);
                    }
                }
            }
            return None;
        },
    };
    let (n2, j6) = match parse_u32(s, j5) {
        Some(p) => p,
        None => {
            proof {
                assert forall|a: Action| !starts_with_at(s@, i as int, json_action(a)) by {
                    if starts_with_at(s@, i as int, json_action(a)) {
                        lemma_action_parts(s@, i as int, a);
                        reveal_strlit(",");
                        reveal_strlit("],\"to\":[");
                        lemma_delim_not_digit(s@, i + 9 + dec_digits(a.from.0 as nat).len(), ","@);
                        lemma_delim_not_digit(
                            s@,
                            i + 10 + dec_digits(a.from.0 as nat).len() + dec_digits(
                                a.from.1 as nat,
                            ).len(),
                            "],\"to\":["@,
                        );
                        lemma_delim_not_digit(
                            s@,
                            i + 18 + dec_digits(a.from.0 as nat).len() + dec_digits(
                                a.from.1 as nat,
                            ).len() + dec_digits(a.to.0 as nat).len(),
                            ","@,
                        );
                        assert(false);
                    }
                }
            }
            return None;
        },
    };
    if n2 > 255 {
        proof {
            assert forall|a: Action| !starts_with_at(s@, i as int, json_action(a)) by {
                if starts_with_at(s@, i as int, json_action(a)) {
                    lemma_action_parts(s@, i as int, a);
                    reveal_strlit(",");
                    reveal_strlit("],\"to\":[");
                    lemma_delim_not_digit(s@, i + 9 + dec_digits(a.from.0 as nat).len(), ","@);
                    lemma_delim_not_digit(
                        s@,
                        i + 10 + dec_digits(a.from.0 as nat).len() + dec_digits(
                            a.from.1 as nat,
                        ).len(),
                        "],\"to\":["@,
                    );
                    lemma_delim_not_digit(
                        s@,
                        i + 18 + dec_digits(a.from.0 as nat).len() + dec_digits(
                            a.from.1 as nat,
                        ).len() + dec_digits(a.to.0 as nat).len(),
                        ","@,
                    );
                    assert(false);
                }
            }
        }
        return None;
    }
    let j7 = match expect(s, j6, ",") {
        Some(j) => j,
        None => {
            proof {
                assert forall|a: Action| !starts_with_at(s@, i as int, json_action(a)) by {
                    if starts_with_at(s@, i as int, json_action(a)) {
                        lemma_action_parts(s@, i as int, a);
                        reveal_strlit(",");
                        reveal_strlit("],\"to\":[");
                        lemma_delim_not_digit(s@, i + 9 + dec_digits(a.from.0 as nat).len(), ","@);
                        lemma_delim_not_digit(
                            s@,
                            i + 10 + dec_digits(a.from.0 as nat).len() + dec_digits(
                                a.from.1 as nat,
                            ).len(),
                            "],\"to\":["@,
                        );
                        lemma_delim_not_digit(
                            s@,
                            i + 18 + dec_digits(a.from.0 as nat).len() + dec_digits(
                                a.from.1 as nat,
                            ).len() + dec_digits(a.to.0 as nat).len(),
                            ","@,
                        );
                        assert(false);
                    }
                }
            }
            return None;
        },
    };
    let (n3, j8) = match parse_u32(s, j7) {
        Some(p) => p,
        None => {
            proof {
                assert forall|a: Action| !starts_with_at(s@, i as int, json_action(a)) by {
                    if starts_with_at(s@, i as int, json_action(a)) {
                        lemma_action_parts(s@, i as int, a);
                        reveal_strlit(",");
                        reveal_strlit("],\"to\":[");
                        reveal_strlit("]}");
                        lemma_delim_not_digit(s@, i + 9 + dec_digits(a.from.0 as nat).len(), ","@);
                        lemma_delim_not_digit(
                            s@,
                            i + 10 + dec_digits(a.from.0 as nat).len() + dec_digits(
                                a.from.1 as nat,
                            ).len(),
                            "],\"to\":["@,
                        );
                        lemma_delim_not_digit(
                            s@,
                            i + 18 + dec_digits(a.from.0 as nat).len() + dec_digits(
                                a.from.1 as nat,
                            ).len() + dec_digits(a.to.0 as nat).len(),
                            ","@,
                        );
                        lemma_delim_not_digit(
                            s@,
                            i + 19 + dec_digits(a.from.0 as nat).len() + dec_digits(
                                a.from.1 as nat,
                            ).len() + dec_digits(a.to.0 as nat).len() + dec_digits(
                                a.to.1 as nat,
                            ).len(),
                            "]}"@,
                        );
                        assert(false);
                    }
                }
            }
            return None;
        },
    };
    if n3 > 255 {
        proof {
            assert forall|a: Action| !starts_with_at(s@, i as int, json_action(a)) by {
                if starts_with_at(s@, i as int, json_action(a)) {
                    lemma_action_parts(s@, i as int, a);
                    reveal_strlit(",");
                    reveal_strlit("],\"to\":[");
                    reveal_strlit("]}");
                    lemma_delim_not_digit(s@, i + 9 + dec_digits(a.from.0 as nat).len(), ","@);
                    lemma_delim_not_digit(
                        s@,
                        i + 10 + dec_digits(a.from.0 as nat).len() + dec_digits(
                            a.from.1 as nat,
                        ).len(),
                        "],\"to\":["@,
                    );
                    lemma_delim_not_digit(
                        s@,
                        i + 18 + dec_digits(a.from.0 as nat).len() + dec_digits(
                            a.from.1 as nat,
                        ).len() + dec_digits(a.to.0 as nat).len(),
                        ","@,
                    );
                    lemma_delim_not_digit(
                        s@,
                        i + 19 + dec_digits(a.from.0 as nat).len() + dec_digits(
                            a.from.1 as nat,
                        ).len() + dec_digits(a.to.0 as nat).len() + dec_digits(
                            a.to.1 as nat,
                        ).len(),
                        "]}"@,
                    );
                    assert(false);
                }
            }
        }
        return None;
    }
    let j9 = match expect(s, j8, "]}") {
        Some(j) => j,
        None => {
            proof {
                assert forall|a: Action| !starts_with_at(s@, i as int, json_action(a)) by {
                    if starts_with_at(s@, i as int, json_action(a)) {
                        lemma_action_parts(s@, i as int, a);
                        reveal_strlit(",");
                        reveal_strlit("],\"to\":[");
                        reveal_strlit("]}");
                        lemma_delim_not_digit(s@, i + 9 + dec_digits(a.from.0 as nat).len(), ","@);
                        lemma_delim_not_digit(
                            s@,
                            i + 10 + dec_digits(a.from.0 as nat).len() + dec_digits(
                                a.from.1 as nat,
                            ).len(),
                            "],\"to\":["@,
                        );
                        lemma_delim_not_digit(
                            s@,
                            i + 18 + dec_digits(a.from.0 as nat).len() + dec_digits(
                                a.from.1 as nat,
                            ).len() + dec_digits(a.to.0 as nat).len(),
                            ","@,
                        );
                        lemma_delim_not_digit(
                            s@,
                            i + 19 + dec_digits(a.from.0 as nat).len() + dec_digits(
                                a.from.1 as nat,
                            ).len() + dec_digits(a.to.0 as nat).len() + dec_digits(
                                a.to.1 as nat,
                            ).len(),
                            "]}"@,
                        );
                        assert(false);
                    }
                }
            }
            return None;
        },
    };
    let parsed = Action { from: (n0 as u8, n1 as u8), to: (n2 as u8, n3 as u8) };
    proof {
        lemma_action_parts(s@, i as int, parsed);
        assert(starts_with_at(s@, i as int, json_action(parsed)));
        assert forall|a: Action|
            starts_with_at(s@, i as int, json_action(a)) implies a == parsed && i + json_action(
            a,
        ).len() == j9 by {
            lemma_action_parts(s@, i as int, a);
            reveal_strlit(",");
            reveal_strlit("],\"to\":[");
            reveal_strlit("]}");
            lemma_delim_not_digit(s@, i + 9 + dec_digits(a.from.0 as nat).len(), ","@);
            lemma_delim_not_digit(
                s@,
                i + 10 + dec_digits(a.from.0 as nat).len() + dec_digits(a.from.1 as nat).len(),
                "],\"to\":["@,
            );
            lemma_delim_not_digit(
                s@,
                i + 18 + dec_digits(a.from.0 as nat).len() + dec_digits(a.from.1 as nat).len()
                    + dec_digits(a.to.0 as nat).len(),
                ","@,
            );
            lemma_delim_not_digit(
                s@,
                i + 19 + dec_digits(a.from.0 as nat).len() + dec_digits(a.from.1 as nat).len()
                    + dec_digits(a.to.0 as nat).len() + dec_digits(a.to.1 as nat).len(),
                "]}"@,
            );
        }
    }
    Some((parsed, j9))
}

/// Decompose or compose a vote encoding into its parts.
proof fn lemma_vote_parts(s: Seq<char>, i: int, v: Vote)
    ensures
        starts_with_at(s, i, json_vote(v)) <==> ({
            let la = json_action(v.action).len() as int;
            &&& starts_with_at(s, i, "{\"action\":"@)
            &&& starts_with_at(s, i + 10, json_action(v.action))
            &&& starts_with_at(s, i + 10 + la, ",\"weight\":"@)
            &&& starts_with_at(s, i + 20 + la, dec_digits(v.weight as nat))
            &&& starts_with_at(s, i + 20 + la + dec_digits(v.weight as nat).len(), "}"@)
        }),
        json_vote(v).len() == 21 + json_action(v.action).len() + dec_digits(v.weight as nat).len(),
        "{\"action\":"@.len() == 10,
        ",\"weight\":"@.len() == 10,
        "}"@.len() == 1,
{
    reveal_strlit("{\"action\":");
    reveal_strlit(",\"weight\":");
    reveal_strlit("}");
    let p1 = "{\"action\":"@;
    let a = json_action(v.action);
    let p2 = ",\"weight\":"@;
    let d = dec_digits(v.weight as nat);
    let p3 = "}"@;
    lemma_starts_with_concat(s, i, p1 + a + p2 + d, p3);
    lemma_starts_with_concat(s, i, p1 + a + p2, d);
    lemma_starts_with_concat(s, i, p1 + a, p2);
    lemma_starts_with_concat(s, i, p1, a);
}

fn parse_vote_at(s: &str, i: usize) -> (r: Option<(Vote, usize)>)
    requires
        i <= s@.len(),
    ensures
        r matches Some(p) ==> p.1 == i + json_vote(p.0).len() && starts_with_at(
            s@,
            i as int,
            json_vote(p.0),
        ),
        forall|v: Vote|
            starts_with_at(s@, i as int, json_vote(v)) ==> (r matches Some(p) && p.0 == v && p.1
                == i + json_vote(v).len()),
{
    let j1 = match expect(s, i, "{\"action\":") {
        Some(j) => j,
        None => {
            proof {
                assert forall|v: Vote| !starts_with_at(s@, i as int, json_vote(v)) by {
                    if starts_with_at(s@, i as int, json_vote(v)) {
                        lemma_vote_parts(s@, i as int, v);
                        assert(false);
                    }
                }
            }
            return None;
        },
    };
    let (act, j2) = match parse_action_at(s, j1) {
        Some(p) => p,
        None => {
            proof {
                assert forall|v: Vote| !starts_with_at(s@, i as int, json_vote(v)) by {
                    if starts_with_at(s@, i as int, json_vote(v)) {
                        lemma_vote_parts(s@, i as int, v);
                        assert(false);
                    }
                }
            }
            return None;
        },
    };
    let j3 = match expect(s, j2, ",\"weight\":") {
        Some(j) => j,
        None => {
            proof {
                assert forall|v: Vote| !starts_with_at(s@, i as int, json_vote(v)) by {
                    if starts_with_at(s@, i as int, json_vote(v)) {
                        lemma_vote_parts(s@, i as int, v);
                        assert(false);
                    }
                }
            }
            return None;
        },
    };
    let (w, j4) = match parse_u32(s, j3) {
        Some(p) => p,
        None => {
            proof {
                assert forall|v: Vote| !starts_with_at(s@, i as int, json_vote(v)) by {
                    if starts_with_at(s@, i as int, json_vote(v)) {
                        lemma_vote_parts(s@, i as int, v);
                        reveal_strlit("}");
                        lemma_delim_not_digit(
                            s@,
                            i + 20 + json_action(v.action).len() + dec_digits(
                                v.weight as nat,
                            ).len(),
                            "}"@,
                        );
                        assert(false);
                    }
                }
            }
            return None;
        },
    };
    let j5 = match expect(s, j4, "}") {
        Some(j) => j,
        None => {
            proof {
                assert forall|v: Vote| !starts_with_at(s@, i as int, json_vote(v)) by {
                    if starts_with_at(s@, i as int, json_vote(v)) {
                        lemma_vote_parts(s@, i as int, v);
                        reveal_strlit("}");
                        lemma_delim_not_digit(
                            s@,
                            i + 20 + json_action(v.action).len() + dec_digits(
                                v.weight as nat,
                            ).len(),
                            "}"@,
                        );
                        assert(false);
                    }
                }
            }
            return None;
        },
    };
    let parsed = Vote { action: act, weight: w };
    proof {
        lemma_vote_parts(s@, i as int, parsed);
        assert(starts_with_at(s@, i as int, json_vote(parsed)));
        assert forall|v: Vote|
            starts_with_at(s@, i as int, json_vote(v)) implies v == parsed && i + json_vote(
            v,
        ).len() == j5 by {
            lemma_vote_parts(s@, i as int, v);
            reveal_strlit("}");
            lemma_delim_not_digit(
                s@,
                i + 20 + json_action(v.action).len() + dec_digits(v.weight as nat).len(),
                "}"@,
            );
        }
    }
    Some((parsed, j5))
}

/// Decompose or compose a vote-call encoding into its parts.
proof fn lemma_vote_call_parts(s: Seq<char>, i: int, vc: VoteCall)
    ensures
        starts_with_at(s, i, json_vote_call(vc)) <==> (starts_with_at(s, i, "{\"timeout\":"@)
            && starts_with_at(s, i + 11, dec_digits(vc.timeout as nat)) && starts_with_at(
            s,
            i + 11 + dec_digits(vc.timeout as nat).len(),
            "}"@,
        )),
        json_vote_call(vc).len() == 12 + dec_digits(vc.timeout as nat).len(),
        "{\"timeout\":"@.len() == 11,
        "}"@.len() == 1,
{
    reveal_strlit("{\"timeout\":");
    reveal_strlit("}");
    let p1 = "{\"timeout\":"@;
    let d = dec_digits(vc.timeout as nat);
    let p2 = "}"@;
    lemma_starts_with_concat(s, i, p1 + d, p2);
    lemma_starts_with_concat(s, i, p1, d);
}

fn parse_vote_call_at(s: &str, i: usize) -> (r: Option<(VoteCall, usize)>)
    requires
        i <= s@.len(),
    ensures
        r matches Some(p) ==> p.1 == i + json_vote_call(p.0).len() && starts_with_at(
            s@,
            i as int,
            json_vote_call(p.0),
        ),
        forall|vc: VoteCall|
            starts_with_at(s@, i as int, json_vote_call(vc)) ==> (r matches Some(p) && p.0 == vc
                && p.1 == i + json_vote_call(vc).len()),
{
    let j1 = match expect(s, i, "{\"timeout\":") {
        Some(j) => j,
        None => {
            proof {
                assert forall|vc: VoteCall| !starts_with_at(s@, i as int, json_vote_call(vc)) by {
                    if starts_with_at(s@, i as int, json_vote_call(vc)) {
                        lemma_vote_call_parts(s@, i as int, vc);
                        assert(false);
                    }
                }
            }
            return None;
        },
    };
    let (t, j2) = match parse_u32(s, j1) {
        Some(p) => p,
        None => {
            proof {
                assert forall|vc: VoteCall| !starts_with_at(s@, i as int, json_vote_call(vc)) by {
                    if starts_with_at(s@, i as int, json_vote_call(vc)) {
                        lemma_vote_call_parts(s@, i as int, vc);
                        reveal_strlit("}");
                        lemma_delim_not_digit(
                            s@,
                            i + 11 + dec_digits(vc.timeout as nat).len(),
                            "}"@,
                        );
                        assert(false);
                    }
                }
            }
            return None;
        },
    };
    let j3 = match expect(s, j2, "}") {
        Some(j) => j,
        None => {
            proof {
                assert forall|vc: VoteCall| !starts_with_at(s@, i as int, json_vote_call(vc)) by {
                    if starts_with_at(s@, i as int, json_vote_call(vc)) {
                        lemma_vote_call_parts(s@, i as int, vc);
                        reveal_strlit("}");
                        lemma_delim_not_digit(
                            s@,
                            i + 11 + dec_digits(vc.timeout as nat).len(),
                            "}"@,
                        );
                        assert(false);
                    }
                }
            }
            return None;
        },
    };
    let parsed = VoteCall { timeout: t };
    proof {
        lemma_vote_call_parts(s@, i as int, parsed);
        assert(starts_with_at(s@, i as int, json_vote_call(parsed)));
        assert forall|vc: VoteCall|
            starts_with_at(s@, i as int, json_vote_call(vc)) implies vc == parsed && i
            + json_vote_call(vc).len() == j3 by {
            lemma_vote_call_parts(s@, i as int, vc);
            reveal_strlit("}");
            lemma_delim_not_digit(s@, i + 11 + dec_digits(vc.timeout as nat).len(), "}"@);
        }
    }
    Some((parsed, j3))
}

/// Decompose or compose a state-change encoding into its parts.
proof fn lemma_state_parts(s: Seq<char>, i: int, b: Seq<Option<Piece>>, t: PieceColour)
    ensures
        starts_with_at(s, i, json_state_change(b, t)) <==> ({
            let lb = json_board(b).len() as int;
            &&& starts_with_at(s, i, "{\"board\":"@)
            &&& starts_with_at(s, i + 9, json_board(b))
            &&& starts_with_at(s, i + 9 + lb, ",\"turn\":"@)
            &&& starts_with_at(s, i + 17 + lb, json_colour(t))
            &&& starts_with_at(s, i + 17 + lb + json_colour(t).len(), "}"@)
        }),
        json_state_change(b, t).len() == 18 + json_board(b).len() + json_colour(t).len(),
        "{\"board\":"@.len() == 9,
        ",\"turn\":"@.len() == 8,
        "}"@.len() == 1,
{
    reveal_strlit("{\"board\":");
    reveal_strlit(",\"turn\":");
    reveal_strlit("}");
    let p1 = "{\"board\":"@;
    let bb = json_board(b);
    let p2 = ",\"turn\":"@;
    let c = json_colour(t);
    let p3 = "}"@;
    lemma_starts_with_concat(s, i, p1 + bb + p2 + c, p3);
    lemma_starts_with_concat(s, i, p1 + bb + p2, c);
    lemma_starts_with_concat(s, i, p1 + bb, p2);
    lemma_starts_with_concat(s, i, p1, bb);
}

fn parse_state_change_at(s: &str, i: usize) -> (r: Option<(StateChange, usize)>)
    requires
        i <= s@.len(),
    ensures
        r matches Some(p) ==> p.0.board.wf() && p.1 == i + json_state_change(
            p.0.board@,
            p.0.turn,
        ).len() && starts_with_at(s@, i as int, json_state_change(p.0.board@, p.0.turn)),
        forall|b: Seq<Option<Piece>>, t: PieceColour|
            b.len() == 64 && starts_with_at(s@, i as int, json_state_change(b, t)) ==> (r matches Some(
                p,
            ) && p.0.board@ == b && p.0.turn == t && p.1 == i + json_state_change(b, t).len()),
{
    let j1 = match expect(s, i, "{\"board\":") {
        Some(j) => j,
        None => {
            proof {
                assert forall|b: Seq<Option<Piece>>, t: PieceColour|
                    !(b.len() == 64 && starts_with_at(s@, i as int, json_state_change(b, t))) by {
                    if b.len() == 64 && starts_with_at(s@, i as int, json_state_change(b, t)) {
                        lemma_state_parts(s@, i as int, b, t);
                        assert(false);
                    }
                }
            }
            return None;
        },
    };
    let (cells, j2) = match parse_board(s, j1) {
        Some(p) => p,
        None => {
            proof {
                assert forall|b: Seq<Option<Piece>>, t: PieceColour|
                    !(b.len() == 64 && starts_with_at(s@, i as int, json_state_change(b, t))) by {
                    if b.len() == 64 && starts_with_at(s@, i as int, json_state_change(b, t)) {
                        lemma_state_parts(s@, i as int, b, t);
                        assert(false);
                    }
                }
            }
            return None;
        },
    };
    let j3 = match expect(s, j2, ",\"turn\":") {
        Some(j) => j,
        None => {
            proof {
                assert forall|b: Seq<Option<Piece>>, t: PieceColour|
                    !(b.len() == 64 && starts_with_at(s@, i as int, json_state_change(b, t))) by {
                    if b.len() == 64 && starts_with_at(s@, i as int, json_state_change(b, t)) {
                        lemma_state_parts(s@, i as int, b, t);
                        assert(false);
                    }
                }
            }
            return None;
        },
    };
    let (turn, j4) = match parse_colour(s, j3) {
        Some(p) => p,
        None => {
            proof {
                assert forall|b: Seq<Option<Piece>>, t: PieceColour|
                    !(b.len() == 64 && starts_with_at(s@, i as int, json_state_change(b, t))) by {
                    if b.len() == 64 && starts_with_at(s@, i as int, json_state_change(b, t)) {
                        lemma_state_parts(s@, i as int, b, t);
                        assert(false);
                    }
                }
            }
            return None;
        },
    };
    let j5 = match expect(s, j4, "}") {
        Some(j) => j,
        None => {
            proof {
                assert forall|b: Seq<Option<Piece>>, t: PieceColour|
                    !(b.len() == 64 && starts_with_at(s@, i as int, json_state_change(b, t))) by {
                    if b.len() == 64 && starts_with_at(s@, i as int, json_state_change(b, t)) {
                        lemma_state_parts(s@, i as int, b, t);
                        lemma_colour_lit_unique(s@, j3 as int, t, turn);
                        assert(false);
                    }
                }
            }
            return None;
        },
    };
    let board = Board::from_cells(cells);
    let parsed = StateChange { board, turn };
    proof {
        lemma_state_parts(s@, i as int, parsed.board@, parsed.turn);
        assert(starts_with_at(s@, i as int, json_state_change(parsed.board@, parsed.turn)));
        assert forall|b: Seq<Option<Piece>>, t: PieceColour|
            b.len() == 64 && starts_with_at(s@, i as int, json_state_change(b, t)) implies b
            == parsed.board@ && t == parsed.turn && i + json_state_change(b, t).len() == j5 by {
            lemma_state_parts(s@, i as int, b, t);
            lemma_colour_lit_unique(s@, j3 as int, t, turn);
        }
    }
    Some((parsed, j5))
}

fn parse_downstream_at(s: &str, i: usize) -> (r: Option<(DownstreamMessage, usize)>)
    requires
        i <= s@.len(),
    ensures
        r matches Some(p) ==> p.1 == i + json_downstream(p.0).len() && starts_with_at(
            s@,
            i as int,
            json_downstream(p.0),
        ) && (p.0 matches DownstreamMessage::StateChange(st) ==> st.board.wf()),
        forall|b: Seq<Option<Piece>>, t: PieceColour|
            b.len() == 64 && starts_with_at(s@, i as int, json_state_change(b, t)) ==> (r matches Some(
                p,
            ) && p.0 matches DownstreamMessage::StateChange(st) && st.board@ == b && st.turn == t
                && p.1 == i + json_state_change(b, t).len()),
        forall|vc: VoteCall|
            starts_with_at(s@, i as int, json_vote_call(vc)) ==> (r matches Some(p)
                && p.0 matches DownstreamMessage::VoteCall(v2) && v2 == vc && p.1 == i
                + json_vote_call(vc).len()),
{
    if let Some((st, j)) = parse_state_change_at(s, i) {
        proof {
            assert forall|vc: VoteCall| !starts_with_at(s@, i as int, json_vote_call(vc)) by {
                if starts_with_at(s@, i as int, json_vote_call(vc)) {
                    lemma_vote_call_parts(s@, i as int, vc);
                    lemma_state_parts(s@, i as int, st.board@, st.turn);
                    reveal_strlit("{\"board\":");
                    reveal_strlit("{\"timeout\":");
                    lemma_lits_common_index(s@, i as int, "{\"board\":"@, "{\"timeout\":"@, 2);
                    assert(false);
                }
            }
        }
        return Some((DownstreamMessage::StateChange(st), j));
    }
    if let Some((vc, j)) = parse_vote_call_at(s, i) {
        return Some((DownstreamMessage::VoteCall(vc), j));
    }
    None
}

/// `s` is the text `t` followed by nothing but whitespace.
pub open spec fn line_matches(s: Seq<char>, t: Seq<char>) -> bool {
    starts_with_at(s, 0, t) && ws_only(s, t.len() as int)
}

fn is_ws_exec(c: char) -> (r: bool)
    ensures
        r == is_ws(c),
{
    c == ' ' || c == '\t' || c == '\r' || c == '\n'
}

fn ws_from(s: &str, j: usize) -> (r: bool)
    requires
        j <= s@.len(),
    ensures
        r == ws_only(s@, j as int),
{
    let sl = s.unicode_len();
    let mut m: usize = j;
    while m < sl
        invariant
            j <= m <= sl,
            sl == s@.len(),
            forall|q: int| j <= q < m ==> is_ws(#[trigger] s@[q]),
        decreases sl - m,
    {
        if !is_ws_exec(s.get_char(m)) {
            return false;
        }
        m = m + 1;
    }
    true
}

/// Parse a whole message text as a vote: exactly the canonical encoding of
/// one vote, optionally followed by whitespace.  The contract is two-sided:
/// parsing succeeds with `v` exactly when the text is `v`'s encoding, so
/// decoding inverts encoding.
pub fn parse_vote(s: &str) -> (r: Option<Vote>)
    ensures
        r matches Some(v) ==> line_matches(s@, json_vote(v)),
        forall|v: Vote| line_matches(s@, json_vote(v)) ==> r == Some(v),
{
    match parse_vote_at(s, 0) {
        Some((v, j)) => {
            if ws_from(s, j) {
                Some(v)
            } else {
                proof {
                    assert forall|v2: Vote| !line_matches(s@, json_vote(v2)) by {
                        if line_matches(s@, json_vote(v2)) {
                            assert(false);
                        }
                    }
                }
                None
            }
        },
        None => {
            proof {
                assert forall|v2: Vote| !line_matches(s@, json_vote(v2)) by {
                    if line_matches(s@, json_vote(v2)) {
                        assert(false);
                    }
                }
            }
            None
        },
    }
}

/// Parse a whole message text as a state change, as [`parse_vote`] does
/// for votes.
pub fn parse_state_change(s: &str) -> (r: Option<StateChange>)
    ensures
        r matches Some(st) ==> st.board.wf() && line_matches(
            s@,
            json_state_change(st.board@, st.turn),
        ),
        forall|b: Seq<Option<Piece>>, t: PieceColour|
            b.len() == 64 && line_matches(s@, json_state_change(b, t)) ==> (r matches Some(st)
                && st.board@ == b && st.turn == t),
{
    match parse_state_change_at(s, 0) {
        Some((st, j)) => {
            if ws_from(s, j) {
                Some(st)
            } else {
                proof {
                    assert forall|b: Seq<Option<Piece>>, t: PieceColour|
                        !(b.len() == 64 && line_matches(s@, json_state_change(b, t))) by {
                        if b.len() == 64 && line_matches(s@, json_state_change(b, t)) {
                            assert(false);
                        }
                    }
                }
                None
            }
        },
        None => {
            proof {
                assert forall|b: Seq<Option<Piece>>, t: PieceColour|
                    !(b.len() == 64 && line_matches(s@, json_state_change(b, t))) by {
                    if b.len() == 64 && line_matches(s@, json_state_change(b, t)) {
                        assert(false);
                    }
                }
            }
            None
        },
    }
}

/// Parse a whole message text as a downstream message: a state change or a
/// vote call, told apart by their first key, as the untagged wire format
/// asks.
pub fn parse_downstream_message(s: &str) -> (r: Option<DownstreamMessage>)
    ensures
        r matches Some(m) ==> line_matches(s@, json_downstream(m)) && (
        m matches DownstreamMessage::StateChange(st) ==> st.board.wf()),
        forall|b: Seq<Option<Piece>>, t: PieceColour|
            b.len() == 64 && line_matches(s@, json_state_change(b, t)) ==> (r matches Some(m)
                && m matches DownstreamMessage::StateChange(st) && st.board@ == b && st.turn == t),
        forall|vc: VoteCall|
            line_matches(s@, json_vote_call(vc)) ==> r == Some(DownstreamMessage::VoteCall(vc)),
{
    match parse_downstream_at(s, 0) {
        Some((m, j)) => {
            if ws_from(s, j) {
                Some(m)
            } else {
                proof {
                    assert forall|b: Seq<Option<Piece>>, t: PieceColour|
                        !(b.len() == 64 && line_matches(s@, json_state_change(b, t))) by {
                        if b.len() == 64 && line_matches(s@, json_state_change(b, t)) {
                            assert(false);
                        }
                    }
                    assert forall|vc: VoteCall| !line_matches(s@, json_vote_call(vc)) by {
                        if line_matches(s@, json_vote_call(vc)) {
                            assert(false);
                        }
                    }
                }
                None
            }
        },
        None => {
            proof {
                assert forall|b: Seq<Option<Piece>>, t: PieceColour|
                    !(b.len() == 64 && line_matches(s@, json_state_change(b, t))) by {
                    if b.len() == 64 && line_matches(s@, json_state_change(b, t)) {
                        assert(false);
                    }
                }
                assert forall|vc: VoteCall| !line_matches(s@, json_vote_call(vc)) by {
                    if line_matches(s@, json_vote_call(vc)) {
                        assert(false);
                    }
                }
            }
            None
        },
    }
}

} // verus!
