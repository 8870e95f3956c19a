use crowdchess::codec::{
    encode_state_change, encode_vote, encode_vote_call, parse_downstream_message,
    parse_state_change, parse_vote,
};
use crowdchess::model::{
    init_board, Action, Board, DownstreamMessage, PieceColour, StateChange, Vote, VoteCall,
};

fn vote(from: (u8, u8), to: (u8, u8), weight: u32) -> Vote {
    Vote { action: Action { from, to }, weight }
}

#[test]
fn vote_encodes_exactly() {
    let v = vote((4, 6), (4, 4), 12);
    assert_eq!(
        encode_vote(&v),
        "{\"action\":{\"from\":[4,6],\"to\":[4,4]},\"weight\":12}"
    );
}

#[test]
fn vote_call_encodes_exactly() {
    assert_eq!(encode_vote_call(&VoteCall { timeout: 30000 }), "{\"timeout\":30000}");
    assert_eq!(encode_vote_call(&VoteCall { timeout: 0 }), "{\"timeout\":0}");
}

#[test]
fn state_change_encoding_starts_and_ends_as_expected() {
    let st = StateChange { board: init_board(), turn: PieceColour::White };
    let s = encode_state_change(&st);
    assert!(s.starts_with(
        "{\"board\":[[{\"kind\":\"Rook\",\"colour\":\"Black\"},{\"kind\":\"Knight\",\"colour\":\"Black\"}"
    ));
    assert!(s.ends_with("{\"kind\":\"Rook\",\"colour\":\"White\"}]],\"turn\":\"White\"}"));
    // rank 2 through 5 are empty
    assert!(s.contains("[null,null,null,null,null,null,null,null]"));
}

#[test]
fn encoded_state_is_valid_json_in_the_wire_shape() {
    let st = StateChange { board: init_board(), turn: PieceColour::Black };
    let s = encode_state_change(&st);
    let v: serde_json::Value = serde_json::from_str(&s).expect("well-formed JSON");
    assert_eq!(v["turn"], serde_json::Value::String("Black".to_string()));
    let rows = v["board"].as_array().expect("board is an array");
    assert_eq!(rows.len(), 8);
    for row in rows {
        assert_eq!(row.as_array().expect("row is an array").len(), 8);
    }
    assert_eq!(rows[0][4]["kind"], serde_json::Value::String("King".to_string()));
    assert_eq!(rows[0][4]["colour"], serde_json::Value::String("Black".to_string()));
    assert!(rows[3][3].is_null());
}

#[test]
fn encoded_vote_matches_serde_shape() {
    let v = vote((1, 7), (2, 5), 3);
    let s = encode_vote(&v);
    let j: serde_json::Value = serde_json::from_str(&s).expect("well-formed JSON");
    assert_eq!(j["action"]["from"][0], serde_json::Value::from(1));
    assert_eq!(j["action"]["from"][1], serde_json::Value::from(7));
    assert_eq!(j["action"]["to"][0], serde_json::Value::from(2));
    assert_eq!(j["action"]["to"][1], serde_json::Value::from(5));
    assert_eq!(j["weight"], serde_json::Value::from(3));
}

#[test]
fn vote_round_trip() {
    let cases = [
        vote((0, 0), (0, 0), 0),
        vote((4, 6), (4, 4), 1),
        vote((7, 7), (0, 0), u32::MAX),
        vote((255, 255), (128, 9), 1000000),
    ];
    for v in cases {
        let s = encode_vote(&v);
        let parsed = parse_vote(&s).expect("round trip parses");
        assert_eq!(parsed, v);
    }
}

#[test]
fn vote_parses_with_trailing_newline() {
    let v = vote((3, 0), (7, 4), 5);
    let mut s = encode_vote(&v);
    s.push('\n');
    assert_eq!(parse_vote(&s), Some(v));
}

#[test]
fn malformed_votes_rejected() {
    assert_eq!(parse_vote(""), None);
    assert_eq!(parse_vote("{}"), None);
    assert_eq!(parse_vote("{\"action\":{\"from\":[4,6],\"to\":[4,4]},\"weight\":}"), None);
    // leading zeros are not canonical
    assert_eq!(parse_vote("{\"action\":{\"from\":[04,6],\"to\":[4,4]},\"weight\":1}"), None);
    // a coordinate beyond a byte
    assert_eq!(parse_vote("{\"action\":{\"from\":[400,6],\"to\":[4,4]},\"weight\":1}"), None);
    // a weight beyond 32 bits
    assert_eq!(
        parse_vote("{\"action\":{\"from\":[4,6],\"to\":[4,4]},\"weight\":4294967296}"),
        None
    );
    // trailing garbage
    assert_eq!(parse_vote("{\"action\":{\"from\":[4,6],\"to\":[4,4]},\"weight\":1}x"), None);
}

#[test]
fn weight_round_trips_at_u32_max() {
    let v = vote((1, 2), (3, 4), 4294967295);
    assert_eq!(parse_vote(&encode_vote(&v)), Some(v));
}

#[test]
fn state_change_round_trip() {
    let mut state = StateChange { board: init_board(), turn: PieceColour::White };
    // walk a few moves to get a less regular position
    crowdchess::engine::process_move(
        &mut state.board,
        PieceColour::White,
        Action { from: (4, 6), to: (4, 4) },
    );
    state.turn = PieceColour::Black;
    let s = encode_state_change(&state);
    let parsed = parse_state_change(&s).expect("round trip parses");
    assert_eq!(parsed.turn, PieceColour::Black);
    for y in 0..8u8 {
        for x in 0..8u8 {
            assert_eq!(parsed.board.get(x, y), state.board.get(x, y));
        }
    }
    // re-encoding gives back the identical bytes
    assert_eq!(encode_state_change(&parsed), s);
}

#[test]
fn empty_board_round_trip() {
    let state = StateChange { board: Board::empty(), turn: PieceColour::White };
    let s = encode_state_change(&state);
    let parsed = parse_state_change(&s).expect("round trip parses");
    for y in 0..8u8 {
        for x in 0..8u8 {
            assert_eq!(parsed.board.get(x, y), None);
        }
    }
}

#[test]
fn short_or_ragged_boards_rejected() {
    // seven rows
    let mut seven = String::from("{\"board\":[");
    for y in 0..7 {
        if y > 0 {
            seven.push(',');
        }
        seven.push_str("[null,null,null,null,null,null,null,null]");
    }
    seven.push_str("],\"turn\":\"White\"}");
    assert!(parse_state_change(&seven).is_none());
    // a row of seven cells
    let mut ragged = String::from("{\"board\":[");
    for y in 0..8 {
        if y > 0 {
            ragged.push(',');
        }
        if y == 3 {
            ragged.push_str("[null,null,null,null,null,null,null]");
        } else {
            ragged.push_str("[null,null,null,null,null,null,null,null]");
        }
    }
    ragged.push_str("],\"turn\":\"White\"}");
    assert!(parse_state_change(&ragged).is_none());
}

#[test]
fn downstream_message_disambiguates_by_field() {
    let vc = "{\"timeout\":15000}";
    match parse_downstream_message(vc) {
        Some(DownstreamMessage::VoteCall(c)) => assert_eq!(c.timeout, 15000),
        other => panic!("expected a vote call, got {:?}", other),
    }
    let st = StateChange { board: init_board(), turn: PieceColour::White };
    let s = encode_state_change(&st);
    match parse_downstream_message(&s) {
        Some(DownstreamMessage::StateChange(got)) => {
            assert_eq!(got.turn, PieceColour::White);
        },
        other => panic!("expected a state change, got {:?}", other),
    }
    assert!(parse_downstream_message("{\"nonsense\":1}").is_none());
}
