use crowdchess::codec::{encode_state_change, encode_vote, parse_vote};
use crowdchess::funnel::{
    client_conn_token, client_conn_untoken, is_client, Funnel, FunnelConfig, UpstreamOutcome,
    FIRST_CLIENT, SERVER, UPSTREAM,
};
use crowdchess::engine::engine_step;
use crowdchess::model::{init_board, Action, Piece, PieceColour, PieceKind, StateChange, Vote};

fn config(start_vote: bool) -> FunnelConfig {
    FunnelConfig {
        vote_length_ms: 5000,
        vote_timeout_ms: 30000,
        timeout_change_ms: 1000,
        start_vote,
    }
}

fn vote(from: (u8, u8), to: (u8, u8), weight: u32) -> Vote {
    Vote { action: Action { from, to }, weight }
}

#[test]
fn tokens_map_back_and_forth() {
    assert_eq!(SERVER, 0);
    assert_eq!(UPSTREAM, 1);
    assert_eq!(FIRST_CLIENT, 2);
    assert_eq!(client_conn_token(0), 2);
    assert_eq!(client_conn_token(5), 7);
    assert_eq!(client_conn_untoken(7), 5);
    assert!(is_client(2));
    assert!(!is_client(1));
    assert!(!is_client(0));
}

#[test]
fn new_funnel_schedules_first_round_only_when_configured() {
    let f = Funnel::new(config(true), 1000);
    assert_eq!(f.next_vote_start, Some(6000));
    assert_eq!(f.next_vote_send, None);
    let g = Funnel::new(config(false), 1000);
    assert_eq!(g.next_vote_start, None);
    assert_eq!(g.next_vote_send, None);
}

#[test]
fn late_joiner_gets_latest_state_first() {
    let mut f = Funnel::new(config(false), 0);
    // before any state arrives, a new client gets nothing
    let (k0, greeting0) = f.new_client();
    assert!(greeting0.is_none());
    // a state change arrives from the engine
    let st = StateChange { board: init_board(), turn: PieceColour::White };
    let encoded = encode_state_change(&st);
    match f.upstream_event(&encoded, 500) {
        UpstreamOutcome::Broadcast(m) => assert_eq!(m, encoded),
        UpstreamOutcome::Malformed => panic!("state change should parse"),
    }
    // every client that joins now is greeted with that very state
    let (k1, greeting1) = f.new_client();
    assert_ne!(k0, k1);
    assert_eq!(greeting1, Some(encoded));
}

#[test]
fn state_change_arms_vote_start() {
    let mut f = Funnel::new(config(false), 0);
    let st = StateChange { board: init_board(), turn: PieceColour::White };
    f.upstream_event(&encode_state_change(&st), 700);
    assert_eq!(f.next_vote_start, Some(700 + 5000));
    assert_eq!(f.next_vote_send, None);
}

#[test]
fn vote_call_trims_timeout_and_arms_send() {
    let mut f = Funnel::new(config(false), 0);
    match f.upstream_event("{\"timeout\":30000}", 2000) {
        UpstreamOutcome::Broadcast(m) => assert_eq!(m, "{\"timeout\":29000}"),
        UpstreamOutcome::Malformed => panic!("vote call should parse"),
    }
    assert_eq!(f.next_vote_send, Some(2000 + 29000));
    assert_eq!(f.next_vote_start, None);
}

#[test]
fn malformed_upstream_message_dropped() {
    let mut f = Funnel::new(config(false), 0);
    match f.upstream_event("{\"board\":oops", 2000) {
        UpstreamOutcome::Malformed => {},
        UpstreamOutcome::Broadcast(_) => panic!("nonsense should not broadcast"),
    }
    assert_eq!(f.next_vote_send, None);
    assert_eq!(f.next_vote_start, None);
}

#[test]
fn client_vote_stored_and_garbage_dropped() {
    let mut f = Funnel::new(config(false), 0);
    let (k, _) = f.new_client();
    assert!(f.client_message(k, &encode_vote(&vote((4, 6), (4, 4), 1))));
    assert_eq!(f.clients.get(k), Some(Some(vote((4, 6), (4, 4), 1))));
    // garbage does not disturb the stored vote
    assert!(!f.client_message(k, "not json at all"));
    assert_eq!(f.clients.get(k), Some(Some(vote((4, 6), (4, 4), 1))));
    // a later vote replaces the earlier one
    assert!(f.client_message(k, &encode_vote(&vote((1, 7), (2, 5), 1))));
    assert_eq!(f.clients.get(k), Some(Some(vote((1, 7), (2, 5), 1))));
    // a vote for an unknown key is ignored
    assert!(!f.client_message(k + 100, &encode_vote(&vote((0, 1), (0, 2), 1))));
}

#[test]
fn no_votes_sends_synthetic_zero_weight() {
    let mut f = Funnel::new(config(false), 0);
    f.new_client();
    f.new_client();
    let line = f.send_vote_upstream();
    assert!(line.ends_with('\n'));
    let parsed = parse_vote(line.trim_end()).expect("the line is one vote");
    assert_eq!(parsed, vote((0, 0), (0, 0), 0));
}

#[test]
fn single_voter_wins_with_summed_weight() {
    let mut f = Funnel::new(config(false), 0);
    let (k0, _) = f.new_client();
    let (_k1, _) = f.new_client();
    assert!(f.client_message(k0, &encode_vote(&vote((4, 6), (4, 4), 7))));
    let line = f.send_vote_upstream();
    let parsed = parse_vote(line.trim_end()).expect("the line is one vote");
    assert_eq!(parsed.action, Action { from: (4, 6), to: (4, 4) });
    assert_eq!(parsed.weight, 7);
}

#[test]
fn chosen_vote_comes_from_a_voter_and_weights_add_up() {
    let mut f = Funnel::new(config(false), 0);
    let (k0, _) = f.new_client();
    let (k1, _) = f.new_client();
    let (_k2, _) = f.new_client();
    let v0 = vote((4, 6), (4, 4), 2);
    let v1 = vote((1, 7), (2, 5), 3);
    assert!(f.client_message(k0, &encode_vote(&v0)));
    assert!(f.client_message(k1, &encode_vote(&v1)));
    let line = f.send_vote_upstream();
    let parsed = parse_vote(line.trim_end()).expect("the line is one vote");
    assert_eq!(parsed.weight, 5);
    assert!(parsed.action == v0.action || parsed.action == v1.action);
}

#[test]
fn votes_cleared_after_send_win_or_lose() {
    let mut f = Funnel::new(config(false), 0);
    let (k0, _) = f.new_client();
    let (k1, _) = f.new_client();
    assert!(f.client_message(k0, &encode_vote(&vote((4, 6), (4, 4), 1))));
    assert!(f.client_message(k1, &encode_vote(&vote((1, 7), (2, 5), 1))));
    f.send_vote_upstream();
    assert_eq!(f.clients.get(k0), Some(None));
    assert_eq!(f.clients.get(k1), Some(None));
    // and the next round with no votes falls back to the synthetic vote
    let line = f.send_vote_upstream();
    assert_eq!(parse_vote(line.trim_end()), Some(vote((0, 0), (0, 0), 0)));
}

#[test]
fn removed_client_no_longer_counted() {
    let mut f = Funnel::new(config(false), 0);
    let (k0, _) = f.new_client();
    let (k1, _) = f.new_client();
    assert!(f.client_message(k0, &encode_vote(&vote((4, 6), (4, 4), 9))));
    assert_eq!(f.clients.remove(k0), Some(Some(vote((4, 6), (4, 4), 9))));
    assert!(f.clients.contains(k1));
    assert!(!f.clients.contains(k0));
    let line = f.send_vote_upstream();
    assert_eq!(parse_vote(line.trim_end()), Some(vote((0, 0), (0, 0), 0)));
}

#[test]
fn tick_fires_start_then_send() {
    let mut f = Funnel::new(config(true), 0);
    assert_eq!(f.next_vote_start, Some(5000));
    // nothing due yet
    assert_eq!(f.tick(4999), (false, false));
    assert_eq!(f.next_vote_start, Some(5000));
    // the vote call fires and arms the send deadline one window later
    assert_eq!(f.tick(5000), (true, false));
    assert_eq!(f.next_vote_start, None);
    assert_eq!(f.next_vote_send, Some(5000 + 30000));
    // the send fires once its window has passed
    assert_eq!(f.tick(35001), (false, true));
    assert_eq!(f.next_vote_send, None);
}

#[test]
fn start_vote_message_carries_the_window() {
    let f = Funnel::new(config(true), 0);
    assert_eq!(f.start_vote(), "{\"timeout\":30000}");
}

#[test]
fn poll_timeout_is_nearest_deadline() {
    let mut f = Funnel::new(config(true), 0);
    // only the start deadline is armed
    assert_eq!(f.poll_timeout(1000), Some(4000));
    // past deadlines report zero
    assert_eq!(f.poll_timeout(9000), Some(0));
    // arm the send deadline too and take the nearer one
    f.next_vote_send = Some(5500);
    assert_eq!(f.poll_timeout(1000), Some(4000).min(Some(4500)));
    f.next_vote_send = Some(2000);
    assert_eq!(f.poll_timeout(1000), Some(1000));
    // with nothing armed there is nothing to wait for
    let g = Funnel::new(config(false), 0);
    assert_eq!(g.poll_timeout(123), None);
}

#[test]
fn one_full_round_against_the_engine() {
    // the funnel is slaved to the engine; the engine speaks first
    let mut f = Funnel::new(config(false), 0);
    let mut game = StateChange { board: init_board(), turn: PieceColour::White };
    let opening = encode_state_change(&game);
    match f.upstream_event(&opening, 100) {
        UpstreamOutcome::Broadcast(m) => assert_eq!(m, opening),
        UpstreamOutcome::Malformed => panic!("the opening state should parse"),
    }
    // two spectators join and are caught up
    let (k0, g0) = f.new_client();
    let (k1, g1) = f.new_client();
    assert_eq!(g0.as_deref(), Some(opening.as_str()));
    assert_eq!(g1.as_deref(), Some(opening.as_str()));
    // the engine opens a voting window; the funnel keeps a margin
    match f.upstream_event("{\"timeout\":10000}", 200) {
        UpstreamOutcome::Broadcast(m) => assert_eq!(m, "{\"timeout\":9000}"),
        UpstreamOutcome::Malformed => panic!("the vote call should parse"),
    }
    assert_eq!(f.next_vote_send, Some(9200));
    // both spectators vote for the same pawn push
    assert!(f.client_message(k0, &encode_vote(&vote((4, 6), (4, 4), 1))));
    assert!(f.client_message(k1, &encode_vote(&vote((4, 6), (4, 4), 1))));
    // the window closes: the funnel forwards one vote of weight two
    assert_eq!(f.tick(9200), (false, true));
    let line = f.send_vote_upstream();
    let sent = parse_vote(line.trim_end()).expect("one vote per round");
    assert_eq!(sent.action, Action { from: (4, 6), to: (4, 4) });
    assert_eq!(sent.weight, 2);
    // the engine applies it and answers with the new state
    let out = engine_step(&mut game, &sent);
    assert_eq!(out.len(), 1);
    assert_eq!(
        out[0].board.get(4, 4),
        Some(Piece { kind: PieceKind::Pawn, colour: PieceColour::White })
    );
    let reply = encode_state_change(&out[0]);
    match f.upstream_event(&reply, 9500) {
        UpstreamOutcome::Broadcast(m) => assert_eq!(m, reply),
        UpstreamOutcome::Malformed => panic!("the new state should parse"),
    }
    // the late joiner of the next round sees the position after the move
    let (_k2, g2) = f.new_client();
    assert_eq!(g2.as_deref(), Some(reply.as_str()));
}

#[test]
fn vote_call_equal_to_margin_becomes_zero_window() {
    let mut f = Funnel::new(config(false), 0);
    match f.upstream_event("{\"timeout\":1000}", 400) {
        UpstreamOutcome::Broadcast(m) => assert_eq!(m, "{\"timeout\":0}"),
        UpstreamOutcome::Malformed => panic!("vote call should parse"),
    }
    assert_eq!(f.next_vote_send, Some(400));
    // the zero-window send fires at once
    assert_eq!(f.tick(400), (false, true));
    assert_eq!(f.next_vote_send, None);
}

#[test]
fn unstarted_funnel_ignores_vote_start_deadline() {
    let mut f = Funnel::new(config(false), 0);
    // a state change arms next_vote_start, but a funnel slaved to the
    // engine neither waits on it nor fires it
    let st = StateChange { board: init_board(), turn: PieceColour::White };
    f.upstream_event(&encode_state_change(&st), 0);
    assert_eq!(f.next_vote_start, Some(5000));
    assert_eq!(f.poll_timeout(0), None);
    assert_eq!(f.tick(10000), (false, false));
    assert_eq!(f.next_vote_start, Some(5000));
}
