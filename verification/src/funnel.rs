//! The funnel: vote aggregation, the timed voting protocol and the
//! late-join cache.
//!
//! The reactor's sockets stay outside; this module holds the decisions.
//! Each entry point takes plain values (a message text, the current time
//! in milliseconds) and returns what should be sent where, while the
//! state transition it performs is pinned down by its contract.

use vstd::prelude::*;
use vstd::arithmetic::div_mod::lemma_add_mod_noop;
use vstd::arithmetic::div_mod::lemma_mod_multiples_vanish;
use vstd::arithmetic::div_mod::lemma_small_mod;
use vstd::set::fold::lemma_fold_insert;
use vstd::set::fold::is_fun_commutative;

use crate::codec::{
    encode_state_change, encode_vote, encode_vote_call, json_state_change, json_vote,
    json_vote_call, line_matches, parse_downstream_message, parse_vote,
};
use crate::model::{Action, DownstreamMessage, Piece, PieceColour, StateChange, Vote, VoteCall};
use crate::table::ClientTable;
use rand::Rng;

verus! {

/// The reactor token of the listening socket.
pub const SERVER: usize = 0;

/// The reactor token of the upstream connection.
pub const UPSTREAM: usize = 1;

/// The first reactor token handed to a client session.
pub const FIRST_CLIENT: usize = 2;

/// The reactor token of the client session with the given table key.
pub fn client_conn_token(index: usize) -> (t: usize)
    requires
        index <= usize::MAX - 2,
    ensures
        t == index + 2,
{
    index + FIRST_CLIENT
}

/// The table key of the client session with the given reactor token.
pub fn client_conn_untoken(token: usize) -> (index: usize)
    requires
        token >= 2,
    ensures
        index == token - 2,
{
    token - FIRST_CLIENT
}

/// Whether a reactor token belongs to a client session.
pub fn is_client(token: usize) -> (r: bool)
    ensures
        r == (token >= 2),
{
    token >= FIRST_CLIENT
}

/// Relies on Rng::gen_range over `0..n`: a value below `n`.  It panics
/// for an empty range, which the precondition rules out.
#[verifier::external_body]
fn pick_index(n: usize) -> (r: usize)
    requires
        n >= 1,
    ensures
        r < n,
{
    rand::thread_rng().gen_range(0..n)
}

/// The funnel's timing configuration, all durations in milliseconds.
#[derive(Debug, Clone, Copy, PartialEq, Eq, Structural)]
pub struct FunnelConfig {
    /// Delay from a state change to the next vote call broadcast.
    pub vote_length_ms: u32,
    /// The voting window each round.
    pub vote_timeout_ms: u32,
    /// Safety margin subtracted from incoming vote-call timeouts.
    pub timeout_change_ms: u32,
    /// Whether this funnel initiates rounds itself.
    pub start_vote: bool,
}

/// What to do with one upstream message.
pub enum UpstreamOutcome {
    /// The message did not parse: drop it, keep the connection.
    Malformed,
    /// Forward this text to every connected client.
    Broadcast(String),
}

/// The funnel state: the client table, the cached latest game state for
/// late joiners, and the two scheduler deadlines (wall-clock
/// milliseconds; either may be unarmed).
pub struct Funnel {
    pub config: FunnelConfig,
    pub clients: ClientTable,
    pub latest_state: Option<StateChange>,
    pub next_vote_send: Option<u64>,
    pub next_vote_start: Option<u64>,
}

/// The weight a table entry contributes to a round's total.
pub open spec fn entry_weight(ov: Option<Vote>) -> int {
    match ov {
        Some(v) => v.weight as int,
        None => 0,
    }
}

/// The summed weight of every pending vote in the table.
pub open spec fn weight_sum(m: Map<usize, Option<Vote>>) -> int {
    m.dom().fold(0, |acc: int, k: usize| acc + entry_weight(m[k]))
}

impl Funnel {
    /// The cached latest state, as plain values.
    pub open spec fn latest(&self) -> Option<(Seq<Option<Piece>>, PieceColour)> {
        match self.latest_state {
            Some(st) => Some((st.board@, st.turn)),
            None => None,
        }
    }

    /// Well-formedness: the table is finite and any cached state holds a
    /// full board.
    pub open spec fn wf(&self) -> bool {
        &&& self.clients.wf()
        &&& (self.latest_state matches Some(st) ==> st.board.wf())
    }

    /// The vote-call deadline is armed, eligible and due.
    pub open spec fn start_pending(&self, now: u64) -> bool {
        self.config.start_vote && (self.next_vote_start matches Some(d) && now >= d)
    }

    /// The vote-send deadline is armed and due.
    pub open spec fn send_pending(&self, now: u64) -> bool {
        self.next_vote_send matches Some(d) && now >= d
    }

    /// A fresh funnel: no clients, no cached state; if this funnel
    /// initiates rounds, the first vote call is scheduled one round
    /// length from now.
    pub fn new(config: FunnelConfig, now: u64) -> (f: Funnel)
        requires
            now + config.vote_length_ms <= u64::MAX,
        ensures
            f.wf(),
            f.config == config,
            f.clients@ == Map::<usize, Option<Vote>>::empty(),
            f.latest() is None,
            f.next_vote_send is None,
            f.next_vote_start == if config.start_vote {
                Some((now + config.vote_length_ms) as u64)
            } else {
                None::<u64>
            },
    {
        Funnel {
            config,
            clients: ClientTable::new(),
            latest_state: None,
            next_vote_send: None,
            next_vote_start: if config.start_vote {
                Some(now + config.vote_length_ms as u64)
            } else {
                None
            },
        }
    }

    /// Register a newly accepted client: it gets a fresh table key with
    /// no pending vote, and, when a latest state is cached, that state's
    /// encoding comes back as the first message to send it.
    pub fn new_client(&mut self) -> (r: (usize, Option<String>))
        requires
            old(self).wf(),
        ensures
            final(self).wf(),
            final(self).config == old(self).config,
            final(self).latest() == old(self).latest(),
            final(self).next_vote_send == old(self).next_vote_send,
            final(self).next_vote_start == old(self).next_vote_start,
            !old(self).clients@.dom().contains(r.0),
            final(self).clients@ == old(self).clients@.insert(r.0, None::<Vote>),
            match old(self).latest() {
                Some(bt) => r.1 matches Some(m) && m@ == json_state_change(bt.0, bt.1),
                None => r.1 is None,
            },
    {
        let key = self.clients.insert();
        let greeting = match &self.latest_state {
            Some(st) => Some(encode_state_change(st)),
            None => None,
        };
        (key, greeting)
    }

    /// Record the vote a client sent.  The text must be one JSON vote;
    /// anything else is dropped and the session kept, as is a vote from
    /// a key with no session.
    pub fn client_message(&mut self, key: usize, text: &str) -> (accepted: bool)
        requires
            old(self).wf(),
        ensures
            final(self).wf(),
            final(self).config == old(self).config,
            final(self).latest() == old(self).latest(),
            final(self).next_vote_send == old(self).next_vote_send,
            final(self).next_vote_start == old(self).next_vote_start,
            forall|v: Vote|
                line_matches(text@, json_vote(v)) ==> if old(self).clients@.dom().contains(key) {
                    accepted && final(self).clients@ == old(self).clients@.insert(key, Some(v))
                } else {
                    !accepted && final(self).clients@ == old(self).clients@
                },
            (forall|v: Vote| !line_matches(text@, json_vote(v))) ==> !accepted && final(self).clients@ == old(self).clients@,
    {
        match parse_vote(text) {
            Some(v) => self.clients.set_vote(key, Some(v)),
            None => false,
        }
    }

    /// Act on one upstream message.
    ///
    /// A vote call has the safety margin taken off its timeout, arms the
    /// vote-send deadline accordingly, and is rebroadcast with the
    /// smaller timeout.  A state change is cached for late joiners, arms
    /// the vote-call deadline one round length from now, and is
    /// rebroadcast as received.  Anything else is dropped.
    pub fn upstream_event(&mut self, line: &str, now: u64) -> (r: UpstreamOutcome)
        requires
            old(self).wf(),
            now + 0xffff_ffffu64 <= u64::MAX,
            forall|vc: VoteCall|
                line_matches(line@, json_vote_call(vc)) ==> vc.timeout >= old(self).config.timeout_change_ms,
        ensures
            final(self).wf(),
            final(self).config == old(self).config,
            final(self).clients@ == old(self).clients@,
            forall|vc: VoteCall|
                line_matches(line@, json_vote_call(vc)) ==> {
                    &&& final(self).next_vote_send matches Some(d) && d == now + vc.timeout - old(self).config.timeout_change_ms
                    &&& final(self).next_vote_start == old(self).next_vote_start
                    &&& final(self).latest() == old(self).latest()
                    &&& r matches UpstreamOutcome::Broadcast(m) && m@ == json_vote_call(
                        VoteCall {
                            timeout: (vc.timeout - old(self).config.timeout_change_ms) as u32,
                        },
                    )
                },
            forall|b: Seq<Option<Piece>>, t: PieceColour|
                b.len() == 64 && line_matches(line@, json_state_change(b, t)) ==> {
                    &&& final(self).latest() == Some((b, t))
                    &&& final(self).next_vote_start matches Some(d) && d == now + old(self).config.vote_length_ms
                    &&& final(self).next_vote_send == old(self).next_vote_send
                    &&& r matches UpstreamOutcome::Broadcast(m) && m@ == json_state_change(b, t)
                },
            ((forall|vc: VoteCall| !line_matches(line@, json_vote_call(vc))) && (forall|
                b: Seq<Option<Piece>>,
                t: PieceColour,
            |
                !(b.len() == 64 && line_matches(line@, json_state_change(b, t))))) ==> {
                &&& r is Malformed
                &&& final(self).latest() == old(self).latest()
                &&& final(self).next_vote_send == old(self).next_vote_send
                &&& final(self).next_vote_start == old(self).next_vote_start
            },
    {
        match parse_downstream_message(line) {
            None => UpstreamOutcome::Malformed,
            Some(DownstreamMessage::VoteCall(vc)) => {
                let trimmed = vc.timeout - self.config.timeout_change_ms;
                self.next_vote_send = Some(now + trimmed as u64);
                UpstreamOutcome::Broadcast(encode_vote_call(&VoteCall { timeout: trimmed }))
            },
            Some(DownstreamMessage::StateChange(st)) => {
                let msg = encode_state_change(&st);
                self.latest_state = Some(st);
                self.next_vote_start = Some(now + self.config.vote_length_ms as u64);
                UpstreamOutcome::Broadcast(msg)
            },
        }
    }

    /// The vote-call message that opens a round: its timeout is the
    /// configured voting window.
    pub fn start_vote(&self) -> (msg: String)
        ensures
            msg@ == json_vote_call(VoteCall { timeout: self.config.vote_timeout_ms }),
    {
        encode_vote_call(&VoteCall { timeout: self.config.vote_timeout_ms })
    }

    /// Fire whichever scheduler deadlines are due.
    ///
    /// The first flag says a vote call is to be broadcast now (the
    /// deadline is disarmed and the vote-send deadline armed one voting
    /// window from now); the second says the round's vote is to be
    /// selected and sent upstream now (that deadline is disarmed).  The
    /// caller performs the sends through [`Funnel::start_vote`] and
    /// [`Funnel::send_vote_upstream`].
    pub fn tick(&mut self, now: u64) -> (r: (bool, bool))
        requires
            old(self).wf(),
            now + old(self).config.vote_timeout_ms <= u64::MAX,
        ensures
            final(self).wf(),
            final(self).config == old(self).config,
            final(self).clients@ == old(self).clients@,
            final(self).latest() == old(self).latest(),
            r.0 == old(self).start_pending(now),
            r.1 == if r.0 {
                old(self).config.vote_timeout_ms == 0
            } else {
                old(self).send_pending(now)
            },
            final(self).next_vote_start == if r.0 {
                None::<u64>
            } else {
                old(self).next_vote_start
            },
            final(self).next_vote_send == if r.1 {
                None::<u64>
            } else if r.0 {
                Some((now + old(self).config.vote_timeout_ms) as u64)
            } else {
                old(self).next_vote_send
            },
    {
        let mut start_fired = false;
        if self.config.start_vote {
            let due = match self.next_vote_start {
                Some(d) => now >= d,
                None => false,
            };
            if due {
                start_fired = true;
                self.next_vote_start = None;
                self.next_vote_send = Some(now + self.config.vote_timeout_ms as u64);
            }
        }
        let send_due = match self.next_vote_send {
            Some(d) => now >= d,
            None => false,
        };
        if send_due {
            self.next_vote_send = None;
        }
        (start_fired, send_due)
    }

    /// How long the reactor may sleep: the time until the nearest armed,
    /// eligible deadline, or nothing when none is armed.
    pub fn poll_timeout(&self, now: u64) -> (r: Option<u64>)
        ensures
            ({
                let sd = if self.config.start_vote {
                    self.next_vote_start
                } else {
                    None::<u64>
                };
                match (sd, self.next_vote_send) {
                    (None, None) => r is None,
                    (Some(d), None) => r == Some(remaining_ms(d, now)),
                    (None, Some(d)) => r == Some(remaining_ms(d, now)),
                    (Some(d1), Some(d2)) => r == Some(
                        if remaining_ms(d1, now) <= remaining_ms(d2, now) {
                            remaining_ms(d1, now)
                        } else {
                            remaining_ms(d2, now)
                        },
                    ),
                }
            }),
    {
        let start_deadline = if self.config.start_vote {
            self.next_vote_start
        } else {
            None
        };
        let mut best: Option<u64> = None;
        if let Some(d) = start_deadline {
            best = Some(if d > now {
                d - now
            } else {
                0
            });
        }
        if let Some(d) = self.next_vote_send {
            let rem = if d > now {
                d - now
            } else {
                0
            };
            best = match best {
                Some(b) => Some(if b <= rem {
                    b
                } else {
                    rem
                }),
                None => Some(rem),
            };
        }
        best
    }

    /// Select and encode the round's one vote, clearing every pending
    /// vote, win or lose.
    ///
    /// When at least one client voted, one of their actions is chosen
    /// (the choice may use randomness) and forwarded with the summed
    /// weight of every pending vote, wrapped to 32 bits; when none did, a
    /// synthetic all-zero vote of weight zero goes instead, so exactly
    /// one vote leaves per round either way.  The returned line ends in a
    /// line feed, ready for the upstream socket.
    pub fn send_vote_upstream(&mut self) -> (line: String)
        requires
            old(self).wf(),
        ensures
            final(self).wf(),
            final(self).config == old(self).config,
            final(self).latest() == old(self).latest(),
            final(self).next_vote_send == old(self).next_vote_send,
            final(self).next_vote_start == old(self).next_vote_start,
            final(self).clients@.dom() == old(self).clients@.dom(),
            forall|k: usize|
                final(self).clients@.dom().contains(k) ==> final(self).clients@[k] is None,
            ({
                let m = old(self).clients@;
                let w = (weight_sum(m) % 0x1_0000_0000) as u32;
                &&& (exists|k: usize| m.dom().contains(k) && m[k] is Some) ==> exists|k: usize|
                    m.dom().contains(k) && (m[k] matches Some(v) && line@ == json_vote(
                        Vote { action: v.action, weight: w },
                    ) + "\n"@)
                &&& (forall|k: usize| m.dom().contains(k) ==> m[k] is None) ==> line@ == json_vote(
                    Vote { action: Action { from: (0, 0), to: (0, 0) }, weight: w },
                ) + "\n"@
            }),
    {
        let ghost m = self.clients@;
        let ghost f = |acc: int, k: usize| acc + entry_weight(m[k]);
        let entries = self.clients.entries();
        let n = entries.len();
        let mut voted: Vec<Vote> = Vec::new();
        let mut acc: u32 = 0;
        let ghost mut processed = Set::<usize>::empty();
        let ghost mut sum: int = 0;
        proof {
            assert(is_fun_commutative(f));
            vstd::set::fold::lemma_fold_empty(0int, f);
        }
        let mut i: usize = 0;
        while i < n
            invariant
                self.clients.wf(),
                m == self.clients@,
                n == entries@.len(),
                i <= n,
                forall|j: int| 0 <= j < entries@.len() ==> m.contains_pair(
                    #[trigger] entries@[j].0,
                    entries@[j].1,
                ),
                forall|j1: int, j2: int|
                    0 <= j1 < j2 < entries@.len() ==> entries@[j1].0 < entries@[j2].0,
                f == (|acc: int, k: usize| acc + entry_weight(m[k])),
                is_fun_commutative(f),
                processed.finite(),
                forall|j: int| 0 <= j < i ==> processed.contains(#[trigger] entries@[j].0),
                forall|k: usize|
                    processed.contains(k) ==> exists|j: int|
                        0 <= j < i && #[trigger] entries@[j].0 == k,
                sum == processed.fold(0int, f),
                0 <= sum,
                acc == sum % 0x1_0000_0000,
                forall|j: int| 0 <= j < voted@.len() ==> exists|k: usize|
                    m.dom().contains(k) && m[k] == Some(#[trigger] voted@[j]),
                voted@.len() == 0 ==> forall|j: int| 0 <= j < i ==> entries@[j].1 is None,
            decreases n - i,
        {
            let (key, entry) = entries[i];
            proof {
                assert(m.contains_pair(key, entry));
                assert(!processed.contains(key)) by {
                    if processed.contains(key) {
                        let j = choose|j: int| 0 <= j < i && #[trigger] entries@[j].0 == key;
                        assert(entries@[j].0 < entries@[i as int].0);
                    }
                }
                lemma_fold_insert(processed, 0int, f, key);
                assert(processed.insert(key).fold(0int, f) == sum + entry_weight(m[key]));
            }
            let w: u32 = match entry {
                Some(v) => {
                    voted.push(v);
                    v.weight
                },
                None => 0,
            };
            let ghost oldacc = acc;
            acc = acc.wrapping_add(w);
            proof {
                let big = 0x1_0000_0000int;
                let x = oldacc + w;
                lemma_small_mod(w as nat, big as nat);
                lemma_small_mod(sum as nat % 0x1_0000_0000nat, big as nat);
                lemma_add_mod_noop(sum, w as int, big);
                if x <= u32::MAX {
                    lemma_small_mod(x as nat, big as nat);
                } else {
                    lemma_mod_multiples_vanish(1, x - big, big);
                    lemma_small_mod((x - big) as nat, big as nat);
                }
                assert(acc == (sum + w) % big);
                processed = processed.insert(key);
                sum = sum + entry_weight(m[key]);
            }
            i = i + 1;
        }
        proof {
            assert(processed =~= m.dom()) by {
                assert forall|k: usize| m.dom().contains(k) implies processed.contains(k) by {
                    let j = choose|j: int|
                        0 <= j < entries@.len() && #[trigger] entries@[j].0 == k;
                    assert(processed.contains(entries@[j].0));
                }
                assert forall|k: usize| processed.contains(k) implies m.dom().contains(k) by {
                    let j = choose|j: int| 0 <= j < n && #[trigger] entries@[j].0 == k;
                    assert(m.contains_pair(entries@[j].0, entries@[j].1));
                }
            }
            assert(sum == weight_sum(m));
        }
        let chosen: Vote = if voted.len() > 0 {
            let idx = pick_index(voted.len());
            let v = voted[idx];
            Vote { action: v.action, weight: acc }
        } else {
            proof {
                assert forall|k: usize| m.dom().contains(k) implies m[k] is None by {
                    let j = choose|j: int|
                        0 <= j < entries@.len() && #[trigger] entries@[j].0 == k;
                    assert(m.contains_pair(entries@[j].0, entries@[j].1));
                }
            }
            Vote { action: Action { from: (0, 0), to: (0, 0) }, weight: acc }
        };
        let mut line = encode_vote(&chosen);
        line.append("\n");
        let mut i: usize = 0;
        while i < n
            invariant
                self.clients.wf(),
                self.config == old(self).config,
                self.latest() == old(self).latest(),
                (self.latest_state matches Some(st) ==> st.board.wf()),
                self.next_vote_send == old(self).next_vote_send,
                self.next_vote_start == old(self).next_vote_start,
                n == entries@.len(),
                i <= n,
                self.clients@.dom() == m.dom(),
                forall|j: int| 0 <= j < entries@.len() ==> m.dom().contains(
                    #[trigger] entries@[j].0,
                ),
                forall|j: int| 0 <= j < i ==> self.clients@[#[trigger] entries@[j].0] is None,
            decreases n - i,
        {
            let (key, _) = entries[i];
            let ok = self.clients.set_vote(key, None);
            proof {
                assert(ok);
            }
            i = i + 1;
        }
        proof {
            assert forall|k: usize|
                self.clients@.dom().contains(k) implies self.clients@[k] is None by {
                let j = choose|j: int| 0 <= j < entries@.len() && #[trigger] entries@[j].0 == k;
            }
        }
        line
    }
}

/// The time from `now` until deadline `d`, or zero when it has passed.
pub open spec fn remaining_ms(d: u64, now: u64) -> u64 {
    if d > now {
        (d - now) as u64
    } else {
        0
    }
}

} // verus!
