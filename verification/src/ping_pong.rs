//! A ping-pong actor: it prints `ping..pong..` ten times, then stops.
use vstd::prelude::*;

verus! {

/// A basic actor that prints `ping..pong..` until its counter reaches ten, then stops.
pub struct PingPong;

/// The messages that [PingPong] understands.
#[derive(Debug, Clone, Copy, PartialEq, Eq, Structural)]
pub enum Message {
    Ping,
    Pong,
}

/// The message that follows `m` in the sequence.
pub open spec fn spec_next(m: Message) -> Message {
    match m {
        Message::Ping => Message::Pong,
        Message::Pong => Message::Ping,
    }
}

impl Message {
    /// The next message in the sequence.
    pub fn next(&self) -> (r: Self)
        ensures
            r == spec_next(*self),
    {
        match self {
            Message::Ping => Message::Pong,
            Message::Pong => Message::Ping,
        }
    }

    /// The text that printing this message writes.
    pub fn text(&self) -> (r: &'static str)
        ensures
            *self == Message::Ping ==> r@ == "ping.."@,
            *self == Message::Pong ==> r@ == "pong.."@,
    {
        match self {
            Message::Ping => "ping..",
            Message::Pong => "pong..",
        }
    }
}

/// What the actor asks its runtime to do.
#[derive(Debug, Clone, Copy, PartialEq, Eq, Structural)]
pub enum PingPongAction {
    /// Print the text of the message.
    Print(Message),
    /// Send the message to the actor itself.
    Send(Message),
    /// End the printed line.
    PrintNewline,
    /// Stop the actor.
    Stop,
}

/// Number of messages the actor prints before it stops.
pub const ROUNDS: u8 = 10u8;

/// The state and actions after the actor handles `m` with counter `s`.
pub open spec fn spec_handle(m: Message, s: u8) -> (u8, Seq<PingPongAction>) {
    if s < ROUNDS {
        ((s + 1) as u8, seq![PingPongAction::Print(m), PingPongAction::Send(spec_next(m))])
    } else {
        (s, seq![PingPongAction::PrintNewline, PingPongAction::Stop])
    }
}

impl PingPong {
    /// Start-up: the counter starts at zero and the first `Ping` is sent.
    pub fn pre_start(&self) -> (r: (u8, Vec<PingPongAction>))
        ensures
            r.0 == 0,
            r.1@ == seq![PingPongAction::Send(Message::Ping)],
    {
        let mut actions: Vec<PingPongAction> = Vec::new();
        actions.push(PingPongAction::Send(Message::Ping));
        (0u8, actions)
    }

    /// Handles one message: below ten rounds, print it, send the next one and count;
    /// otherwise end the line and stop.
    pub fn handle(&self, message: Message, state: &mut u8) -> (r: Vec<PingPongAction>)
        ensures
            (*final(state), r@) == spec_handle(message, *old(state)),
    {
        let mut actions: Vec<PingPongAction> = Vec::new();
        if *state < ROUNDS {
            actions.push(PingPongAction::Print(message));
            actions.push(PingPongAction::Send(message.next()));
            *state = *state + 1;
        } else {
            actions.push(PingPongAction::PrintNewline);
            actions.push(PingPongAction::Stop);
        }
        proof {
            assert(actions@ =~= spec_handle(message, *old(state)).1);
        }
        actions
    }
}

/// The state of a run: the counter, the message in flight, what was printed, and whether the
/// actor has stopped.
pub struct RunState {
    pub counter: u8,
    pub pending: Message,
    pub printed: Seq<PingPongAction>,
    pub stopped: bool,
}

/// The run after the actor has handled `steps` messages, each being the one it sent itself.
pub open spec fn spec_run(steps: nat) -> RunState
    decreases steps,
{
    if steps == 0 {
        RunState { counter: 0, pending: Message::Ping, printed: Seq::empty(), stopped: false }
    } else {
        let r = spec_run((steps - 1) as nat);
        if r.stopped {
            r
        } else {
            let (s, acts) = spec_handle(r.pending, r.counter);
            if r.counter < ROUNDS {
                RunState {
                    counter: s,
                    pending: spec_next(r.pending),
                    printed: r.printed.push(acts[0]),
                    stopped: false,
                }
            } else {
                RunState {
                    counter: s,
                    pending: r.pending,
                    printed: r.printed.push(acts[0]),
                    stopped: true,
                }
            }
        }
    }
}

/// The message printed in round `k`.
pub open spec fn message_at(k: nat) -> Message {
    if k % 2 == 0 {
        Message::Ping
    } else {
        Message::Pong
    }
}

/// Law: the next message differs from the current one, and two steps come back to it.
pub proof fn lemma_next_alternates(m: Message)
    ensures
        spec_next(m) != m,
        spec_next(spec_next(m)) == m,
{
}

/// Law: in the first rounds of a run the counter counts them, the messages alternate
/// starting with `Ping`, and the actor keeps running.
pub proof fn lemma_run_prefix(steps: nat)
    requires
        steps <= ROUNDS,
    ensures
        spec_run(steps).counter == steps,
        spec_run(steps).pending == message_at(steps),
        !spec_run(steps).stopped,
        spec_run(steps).printed == Seq::new(steps, |i: int| PingPongAction::Print(message_at(i as nat))),
    decreases steps,
{
    if steps > 0 {
        lemma_run_prefix((steps - 1) as nat);
        assert(spec_run(steps).printed =~= Seq::new(
            steps,
            |i: int| PingPongAction::Print(message_at(i as nat)),
        ));
    }
}

/// Law: a run prints `ping..` and `pong..` alternately ten times, ends the line, stops, and
/// does nothing more afterwards.
pub proof fn lemma_run_complete(steps: nat)
    requires
        steps > ROUNDS,
    ensures
        spec_run(steps).stopped,
        spec_run(steps).counter == ROUNDS,
        spec_run(steps).printed == Seq::new(
            ROUNDS as nat,
            |i: int| PingPongAction::Print(message_at(i as nat)),
        ).push(PingPongAction::PrintNewline),
    decreases steps,
{
    if steps == ROUNDS + 1 {
        lemma_run_prefix(ROUNDS as nat);
    } else {
        lemma_run_complete((steps - 1) as nat);
    }
}

} // verus!
